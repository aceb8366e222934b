use regioned::data_flow::link::Link;
use regioned::data_flow::node::{Compound, Marker, Node, Payload};
use regioned::data_flow::nodes::Nodes;
use regioned::data_flow::regions::RegionList;
use regioned::dot::data::{count_ports, region_end_of, region_start_of, Dot};
use regioned::dot::owners::Owners;
use regioned::display::node::{write_contents, Ports};
use regioned::dot::description::Description;
use regioned::dot::node::{Face, Information};
use regioned::dot::region::{Labeled, Named};
use regioned::dot::template::{Anchor, Group, PortCounts};
use regioned::dot::text::write_decimal;

fn decimal(value: usize) -> String {
    let mut text = String::new();

    write_decimal(&mut text, value);

    text
}

#[test]
fn numbers_are_written_in_decimal() {
    assert_eq!(decimal(0), "0");
    assert_eq!(decimal(7), "7");
    assert_eq!(decimal(10), "10");
    assert_eq!(decimal(65535), "65535");
    assert_eq!(decimal(1203004), "1203004");
    assert_eq!(decimal(usize::MAX), usize::MAX.to_string());

    let mut text = String::from("port ");

    write_decimal(&mut text, 42);

    assert_eq!(text, "port 42");
}

#[test]
fn a_number_describes_itself() {
    let mut text = String::new();

    17usize.write_content(&mut text);

    assert_eq!(text, "<TR><TD>17</TD></TR>");

    let mut ports = String::new();

    17usize.write_port_in(&mut ports, 0);
    ports.push(' ');
    17usize.write_port_out(&mut ports, 9);

    assert_eq!(ports, "1 10");
}

#[test]
fn nodes_describe_themselves_by_name() {
    let mut text = String::new();

    Marker::Start.write_content(&mut text);
    Marker::End { parameters: Vec::new() }.write_content(&mut text);

    assert_eq!(text, "<TR><TD>Start</TD></TR><TR><TD>End</TD></TR>");

    let region = Default::default();
    let theta = Compound::Theta { parameters: Vec::new(), region };
    let mut named = String::new();

    theta.write_content(&mut named);

    assert_eq!(named, "<TR><TD>Theta</TD></TR>");

    let node: Node<usize> = Node::Compound(Compound::Phi { parameters: vec![Link::default()], region });
    let mut composed = String::new();

    node.write_content(&mut composed);
    node.write_port_in(&mut composed, 2);
    Node::<usize>::Simple(5).write_content(&mut composed);
    Node::<usize>::Marker(Marker::Start).write_port_out(&mut composed, 0);

    assert_eq!(composed, "<TR><TD>Phi</TD></TR>3<TR><TD>5</TD></TR>1");
}

#[test]
fn a_group_writes_its_colour_and_name() {
    let mut text = String::new();

    Group::Gamma.write(&mut text);

    assert_eq!(text, "fillcolor = \"#a1fc8f\";\nlabel = \"Gamma\";\n");

    let mut rest = String::new();

    Group::Theta.write(&mut rest);
    Group::Lambda.write(&mut rest);
    Group::Phi.write(&mut rest);

    assert_eq!(
        rest,
        "fillcolor = \"#eb8582\";\nlabel = \"Theta\";\nfillcolor = \"#8bb2f9\";\nlabel = \"Lambda\";\nfillcolor = \"#ecb084\";\nlabel = \"Phi\";\n"
    );

    let region = Default::default();

    assert!(matches!(
        Group::from_compound(&Compound::Lambda { parameters: Vec::new(), region }),
        Group::Lambda
    ));
}

#[test]
fn an_anchor_names_a_port() {
    assert_eq!(Anchor::In.side(), "in");
    assert_eq!(Anchor::Out.side(), "out");
    assert_eq!(Anchor::In.direction(), "n");
    assert_eq!(Anchor::Out.direction(), "s");

    let mut text = String::new();

    Anchor::Out.write(&mut text, "12", 3);
    text.push_str(" -> ");
    Anchor::In.write(&mut text, "40", 0);

    assert_eq!(text, "12:out3:s -> 40:in0:n");
}

#[test]
fn port_counts_keep_the_largest() {
    let mut counts = PortCounts::new();

    counts.set_inward(2);
    counts.set_inward(1);
    counts.set_outward(3);
    counts.set_outward(0);

    let mut text = String::new();

    counts.write(&mut text, &7usize);

    assert_eq!(
        text,
        "[label = <<TABLE BORDER=\"0\" CELLPADDING=\"0\" CELLSPACING=\"0\">\
<TR><TD><TABLE CELLSPACING=\"0\"><TR><TD PORT=\"in0\">1</TD><TD PORT=\"in1\">2</TD></TR></TABLE></TD></TR>\
<TR><TD><TABLE CELLSPACING=\"0\"><TR><TD>7</TD></TR></TABLE></TD></TR>\
<TR><TD><TABLE CELLSPACING=\"0\"><TR><TD PORT=\"out0\">1</TD><TD PORT=\"out1\">2</TD><TD PORT=\"out2\">3</TD></TR></TABLE></TD></TR>\
</TABLE>>];\n"
    );
}

#[test]
fn a_node_with_single_ports_has_a_plain_label() {
    let mut counts = PortCounts::new();

    counts.set_inward(1);
    counts.set_outward(1);

    let mut text = String::new();

    counts.write(&mut text, &Marker::Start);

    assert_eq!(
        text,
        "[label = <<TABLE CELLSPACING=\"0\"><TR><TD>Start</TD></TR></TABLE>>];\n"
    );
}

#[test]
fn a_label_with_ports_on_one_side_only() {
    let mut counts = PortCounts::new();

    counts.set_outward(2);

    let mut text = String::new();

    counts.write(&mut text, &3usize);

    assert_eq!(
        text,
        "[label = <<TABLE BORDER=\"0\" CELLPADDING=\"0\" CELLSPACING=\"0\"><TR><TD>\
<TABLE CELLSPACING=\"0\"><TR><TD>3</TD></TR></TABLE></TD></TR>\
<TR><TD><TABLE CELLSPACING=\"0\"><TR><TD PORT=\"out0\">1</TD><TD PORT=\"out1\">2</TD></TR></TABLE></TD></TR>\
</TABLE>>];\n"
    );
}

#[test]
fn the_lettered_label_names_its_ports_by_letter() {
    let mut ports = Ports::new(0, 0);

    ports.set_input(2);
    ports.set_output(0);
    ports.set_output(1);
    ports.set_output(0);

    let mut text = String::new();

    write_contents(&mut text, &9usize, ports);

    assert_eq!(
        text,
        "[label = <<TABLE BORDER=\"0\" CELLPADDING=\"0\" CELLSPACING=\"0\">\
<TR><TD><TABLE CELLSPACING=\"0\"><TR><TD PORT=\"I0\">1</TD><TD PORT=\"I1\">2</TD></TR></TABLE></TD></TR>\
<TR><TD><TABLE CELLSPACING=\"0\"><TR><TD>9</TD></TR></TABLE></TD></TR>\
<TR><TD><TABLE CELLSPACING=\"0\"><TR><TD PORT=\"O0\">1</TD><TD PORT=\"O1\">2</TD></TR></TABLE></TD></TR>\
</TABLE>>];\n"
    );

    let mut plain = String::new();

    write_contents(&mut plain, &9usize, Ports::new(1, 1));

    assert_eq!(
        plain,
        "[label = <<TABLE CELLSPACING=\"0\"><TR><TD>9</TD></TR></TABLE>>];\n"
    );
}

#[test]
fn a_face_names_its_side() {
    assert_eq!(Face::Incoming.direction(), "n");
    assert_eq!(Face::Outgoing.direction(), "s");
    assert_eq!(Face::Incoming.name(), "in");
    assert_eq!(Face::Outgoing.name(), "out");
}

#[test]
fn information_writes_a_table_with_ports() {
    let mut information = Information::new();

    information.set_incoming(2);
    information.set_incoming(1);
    information.set_outgoing(3);

    let mut text = String::new();

    information.write(&mut text, "5", "add");

    assert_eq!(
        text,
        "5 [label = <<TABLE CELLSPACING=\"0\">\
<TR><TD PORT=\"in0\">1</TD><TD PORT=\"in1\">2</TD></TR>\
<TR><TD COLSPAN=\"3\">add</TD></TR>\
<TR><TD PORT=\"out0\">1</TD><TD PORT=\"out1\">2</TD><TD PORT=\"out2\">3</TD></TR>\
</TABLE>>];\n"
    );

    let mut bare = String::new();

    Information::new().write(&mut bare, "0", "BAD NODE");

    assert_eq!(
        bare,
        "0 [label = <<TABLE CELLSPACING=\"0\"><TR><TD COLSPAN=\"1\">BAD NODE</TD></TR></TABLE>>];\n"
    );
}

#[test]
fn a_cluster_wraps_what_is_nested() {
    let mut text = String::new();

    Named::Theta.write(&mut text, "4", "4 -> 5;\n");

    assert_eq!(
        text,
        "subgraph cluster_4 {\nfillcolor = \"#bb84ca\";\nlabel = \"Theta\";\n4 -> 5;\n}\n"
    );

    let mut other = String::new();

    Named::NotReachable.write(&mut other, "unreachable", "");

    assert_eq!(
        other,
        "subgraph cluster_unreachable {\nfillcolor = \"#e881aa\";\nlabel = \"Not Reachable\";\n}\n"
    );

    let mut colours = String::new();

    for named in [Named::Gamma, Named::Lambda, Named::Phi, Named::Then, Named::Reachable] {
        named.write(&mut colours, "x", "");
    }

    assert!(colours.contains("#8b81e8"));
    assert!(colours.contains("#dde881"));
    assert!(colours.contains("#e6b79a"));
    assert!(colours.contains("#89b7d7"));
    assert!(colours.contains("#81e8bf"));
}

#[test]
fn a_labelled_cluster_overrides_its_name() {
    let labeled = Labeled::new(Named::Then, String::from("1"));
    let mut text = String::new();

    labeled.write(&mut text, "8", "8;\n");

    assert_eq!(
        text,
        "subgraph cluster_8 {\nfillcolor = \"#89b7d7\";\nlabel = \"Then\";\nlabel = \"1\";\n8;\n}\n"
    );
}

#[test]
fn a_chain_is_drawn_with_its_link() {
    let mut nodes: Nodes<Payload<usize>> = Nodes::new();
    let a = nodes
        .add_simple(Payload { data: 7, parameters: Vec::new() })
        .unwrap();
    let b = nodes
        .add_simple(Payload { data: 8, parameters: vec![Link { node: a, port: 0 }] })
        .unwrap();

    let mut text = String::new();

    Dot::new().write(&mut text, &nodes, &[b]);

    assert_eq!(
        text,
        "digraph {\n\
node [shape = plain, style = filled, fillcolor = \"#DDDDFF\"];\n\
style = filled;\n\
0 [label = <<TABLE CELLSPACING=\"0\"><TR><TD>7</TD></TR></TABLE>>];\n\
1 [label = <<TABLE CELLSPACING=\"0\"><TR><TD>8</TD></TR></TABLE>>];\n\
0:out0:s -> 1:in0:n;\n\
}\n"
    );
}

#[test]
fn a_theta_is_drawn_as_a_cluster_and_strangers_come_last() {
    let mut nodes: Nodes<Payload<usize>> = Nodes::new();
    let x = nodes
        .add_simple(Payload { data: 7, parameters: Vec::new() })
        .unwrap();
    let (theta, region) = nodes.add_theta(vec![Link { node: x, port: 0 }]).unwrap();
    let _ = nodes
        .add_simple(Payload { data: 9, parameters: Vec::new() })
        .unwrap();

    assert_eq!((region.start.index(), region.end.index(), theta.index()), (1, 2, 3));

    let mut writer = Dot::new();
    let mut text = String::new();

    writer.write(&mut text, &nodes, &[theta]);

    assert_eq!(
        text,
        "digraph {\n\
node [shape = plain, style = filled, fillcolor = \"#DDDDFF\"];\n\
style = filled;\n\
0 [label = <<TABLE CELLSPACING=\"0\"><TR><TD>7</TD></TR></TABLE>>];\n\
subgraph cluster_3 {\n\
subgraph cluster_1 {\n\
}\n\
} // 3\n\
subgraph cluster_3 {\n\
fillcolor = \"#eb8582\";\n\
label = \"Theta\";\n\
1 [label = <<TABLE CELLSPACING=\"0\"><TR><TD>Start</TD></TR></TABLE>>];\n\
0:out0:s -> 1:in0:n;\n\
2 [label = <<TABLE CELLSPACING=\"0\"><TR><TD>End</TD></TR></TABLE>>];\n\
}\n\
4 [label = <<TABLE CELLSPACING=\"0\"><TR><TD>9</TD></TR></TABLE>>];\n\
}\n"
    );

    let mut again = String::new();

    writer.write(&mut again, &nodes, &[theta]);

    assert_eq!(again, text);
}

#[test]
fn a_gamma_is_drawn_with_numbered_branches() {
    let mut nodes: Nodes<Payload<usize>> = Nodes::new();
    let selector = nodes
        .add_simple(Payload { data: 1, parameters: Vec::new() })
        .unwrap();
    let region_1 = nodes.add_region().unwrap();
    let region_2 = nodes.add_region().unwrap();
    let gamma = nodes
        .add_gamma(
            vec![Link { node: selector, port: 0 }, Link { node: selector, port: 1 }],
            RegionList::from_slice(&[region_1, region_2]),
        )
        .unwrap();

    let mut text = String::new();

    Dot::new().write(&mut text, &nodes, &[gamma]);

    let plain = |id: usize, name: &str| {
        format!("{id} [label = <<TABLE CELLSPACING=\"0\"><TR><TD>{name}</TD></TR></TABLE>>];\n")
    };
    let expected = [
        "digraph {\n",
        "node [shape = plain, style = filled, fillcolor = \"#DDDDFF\"];\n",
        "style = filled;\n",
        "0 [label = <<TABLE BORDER=\"0\" CELLPADDING=\"0\" CELLSPACING=\"0\"><TR><TD>",
        "<TABLE CELLSPACING=\"0\"><TR><TD>1</TD></TR></TABLE></TD></TR>",
        "<TR><TD><TABLE CELLSPACING=\"0\"><TR><TD PORT=\"out0\">1</TD><TD PORT=\"out1\">2</TD></TR></TABLE></TD></TR>",
        "</TABLE>>];\n",
        "subgraph cluster_5 {\nsubgraph cluster_1 {\n",
        "}\n",
        "subgraph cluster_3 {\n",
        "}\n} // 5\n",
        "subgraph cluster_5 {\nfillcolor = \"#a1fc8f\";\nlabel = \"Gamma\";\n",
        "5 [label = <<TABLE BORDER=\"0\" CELLPADDING=\"0\" CELLSPACING=\"0\">",
        "<TR><TD><TABLE CELLSPACING=\"0\"><TR><TD PORT=\"in0\">1</TD><TD PORT=\"in1\">2</TD></TR></TABLE></TD></TR>",
        "<TR><TD><TABLE CELLSPACING=\"0\"><TR><TD>Gamma</TD></TR></TABLE></TD></TR></TABLE>>];\n",
        "0:out0:s -> 5:in0:n;\n0:out1:s -> 5:in1:n;\n",
        "subgraph cluster_1 {\nlabel = \"0\";\n",
        &plain(1, "Start"),
        &plain(2, "End"),
        "}\n",
        "subgraph cluster_3 {\nlabel = \"1\";\n",
        &plain(3, "Start"),
        &plain(4, "End"),
        "}\n",
        "}\n",
        "}\n",
    ]
    .concat();

    assert_eq!(text, expected);
}

#[test]
fn ports_are_counted_at_the_faces_of_a_region() {
    let mut nodes: Nodes<Payload<usize>> = Nodes::new();
    let x = nodes
        .add_simple(Payload { data: 0, parameters: Vec::new() })
        .unwrap();
    let (theta, region) = nodes
        .add_theta(vec![Link { node: x, port: 0 }, Link { node: x, port: 4 }])
        .unwrap();
    let reader = nodes
        .add_simple(Payload { data: 0, parameters: vec![Link { node: theta, port: 2 }] })
        .unwrap();

    assert_eq!(region_start_of(&nodes, theta), region.start);
    assert_eq!(region_end_of(&nodes, theta), region.end);
    assert_eq!(region_start_of(&nodes, x), x);
    assert_eq!(region_end_of(&nodes, region.start), region.start);

    let table = count_ports(&nodes);
    let label = |index: usize| {
        let mut text = String::new();

        table[index].write(&mut text, &0usize);

        text
    };
    let ports = |side: &str, count: usize| {
        (0..count)
            .map(|i| format!("<TD PORT=\"{side}{i}\">{}</TD>", i + 1))
            .collect::<String>()
    };
    let listed = |inward: usize, outward: usize| {
        let mut text = String::from(
            "[label = <<TABLE BORDER=\"0\" CELLPADDING=\"0\" CELLSPACING=\"0\">",
        );

        if inward > 1 {
            text += "<TR><TD><TABLE CELLSPACING=\"0\"><TR>";
            text += &ports("in", inward);
            text += "</TR></TABLE></TD></TR>";
        }

        text += "<TR><TD><TABLE CELLSPACING=\"0\"><TR><TD>0</TD></TR></TABLE></TD></TR>";

        if outward > 1 {
            text += "<TR><TD><TABLE CELLSPACING=\"0\"><TR>";
            text += &ports("out", outward);
            text += "</TR></TABLE></TD></TR>";
        }

        text += "</TABLE>>];\n";
        text
    };

    assert_eq!(table.len(), 5);
    assert_eq!(label(x.index()), listed(0, 5));
    assert_eq!(label(region.start.index()), listed(2, 0));
    assert_eq!(label(region.end.index()), listed(0, 3));
    assert_eq!(
        label(theta.index()),
        "[label = <<TABLE CELLSPACING=\"0\"><TR><TD>0</TD></TR></TABLE>>];\n"
    );
    assert_eq!(label(reader.index()), label(theta.index()));
}

#[test]
fn a_marker_is_owned_by_the_last_compound_that_claims_it() {
    let mut nodes: Nodes<Payload<usize>> = Nodes::new();
    let region_1 = nodes.add_region().unwrap();
    let region_2 = nodes.add_region().unwrap();
    let first = nodes
        .add_gamma(Vec::new(), RegionList::from_slice(&[region_1, region_2]))
        .unwrap();
    let second = nodes
        .add_gamma_unchecked(Vec::new(), RegionList::from_slice(&[region_1]))
        .unwrap();

    let mut owners = Owners::new();

    assert_eq!(owners.get(region_1.start), None);

    owners.load(&nodes);

    assert_eq!(owners.get(region_1.start), Some(second));
    assert_eq!(owners.get(region_1.end), Some(second));
    assert_eq!(owners.get(region_2.end), Some(first));
    assert_eq!(owners.get(region_2.start), None);
    assert_eq!(owners.get(first), None);

    nodes.remove_compound(second);
    owners.load(&nodes);

    assert_eq!(owners.get(region_2.end), Some(first));
    assert_eq!(owners.get(region_1.start), Some(first));
    assert_eq!(owners.get(region_1.end), None);
}
