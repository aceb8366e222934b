use regioned::data_flow::link::{Id, Link, Region};
use regioned::data_flow::node::{Compound, Kind, Marker, Node};
use regioned::data_flow::nodes::{Error, Nodes};
use regioned::data_flow::regions::RegionList;

#[test]
fn a_new_store_is_empty() {
    let nodes: Nodes<Option<Link>> = Nodes::new();

    assert_eq!(nodes.active(), 0);
    assert!(nodes.keys().is_empty());
    assert!(!nodes.contains(Id { index: 0, version: 0 }));
    assert!(nodes.get(Id { index: 0, version: 0 }).is_none());

    let roomy: Nodes<Option<Link>> = Nodes::with_capacity(16);

    assert_eq!(roomy.active(), 0);
}

#[test]
fn a_dead_key_reaches_nothing() {
    let mut nodes: Nodes<Option<Link>> = Nodes::new();
    let a = nodes.add_simple(None).unwrap();

    assert!(nodes.contains(a));
    assert!(matches!(nodes.remove(a), Some(Node::Simple(None))));
    assert!(!nodes.contains(a));
    assert!(nodes.get(a).is_none());
    assert!(nodes.get_mut(a).is_none());
    assert!(nodes.remove(a).is_none());
    assert_eq!(nodes.active(), 0);
}

#[test]
fn a_slot_is_reused_under_a_new_key() {
    let mut nodes: Nodes<Option<Link>> = Nodes::new();
    let a = nodes.add_simple(None).unwrap();
    let b = nodes.add_simple(None).unwrap();

    assert!(nodes.remove(a).is_some());

    let c = nodes.add_simple(Some(Link { node: b, port: 3 })).unwrap();

    assert_eq!(c.index(), a.index());
    assert_ne!(c, a);
    assert_eq!(c, Id { index: 0, version: 1 });
    assert!(!nodes.contains(a));
    assert!(nodes.contains(c));
    assert_eq!(nodes.keys(), vec![c, b]);
}

#[test]
fn active_is_one_past_the_largest_index() {
    let mut nodes: Nodes<Option<Link>> = Nodes::new();
    let a = nodes.add_simple(None).unwrap();
    let b = nodes.add_simple(None).unwrap();
    let c = nodes.add_simple(None).unwrap();

    assert_eq!(nodes.active(), 3);

    nodes.remove(b);

    assert_eq!(nodes.active(), 3);

    nodes.remove(c);

    assert_eq!(nodes.active(), 1);

    let before = nodes.active();
    let d = nodes.add_simple(None).unwrap();

    nodes.remove(d);

    assert_eq!(nodes.active(), before);
    assert!(nodes.contains(a));
}

#[test]
fn a_region_is_two_markers() {
    let mut nodes: Nodes<Option<Link>> = Nodes::new();
    let region = nodes.add_region().unwrap();

    assert_ne!(region.start, region.end);
    assert!(matches!(
        nodes.get(region.start),
        Some(Node::Marker(Marker::Start))
    ));

    match nodes.get(region.end) {
        Some(Node::Marker(Marker::End { parameters })) => assert!(parameters.is_empty()),
        _ => panic!("the end marker is missing"),
    }

    assert_eq!(nodes.active(), 2);
}

#[test]
fn a_theta_owns_its_region() {
    let mut nodes: Nodes<Option<Link>> = Nodes::new();
    let x = nodes.add_simple(None).unwrap();
    let (theta, region) = nodes.add_theta(vec![Link::from(x)]).unwrap();

    match nodes.get(theta) {
        Some(Node::Compound(compound)) => {
            assert!(matches!(compound, Compound::Theta { .. }));
            assert_eq!(compound.as_parameters(), &[Link { node: x, port: 0 }]);
            assert_eq!(compound.regions(), &[region]);
        }
        _ => panic!("the compound is missing"),
    }

    let (lambda, _) = nodes.add_lambda(Vec::new()).unwrap();
    let (phi, _) = nodes.add_phi(Vec::new()).unwrap();

    assert!(matches!(
        nodes.get(lambda),
        Some(Node::Compound(Compound::Lambda { .. }))
    ));
    assert!(matches!(
        nodes.get(phi),
        Some(Node::Compound(Compound::Phi { .. }))
    ));
}

#[test]
fn removing_a_compound_removes_its_markers() {
    let mut nodes: Nodes<Option<Link>> = Nodes::new();
    let other = nodes.add_simple(None).unwrap();
    let (theta, region) = nodes.add_theta(Vec::new()).unwrap();

    assert!(nodes.remove(theta).is_some());
    assert!(!nodes.contains(theta));
    assert!(!nodes.contains(region.start));
    assert!(!nodes.contains(region.end));
    assert!(nodes.contains(other));
    assert_eq!(nodes.keys(), vec![other]);

    let region_1 = nodes.add_region().unwrap();
    let region_2 = nodes.add_region().unwrap();
    let gamma = nodes
        .add_gamma(Vec::new(), RegionList::from_slice(&[region_1, region_2]))
        .unwrap();

    assert!(nodes.remove(gamma).is_some());
    assert_eq!(nodes.keys(), vec![other]);
}

#[test]
fn removing_a_marker_removes_only_the_marker() {
    let mut nodes: Nodes<Option<Link>> = Nodes::new();
    let region = nodes.add_region().unwrap();

    assert!(nodes.remove(region.start).is_some());
    assert!(nodes.contains(region.end));
}

#[test]
fn a_gamma_needs_branches_of_one_arity() {
    let mut nodes: Nodes<Option<Link>> = Nodes::new();
    let value = nodes.add_simple(None).unwrap();
    let region_1 = nodes.add_region().unwrap();
    let region_2 = nodes.add_region().unwrap();

    assert_eq!(
        nodes.add_gamma(Vec::new(), RegionList::from_slice(&[region_1])),
        Err(Error::ShapeViolation)
    );
    assert_eq!(
        nodes.add_gamma(Vec::new(), RegionList::from_slice(&[])),
        Err(Error::ShapeViolation)
    );

    let swapped = Region {
        start: region_2.end,
        end: region_2.start,
    };

    assert_eq!(
        nodes.add_gamma(Vec::new(), RegionList::from_slice(&[region_1, swapped])),
        Err(Error::ShapeViolation)
    );

    let dead = Region {
        start: Id { index: 90, version: 0 },
        end: Id { index: 91, version: 0 },
    };

    assert_eq!(
        nodes.add_gamma(Vec::new(), RegionList::from_slice(&[region_1, dead])),
        Err(Error::ShapeViolation)
    );

    nodes
        .get_mut(region_2.end)
        .unwrap()
        .as_marker_mut()
        .unwrap()
        .as_parameters_mut()
        .unwrap()
        .push(Link::from(value));

    let count = nodes.keys().len();

    assert_eq!(
        nodes.add_gamma(Vec::new(), RegionList::from_slice(&[region_1, region_2])),
        Err(Error::ShapeViolation)
    );
    assert_eq!(nodes.keys().len(), count);

    nodes
        .get_mut(region_1.end)
        .unwrap()
        .as_marker_mut()
        .unwrap()
        .as_parameters_mut()
        .unwrap()
        .push(Link::from(value));

    let gamma = nodes
        .add_gamma(
            vec![Link::from(value)],
            RegionList::from_slice(&[region_1, region_2]),
        )
        .unwrap();

    match nodes.get(gamma) {
        Some(Node::Compound(compound)) => {
            assert_eq!(compound.regions(), &[region_1, region_2]);
            assert_eq!(compound.as_parameters(), &[Link::from(value)]);
        }
        _ => panic!("the compound is missing"),
    }
}

#[test]
fn an_unchecked_gamma_takes_any_regions() {
    let mut nodes: Nodes<Option<Link>> = Nodes::new();
    let region = nodes.add_region().unwrap();

    assert!(nodes
        .add_gamma_unchecked(Vec::new(), RegionList::from_slice(&[region]))
        .is_ok());
}

#[test]
fn only_three_kinds_get_a_region_of_their_own() {
    let mut nodes: Nodes<Option<Link>> = Nodes::new();

    assert_eq!(
        nodes.add_compound(Kind::Gamma, Vec::new()),
        Err(Error::ShapeViolation)
    );
    assert_eq!(
        nodes.add_compound(Kind::Start, Vec::new()),
        Err(Error::ShapeViolation)
    );
    assert!(nodes.keys().is_empty());

    let (id, region) = nodes.add_compound(Kind::Lambda, Vec::new()).unwrap();

    assert_eq!(nodes.keys(), vec![region.start, region.end, id]);
}

#[test]
fn clear_drops_everything() {
    let mut nodes: Nodes<Option<Link>> = Nodes::new();
    let a = nodes.add_simple(None).unwrap();
    let _ = nodes.add_theta(Vec::new()).unwrap();

    nodes.clear();

    assert_eq!(nodes.active(), 0);
    assert!(nodes.keys().is_empty());
    assert!(!nodes.contains(a));
}

#[test]
fn retain_seen_keeps_the_marked_indices() {
    let mut nodes: Nodes<Option<Link>> = Nodes::new();
    let a = nodes.add_simple(None).unwrap();
    let b = nodes.add_simple(None).unwrap();
    let c = nodes.add_simple(None).unwrap();

    nodes.retain_seen(&[true, false]);

    assert!(nodes.contains(a));
    assert!(!nodes.contains(b));
    assert!(!nodes.contains(c));
}

#[test]
fn nodes_hand_out_their_arms() {
    let mut simple: Node<Option<Link>> = Node::Simple(None);
    let mut marker: Node<Option<Link>> = Node::Marker(Marker::Start);

    assert!(simple.as_simple().is_some());
    assert!(simple.as_simple_mut().is_some());
    assert!(simple.as_marker().is_none());
    assert!(simple.as_compound().is_none());
    assert!(marker.as_marker().is_some());
    assert!(marker.as_marker_mut().is_some());
    assert!(marker.as_simple().is_none());
    assert!(marker.as_compound_mut().is_none());
    assert!(marker.parameters().is_empty());
    assert!(marker.as_parameters().is_none());
    assert!(marker.as_parameters_mut().is_none());
    assert!(marker.parameters_mut().is_empty());
    assert!(simple.as_parameters().is_none());

    let mut listed: Node<Vec<Link>> = Node::Simple(vec![Link::default()]);

    assert_eq!(listed.parameters(), &[Link::default()]);
    assert_eq!(listed.as_parameters(), Some(&[Link::default()][..]));

    listed.as_parameters_mut().unwrap().push(Link {
        node: Id { index: 4, version: 2 },
        port: 9,
    });

    assert_eq!(listed.parameters().len(), 2);

    listed.parameters_mut()[0].port = 5;

    assert_eq!(listed.parameters()[0].port, 5);

    let mut one: Node<Option<Link>> = Node::Simple(Some(Link::default()));

    one.parameters_mut()[0].port = 8;

    assert_eq!(one.parameters(), &[Link { node: Id::default(), port: 8 }]);
}

#[test]
fn a_link_lists_the_ports_that_follow() {
    let node = Id { index: 3, version: 1 };
    let links = Link { node, port: 65533 }.iter();

    assert_eq!(
        links,
        vec![
            Link { node, port: 65533 },
            Link { node, port: 65534 },
            Link { node, port: 65535 },
        ]
    );
    assert_eq!(Link::from(node).iter().len(), 65536);
    assert_eq!(Link::from(node), Link { node, port: 0 });
    assert_eq!(Region::default().start, Id::default());
}

#[test]
fn a_store_with_a_dangling_link_is_not_closed() {
    let mut nodes: Nodes<Option<Link>> = Nodes::new();
    let a = nodes.add_simple(None).unwrap();
    let b = nodes.add_simple(Some(Link::from(a))).unwrap();

    assert!(nodes.is_closed());

    nodes.remove(a);

    assert!(!nodes.is_closed());

    nodes.remove(b);

    assert!(nodes.is_closed());

    let region = nodes.add_region().unwrap();
    let lost = Region {
        start: region.start,
        end: Id { index: 40, version: 0 },
    };

    assert!(nodes
        .add_gamma_unchecked(Vec::new(), RegionList::from_slice(&[region, lost]))
        .is_ok());
    assert!(!nodes.is_closed());
}

#[test]
fn regions_of_new_compounds_share_no_marker() {
    let mut nodes: Nodes<Option<Link>> = Nodes::new();
    let (_, first) = nodes.add_theta(Vec::new()).unwrap();
    let (_, second) = nodes.add_phi(Vec::new()).unwrap();

    let mut markers = vec![first.start, first.end, second.start, second.end];

    markers.sort();
    markers.dedup();

    assert_eq!(markers.len(), 4);
}

#[test]
fn defaults_are_empty() {
    let nodes: Nodes<Option<Link>> = Default::default();

    assert_eq!(nodes.active(), 0);
    assert_eq!(Id::default(), Id { index: 0, version: 0 });
    assert_eq!(Link::default(), Link { node: Id::default(), port: 0 });
}

#[test]
fn a_region_can_be_removed_by_itself() {
    let mut nodes: Nodes<Option<Link>> = Nodes::new();
    let keep = nodes.add_simple(None).unwrap();
    let region = nodes.add_region().unwrap();

    nodes.remove_region(region);

    assert_eq!(nodes.keys(), vec![keep]);

    nodes.remove_region(region);

    assert_eq!(nodes.keys(), vec![keep]);
}

#[test]
fn only_a_compound_is_removed_as_a_compound() {
    let mut nodes: Nodes<Option<Link>> = Nodes::new();
    let simple = nodes.add_simple(None).unwrap();
    let (phi, region) = nodes.add_phi(Vec::new()).unwrap();

    assert!(nodes.remove_compound(simple).is_none());
    assert!(nodes.remove_compound(region.start).is_none());
    assert!(nodes.contains(simple));
    assert!(nodes.contains(region.start));
    assert!(matches!(
        nodes.remove_compound(phi),
        Some(Compound::Phi { .. })
    ));
    assert_eq!(nodes.keys(), vec![simple]);
    assert!(nodes.remove_compound(phi).is_none());
}

#[test]
fn a_key_is_found_by_its_index() {
    let mut nodes: Nodes<Option<Link>> = Nodes::new();
    let a = nodes.add_simple(None).unwrap();
    let b = nodes.add_simple(None).unwrap();

    nodes.remove(a);

    let c = nodes.add_simple(None).unwrap();

    nodes.remove(b);

    assert_eq!(nodes.key_at(0), Some(c));
    assert_eq!(nodes.key_at(1), None);
    assert_eq!(nodes.key_at(2), None);
}

#[test]
fn a_link_to_a_dead_node_is_refused_at_construction() {
    let mut nodes: Nodes<Option<Link>> = Nodes::new();
    let gone = nodes.add_simple(None).unwrap();
    let kept = nodes.add_simple(None).unwrap();
    let region_1 = nodes.add_region().unwrap();
    let region_2 = nodes.add_region().unwrap();

    nodes.remove(gone);

    let before = nodes.keys();
    let active = nodes.active();
    let dead = Link { node: gone, port: 0 };
    let never = Link { node: Id { index: 77, version: 0 }, port: 0 };
    let live = Link { node: kept, port: 0 };

    assert_eq!(nodes.add_simple(Some(dead)), Err(Error::ShapeViolation));
    assert_eq!(nodes.add_simple(Some(never)), Err(Error::ShapeViolation));
    assert_eq!(nodes.add_theta(vec![live, dead]), Err(Error::ShapeViolation));
    assert_eq!(nodes.add_lambda(vec![dead]), Err(Error::ShapeViolation));
    assert_eq!(nodes.add_phi(vec![never, live]), Err(Error::ShapeViolation));
    assert_eq!(
        nodes.add_compound(Kind::Theta, vec![dead]),
        Err(Error::ShapeViolation)
    );
    assert_eq!(
        nodes.add_gamma(vec![live, dead], RegionList::from_slice(&[region_1, region_2])),
        Err(Error::ShapeViolation)
    );
    assert_eq!(nodes.keys(), before);
    assert_eq!(nodes.active(), active);
    assert!(nodes.is_closed());

    assert!(nodes.add_simple(Some(live)).is_ok());
    assert!(nodes.add_theta(vec![live]).is_ok());
    assert!(nodes
        .add_gamma(vec![live], RegionList::from_slice(&[region_1, region_2]))
        .is_ok());
    assert!(nodes.is_closed());
}

#[test]
fn unchecked_constructors_take_any_link() {
    let mut nodes: Nodes<Option<Link>> = Nodes::new();
    let never = Link { node: Id { index: 77, version: 0 }, port: 0 };

    assert!(nodes.add_simple_unchecked(Some(never)).is_ok());
    assert!(nodes.add_theta_unchecked(vec![never]).is_ok());
    assert!(nodes.add_lambda_unchecked(vec![never]).is_ok());
    assert!(nodes.add_phi_unchecked(vec![never]).is_ok());
    assert!(nodes
        .add_compound_unchecked(Kind::Phi, vec![never])
        .is_ok());
    assert_eq!(
        nodes.add_compound_unchecked(Kind::Gamma, Vec::new()),
        Err(Error::ShapeViolation)
    );
    assert!(!nodes.is_closed());
    assert_eq!(nodes.keys().len(), 13);
}

#[test]
fn a_cloned_node_holds_the_same_links_and_regions() {
    let mut nodes: Nodes<Option<Link>> = Nodes::new();
    let value = nodes.add_simple(None).unwrap();
    let region_1 = nodes.add_region().unwrap();
    let region_2 = nodes.add_region().unwrap();
    let gamma = nodes
        .add_gamma(
            vec![Link::from(value)],
            RegionList::from_slice(&[region_1, region_2]),
        )
        .unwrap();

    let copy = nodes.get(gamma).unwrap().clone();

    match copy {
        Node::Compound(compound) => {
            assert_eq!(compound.regions(), &[region_1, region_2]);
            assert_eq!(compound.as_parameters(), &[Link::from(value)]);
            assert!(format!("{compound:?}").contains("Gamma"));
        }
        _ => panic!("the copy is no compound"),
    }

    let three = RegionList::from_slice(&[region_1, region_2, region_1]).clone();

    assert_eq!(three.as_slice(), &[region_1, region_2, region_1]);
}
