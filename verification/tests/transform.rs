use regioned::data_flow::link::{Id, Link};
use regioned::data_flow::node::{Marker, Node};
use regioned::data_flow::nodes::Nodes;
use regioned::data_flow::regions::RegionList;
use regioned::transform::mark_and_sweep::MarkAndSweep;
use regioned::transform::relax_dependencies::RelaxDependencies;
use regioned::transform::retain_only::run;
use regioned::transform::revise::{redo_ports, redo_ports_in_place, single};
use regioned::visit::reverse_topological::ReverseTopological;
use regioned::visit::successors::Successors;

fn link(node: Id, port: u16) -> Link {
    Link { node, port }
}

fn set_results(nodes: &mut Nodes<Vec<Link>>, end: Id, links: &[Link]) {
    let list = nodes
        .get_mut(end)
        .unwrap()
        .as_parameters_mut()
        .unwrap();

    list.clear();
    list.extend_from_slice(links);
}

fn links_of(nodes: &Nodes<Vec<Link>>, id: Id) -> Vec<Link> {
    nodes.get(id).unwrap().parameters().to_vec()
}

#[test]
fn sweeping_keeps_what_the_roots_reach() {
    let mut nodes: Nodes<Vec<Link>> = Nodes::new();
    let a = nodes.add_simple(Vec::new()).unwrap();
    let b = nodes.add_simple(vec![link(a, 0)]).unwrap();
    let c = nodes.add_simple(vec![link(b, 0)]).unwrap();

    let mut topological = ReverseTopological::new();

    run(&mut nodes, &[b], &mut topological);

    assert_eq!(nodes.keys(), vec![a, b]);
    assert!(!nodes.contains(c));
    assert_eq!(topological.seen(), &[true, true, false]);
}

#[test]
fn sweeping_twice_changes_nothing_more() {
    let mut nodes: Nodes<Vec<Link>> = Nodes::new();
    let a = nodes.add_simple(Vec::new()).unwrap();
    let b = nodes.add_simple(vec![link(a, 0)]).unwrap();
    let _ = nodes.add_simple(vec![link(b, 0)]).unwrap();
    let (theta, region) = nodes.add_theta(vec![link(b, 0)]).unwrap();
    let _ = nodes.add_lambda(Vec::new()).unwrap();

    let mut pass = MarkAndSweep::new();

    pass.run(&mut nodes, &[theta]);

    let once = nodes.keys();

    assert_eq!(once, vec![a, b, region.start, region.end, theta]);

    pass.run(&mut nodes, &[theta]);

    assert_eq!(nodes.keys(), once);
    assert_eq!(pass.seen().iter().filter(|seen| **seen).count(), 5);
}

#[test]
fn redirecting_in_place_moves_both_readers() {
    let mut nodes: Nodes<Vec<Link>> = Nodes::new();
    let a = nodes.add_simple(Vec::new()).unwrap();
    let other = nodes.add_simple(Vec::new()).unwrap();
    let b = nodes.add_simple(vec![link(a, 0)]).unwrap();
    let c = nodes.add_simple(vec![link(a, 1)]).unwrap();
    let d = nodes.add_simple(vec![link(b, 0), link(c, 0)]).unwrap();

    let mut topological = ReverseTopological::new();
    let mut successors = Successors::new();

    successors.run(&nodes, &[d], &mut topological);

    assert_eq!(redo_ports_in_place(&mut nodes, &successors, a, other), 2);
    assert_eq!(links_of(&nodes, b), vec![link(other, 0)]);
    assert_eq!(links_of(&nodes, c), vec![link(other, 1)]);
    assert_eq!(links_of(&nodes, d), vec![link(b, 0), link(c, 0)]);
    assert_eq!(topological.iter(&nodes, &[d]), vec![other, b, c, d]);

    successors.run(&nodes, &[d], &mut topological);

    assert_eq!(successors.cache()[other.index()].as_slice(), &[b, c]);
    assert!(successors.cache()[a.index()].as_slice().is_empty());
}

#[test]
fn redirecting_a_node_to_itself_changes_no_link() {
    let mut nodes: Nodes<Vec<Link>> = Nodes::new();
    let a = nodes.add_simple(Vec::new()).unwrap();
    let b = nodes.add_simple(vec![link(a, 0), link(a, 4)]).unwrap();

    let mut topological = ReverseTopological::new();
    let mut successors = Successors::new();

    successors.run(&nodes, &[b], &mut topological);

    assert_eq!(redo_ports_in_place(&mut nodes, &successors, a, a), 2);
    assert_eq!(links_of(&nodes, b), vec![link(a, 0), link(a, 4)]);
}

#[test]
fn redirecting_replaces_only_what_the_function_answers() {
    let mut nodes: Nodes<Vec<Link>> = Nodes::new();
    let a = nodes.add_simple(Vec::new()).unwrap();
    let x = nodes.add_simple(Vec::new()).unwrap();
    let b = nodes
        .add_simple(vec![link(a, 0), link(a, 1), link(x, 0), link(a, 0)])
        .unwrap();

    let mut topological = ReverseTopological::new();
    let mut successors = Successors::new();

    successors.run(&nodes, &[b], &mut topological);

    let applied = redo_ports(&mut nodes, &successors, a, |port| {
        if port == 0 {
            Some(link(x, 7))
        } else {
            None
        }
    });

    assert_eq!(applied, 2);
    assert_eq!(
        links_of(&nodes, b),
        vec![link(x, 7), link(a, 1), link(x, 0), link(x, 7)]
    );
}

#[test]
fn redirecting_without_a_cache_entry_does_nothing() {
    let mut nodes: Nodes<Vec<Link>> = Nodes::new();
    let a = nodes.add_simple(Vec::new()).unwrap();
    let b = nodes.add_simple(vec![link(a, 0)]).unwrap();
    let successors = Successors::new();

    assert_eq!(redo_ports_in_place(&mut nodes, &successors, a, b), 0);
    assert_eq!(links_of(&nodes, b), vec![link(a, 0)]);
}

#[test]
fn a_gamma_output_that_every_branch_passes_through_is_relaxed() {
    let mut nodes: Nodes<Vec<Link>> = Nodes::new();
    let left = nodes.add_simple(Vec::new()).unwrap();
    let right = nodes.add_simple(Vec::new()).unwrap();
    let selector = nodes.add_simple(Vec::new()).unwrap();

    let region_1 = nodes.add_region().unwrap();
    let region_2 = nodes.add_region().unwrap();
    let computed = nodes.add_simple(vec![link(region_2.start, 1)]).unwrap();

    set_results(
        &mut nodes,
        region_1.end,
        &[link(region_1.start, 0), link(region_1.start, 1)],
    );
    set_results(
        &mut nodes,
        region_2.end,
        &[link(region_2.start, 0), link(computed, 0)],
    );

    let gamma = nodes
        .add_gamma(
            vec![link(left, 0), link(right, 0), link(selector, 0)],
            RegionList::from_slice(&[region_1, region_2]),
        )
        .unwrap();

    let user_0 = nodes.add_simple(vec![link(gamma, 0)]).unwrap();
    let user_1 = nodes.add_simple(vec![link(gamma, 1)]).unwrap();

    let mut topological = ReverseTopological::new();
    let mut successors = Successors::new();
    let mut relax = RelaxDependencies::new();

    successors.run(&nodes, &[user_0, user_1], &mut topological);

    assert_eq!(relax.run(&mut nodes, gamma, &successors), Some(1));
    assert_eq!(relax.maps(), &[Some(link(left, 0)), None]);
    assert_eq!(links_of(&nodes, user_0), vec![link(left, 0)]);
    assert_eq!(links_of(&nodes, user_1), vec![link(gamma, 1)]);

    successors.run(&nodes, &[user_0, user_1], &mut topological);

    assert_eq!(relax.run(&mut nodes, gamma, &successors), Some(0));
    assert_eq!(links_of(&nodes, user_0), vec![link(left, 0)]);
}

#[test]
fn a_theta_output_that_the_body_leaves_alone_is_relaxed() {
    let mut nodes: Nodes<Vec<Link>> = Nodes::new();
    let x = nodes.add_simple(Vec::new()).unwrap();
    let y = nodes.add_simple(Vec::new()).unwrap();
    let cond = nodes.add_simple(Vec::new()).unwrap();

    let (theta, region) = nodes
        .add_theta(vec![link(x, 0), link(y, 0), link(cond, 0)])
        .unwrap();
    let computed = nodes.add_simple(vec![link(region.start, 1)]).unwrap();
    let predicate = nodes.add_simple(vec![link(region.start, 2)]).unwrap();

    set_results(
        &mut nodes,
        region.end,
        &[link(region.start, 0), link(computed, 0), link(predicate, 0)],
    );

    let reader = nodes
        .add_simple(vec![link(theta, 0), link(theta, 1)])
        .unwrap();
    let lone = nodes.add_simple(vec![link(theta, 0)]).unwrap();

    let mut topological = ReverseTopological::new();
    let mut successors = Successors::new();
    let mut relax = RelaxDependencies::new();

    successors.run(&nodes, &[reader, lone], &mut topological);

    assert_eq!(relax.run(&mut nodes, theta, &successors), Some(2));
    assert_eq!(relax.maps(), &[Some(link(x, 0)), None, None]);
    assert_eq!(links_of(&nodes, reader), vec![link(x, 0), link(theta, 1)]);
    assert_eq!(links_of(&nodes, lone), vec![link(x, 0)]);

    run(&mut nodes, &[lone], &mut topological);

    assert_eq!(nodes.keys(), vec![x, lone]);
}

#[test]
fn a_theta_result_read_from_another_port_is_not_invariant() {
    let mut nodes: Nodes<Vec<Link>> = Nodes::new();
    let x = nodes.add_simple(Vec::new()).unwrap();
    let y = nodes.add_simple(Vec::new()).unwrap();

    let (theta, region) = nodes.add_theta(vec![link(x, 0), link(y, 0)]).unwrap();

    set_results(
        &mut nodes,
        region.end,
        &[link(region.start, 1), link(region.start, 1), link(region.start, 2)],
    );

    let successors = Successors::new();
    let mut relax = RelaxDependencies::new();

    assert_eq!(relax.run(&mut nodes, theta, &successors), Some(0));
    assert_eq!(relax.maps(), &[None, Some(link(y, 0)), None]);
}

#[test]
fn other_nodes_are_not_relaxed() {
    let mut nodes: Nodes<Vec<Link>> = Nodes::new();
    let simple = nodes.add_simple(Vec::new()).unwrap();
    let (lambda, region) = nodes.add_lambda(Vec::new()).unwrap();
    let (phi, _) = nodes.add_phi(Vec::new()).unwrap();

    let successors = Successors::new();
    let mut relax = RelaxDependencies::new();

    assert_eq!(relax.run(&mut nodes, simple, &successors), None);
    assert_eq!(relax.run(&mut nodes, lambda, &successors), None);
    assert_eq!(relax.run(&mut nodes, phi, &successors), None);
    assert_eq!(relax.run(&mut nodes, region.start, &successors), None);
    assert_eq!(
        relax.run(&mut nodes, Id { index: 50, version: 0 }, &successors),
        None
    );
    assert!(matches!(
        nodes.get(region.start),
        Some(Node::Marker(Marker::Start))
    ));
}

#[test]
fn a_gamma_with_a_shorter_branch_compares_what_it_has() {
    let mut nodes: Nodes<Vec<Link>> = Nodes::new();
    let left = nodes.add_simple(Vec::new()).unwrap();
    let right = nodes.add_simple(Vec::new()).unwrap();

    let region_1 = nodes.add_region().unwrap();
    let region_2 = nodes.add_region().unwrap();

    set_results(
        &mut nodes,
        region_1.end,
        &[link(region_1.start, 1), link(region_1.start, 0), link(region_1.start, 9)],
    );
    set_results(&mut nodes, region_2.end, &[link(region_2.start, 1)]);

    let gamma = nodes
        .add_gamma_unchecked(
            vec![link(left, 0), link(right, 0)],
            RegionList::from_slice(&[region_1, region_2]),
        )
        .unwrap();

    let successors = Successors::new();
    let mut relax = RelaxDependencies::new();

    assert_eq!(relax.run(&mut nodes, gamma, &successors), Some(0));
    assert_eq!(relax.maps(), &[Some(link(right, 0)), Some(link(left, 0)), None]);
}

#[test]
fn a_rule_that_matches_replaces_the_node() {
    let mut nodes: Nodes<Vec<Link>> = Nodes::new();
    let a = nodes.add_simple(Vec::new()).unwrap();
    let b = nodes.add_simple(vec![link(a, 0), link(a, 1)]).unwrap();

    let old = single(
        |nodes: &Nodes<Vec<Link>>, id| {
            let count = nodes.get(id)?.parameters().len();

            if count == 2 {
                Some(count)
            } else {
                None
            }
        },
        |_: &Nodes<Vec<Link>>, _, count| Node::Simple(vec![link(a, 9); count + 1]),
        &mut nodes,
        b,
    );

    assert!(matches!(old, Some(Node::Simple(links)) if links == vec![link(a, 0), link(a, 1)]));
    assert_eq!(links_of(&nodes, b), vec![link(a, 9), link(a, 9), link(a, 9)]);

    let again = single(
        |_: &Nodes<Vec<Link>>, _| None::<usize>,
        |_: &Nodes<Vec<Link>>, _, _| Node::Marker(Marker::Start),
        &mut nodes,
        b,
    );

    assert!(again.is_none());
    assert_eq!(links_of(&nodes, b).len(), 3);

    let dead = single(
        |_: &Nodes<Vec<Link>>, _| Some(1usize),
        |_: &Nodes<Vec<Link>>, _, _| Node::Marker(Marker::Start),
        &mut nodes,
        Id { index: 70, version: 0 },
    );

    assert!(dead.is_none());
}

#[test]
fn relaxing_again_after_a_sweep_replaces_nothing() {
    let mut nodes: Nodes<Vec<Link>> = Nodes::new();
    let x = nodes.add_simple(Vec::new()).unwrap();
    let cond = nodes.add_simple(Vec::new()).unwrap();

    let (theta, region) = nodes.add_theta(vec![link(x, 0), link(cond, 0)]).unwrap();
    let predicate = nodes.add_simple(vec![link(region.start, 1)]).unwrap();

    set_results(
        &mut nodes,
        region.end,
        &[link(region.start, 0), link(predicate, 0)],
    );

    let reader = nodes
        .add_simple(vec![link(theta, 0), link(theta, 1)])
        .unwrap();
    let stray = nodes.add_simple(vec![link(theta, 0)]).unwrap();

    let mut topological = ReverseTopological::new();
    let mut successors = Successors::new();
    let mut relax = RelaxDependencies::new();

    successors.run(&nodes, &[reader], &mut topological);

    assert_eq!(relax.run(&mut nodes, theta, &successors), Some(1));
    assert_eq!(links_of(&nodes, reader), vec![link(x, 0), link(theta, 1)]);
    assert_eq!(links_of(&nodes, stray), vec![link(theta, 0)]);

    run(&mut nodes, &[reader], &mut topological);

    assert!(!nodes.contains(stray));

    successors.run(&nodes, &[reader], &mut topological);

    assert_eq!(relax.run(&mut nodes, theta, &successors), Some(0));
    assert_eq!(links_of(&nodes, reader), vec![link(x, 0), link(theta, 1)]);
    assert!(nodes.is_closed());
}

#[test]
fn a_sweep_leaves_nothing_dangling() {
    let mut nodes: Nodes<Vec<Link>> = Nodes::new();
    let a = nodes.add_simple(Vec::new()).unwrap();
    let b = nodes.add_simple(vec![link(a, 0)]).unwrap();
    let c = nodes.add_simple(vec![link(b, 0)]).unwrap();

    assert!(nodes.is_closed());

    let mut topological = ReverseTopological::new();

    run(&mut nodes, &[b], &mut topological);

    assert!(nodes.is_closed());
    assert!(!nodes.contains(c));
}
