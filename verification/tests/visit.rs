use regioned::data_flow::link::{Id, Link};
use regioned::data_flow::node::Kind;
use regioned::data_flow::nodes::Nodes;
use regioned::data_flow::regions::RegionList;
use regioned::visit::depth_first_searcher::DepthFirstSearcher;
use regioned::visit::events::Event;
use regioned::visit::post_order::PostOrder;
use regioned::visit::pre_order_mut::PreOrderMut;
use regioned::visit::reverse_topological::ReverseTopological;
use regioned::visit::successors::{SuccessorFinder, Successors};

fn push_result(nodes: &mut Nodes<Option<Link>>, end: Id, link: Link) {
    nodes
        .get_mut(end)
        .unwrap()
        .as_marker_mut()
        .unwrap()
        .as_parameters_mut()
        .unwrap()
        .push(link);
}

#[test]
fn reverse_topological_test_is_in_order() {
    let mut nodes: Nodes<Option<Link>> = Nodes::new();

    let region_1 = nodes.add_region().unwrap();
    let value_1 = nodes.add_simple(Some(region_1.start.into())).unwrap();
    let value_2 = nodes.add_simple(Some(value_1.into())).unwrap();

    push_result(&mut nodes, region_1.end, value_2.into());

    let region_2 = nodes.add_region().unwrap();
    let value_3 = nodes.add_simple(Some(region_2.start.into())).unwrap();
    let value_4 = nodes.add_simple(Some(region_2.start.into())).unwrap();

    push_result(&mut nodes, region_2.end, Link::from(value_3));
    push_result(&mut nodes, region_2.end, Link::from(value_4));

    let value_5 = nodes.add_simple(None).unwrap();
    let gamma = nodes
        .add_gamma_unchecked(Vec::new(), RegionList::from_slice(&[region_1, region_2]))
        .unwrap();

    let mut counter = 0;
    let mut expected = vec![0; nodes.active()];

    expected[region_1.start.index()] = 1;
    expected[value_1.index()] = 2;
    expected[value_2.index()] = 3;
    expected[region_1.end.index()] = 4;

    expected[region_2.start.index()] = 5;
    expected[value_3.index()] = 6;
    expected[value_4.index()] = 7;
    expected[region_2.end.index()] = 8;

    expected[gamma.index()] = 9;
    expected[value_5.index()] = 10;

    for id in ReverseTopological::new().iter(&nodes, &[gamma, value_5]) {
        counter += 1;

        assert_eq!(expected[id.index()], counter, "Node {id:?} was not in order");
    }

    assert_eq!(counter, 10);
}

#[test]
fn linear_chain_is_emitted_leaves_first() {
    let mut nodes: Nodes<Option<Link>> = Nodes::new();
    let a = nodes.add_simple(None).unwrap();
    let b = nodes.add_simple(Some(Link { node: a, port: 0 })).unwrap();
    let c = nodes.add_simple(Some(Link { node: b, port: 0 })).unwrap();

    let mut topological = ReverseTopological::new();

    assert_eq!(topological.iter(&nodes, &[c]), vec![a, b, c]);
    assert_eq!(topological.seen(), &[true, true, true]);
    assert_eq!(topological.iter(&nodes, &[b]), vec![a, b]);
    assert_eq!(topological.seen(), &[true, true, false]);
}

#[test]
fn empty_roots_yield_nothing() {
    let mut nodes: Nodes<Option<Link>> = Nodes::new();
    let _ = nodes.add_simple(None).unwrap();

    let mut topological = ReverseTopological::new();

    assert_eq!(topological.iter(&nodes, &[]), Vec::<Id>::new());
    assert_eq!(topological.seen(), &[false]);
}

#[test]
fn dead_roots_and_dead_links_are_passed_over() {
    let mut nodes: Nodes<Option<Link>> = Nodes::new();
    let a = nodes.add_simple(None).unwrap();
    let b = nodes.add_simple(Some(Link { node: a, port: 0 })).unwrap();

    assert!(nodes.remove(a).is_some());

    let stranger = Id { index: 7, version: 0 };
    let mut topological = ReverseTopological::new();

    assert_eq!(topological.iter(&nodes, &[a, stranger, b, b]), vec![b]);
}

#[test]
fn a_root_that_another_root_reads_comes_first() {
    let mut nodes: Nodes<Option<Link>> = Nodes::new();
    let a = nodes.add_simple(None).unwrap();
    let c = nodes.add_simple(Some(Link { node: a, port: 0 })).unwrap();

    let mut topological = ReverseTopological::new();

    assert_eq!(topological.iter(&nodes, &[c, a]), vec![a, c]);
}

#[test]
fn pulling_one_by_one_gives_the_same_order() {
    let mut nodes: Nodes<Option<Link>> = Nodes::new();
    let a = nodes.add_simple(None).unwrap();
    let b = nodes.add_simple(Some(Link { node: a, port: 0 })).unwrap();

    let mut topological = ReverseTopological::new();

    topological.set_up_roots(&nodes, &[b]);

    assert_eq!(topological.next_in(&nodes), Some(a));
    assert_eq!(topological.next_in(&nodes), Some(b));
    assert_eq!(topological.next_in(&nodes), None);
    assert_eq!(topological.next_in(&nodes), None);
}

#[test]
fn nested_regions_come_out_inside_first() {
    let mut nodes: Nodes<Option<Link>> = Nodes::new();

    let outer_1 = nodes.add_region().unwrap();
    let (theta, inner) = nodes.add_theta(Vec::new()).unwrap();
    let payload = nodes.add_simple(Some(inner.start.into())).unwrap();

    push_result(&mut nodes, inner.end, payload.into());
    push_result(&mut nodes, outer_1.end, theta.into());

    let outer_2 = nodes.add_region().unwrap();
    let gamma = nodes
        .add_gamma_unchecked(Vec::new(), RegionList::from_slice(&[outer_1, outer_2]))
        .unwrap();

    let mut topological = ReverseTopological::new();
    let order = topological.iter(&nodes, &[gamma]);

    assert_eq!(
        order,
        vec![
            outer_1.start,
            inner.start,
            payload,
            inner.end,
            theta,
            outer_1.end,
            outer_2.start,
            outer_2.end,
            gamma,
        ]
    );
}

#[test]
fn successors_are_cached_once_per_reader() {
    let mut nodes: Nodes<Vec<Link>> = Nodes::new();
    let a = nodes.add_simple(Vec::new()).unwrap();
    let b = nodes
        .add_simple(vec![Link { node: a, port: 0 }, Link { node: a, port: 1 }])
        .unwrap();
    let c = nodes.add_simple(vec![Link { node: a, port: 0 }]).unwrap();
    let d = nodes
        .add_simple(vec![Link { node: b, port: 0 }, Link { node: c, port: 0 }])
        .unwrap();
    let unreached = nodes.add_simple(vec![Link { node: a, port: 0 }]).unwrap();

    let mut topological = ReverseTopological::new();
    let mut successors = Successors::new();

    successors.run(&nodes, &[d], &mut topological);

    let cache = successors.cache();

    assert_eq!(cache.len(), 5);
    assert_eq!(cache[a.index()].as_slice(), &[b, c]);
    assert_eq!(cache[b.index()].as_slice(), &[d]);
    assert_eq!(cache[c.index()].as_slice(), &[d]);
    assert!(cache[d.index()].as_slice().is_empty());
    assert!(cache[unreached.index()].as_slice().is_empty());
    assert!(cache[a.index()].contains(c));
    assert!(!cache[a.index()].contains(unreached));

    successors.run(&nodes, &[c], &mut topological);

    assert_eq!(successors.cache()[a.index()].as_slice(), &[c]);
    assert!(successors.cache()[b.index()].as_slice().is_empty());

    successors.clear();

    assert!(successors.cache().is_empty());
}

#[test]
fn a_compound_rejects_what_is_not_one() {
    let mut nodes: Nodes<Option<Link>> = Nodes::new();

    assert!(nodes.add_compound(Kind::Gamma, Vec::new()).is_err());
    assert!(nodes.add_compound(Kind::Simple, Vec::new()).is_err());
    assert!(nodes.add_compound(Kind::Phi, Vec::new()).is_ok());
}

#[test]
fn nothing_is_emitted_that_the_roots_do_not_reach() {
    let mut nodes: Nodes<Option<Link>> = Nodes::new();
    let a = nodes.add_simple(None).unwrap();
    let b = nodes.add_simple(Some(Link::from(a))).unwrap();
    let c = nodes.add_simple(Some(Link::from(a))).unwrap();
    let d = nodes.add_simple(None).unwrap();

    let mut topological = ReverseTopological::default();
    let order = topological.iter(&nodes, &[b]);

    assert_eq!(order, vec![a, b]);
    assert!(!order.contains(&c));
    assert!(!order.contains(&d));
    assert_eq!(topological.seen(), &[true, true, false, false]);
}

#[test]
fn a_region_comes_out_start_then_end_then_owner() {
    let mut nodes: Nodes<Option<Link>> = Nodes::new();
    let (lambda, region) = nodes.add_lambda(Vec::new()).unwrap();
    let user = nodes.add_simple(Some(Link::from(lambda))).unwrap();

    let mut topological = ReverseTopological::new();

    assert_eq!(
        topological.iter(&nodes, &[user]),
        vec![region.start, region.end, lambda, user]
    );
}

#[test]
fn parameters_come_before_regions() {
    let mut nodes: Nodes<Option<Link>> = Nodes::new();
    let x = nodes.add_simple(None).unwrap();
    let y = nodes.add_simple(None).unwrap();
    let (theta, region) = nodes
        .add_theta(vec![Link::from(y), Link::from(x)])
        .unwrap();

    let mut topological = ReverseTopological::new();

    assert_eq!(
        topological.iter(&nodes, &[theta]),
        vec![y, x, region.start, region.end, theta]
    );
}

#[test]
fn depth_first_searcher_test_is_in_order() {
    let mut nodes: Nodes<Option<Link>> = Nodes::new();

    let node_0 = nodes.add_simple(None).unwrap();
    let node_1 = nodes.add_simple(Some(node_0.into())).unwrap();

    let node_2 = nodes.add_simple(None).unwrap();
    let node_3 = nodes.add_simple(None).unwrap();

    let node_4 = nodes.add_simple(None).unwrap();

    let region_1 = nodes.add_region().unwrap();
    let region_2 = nodes.add_region().unwrap();

    push_result(&mut nodes, region_1.end, node_1.into());
    push_result(&mut nodes, region_2.end, node_2.into());
    push_result(&mut nodes, region_2.end, node_3.into());

    let node_5 = nodes
        .add_gamma_unchecked(
            vec![node_4.into()],
            RegionList::from_slice(&[region_1, region_2]),
        )
        .unwrap();

    let mut real = vec![0; nodes.active()];
    let mut result = vec![0; nodes.active()];

    real[node_0.index()] = 3;
    real[node_1.index()] = 4;

    real[node_2.index()] = 5;
    real[node_3.index()] = 6;

    real[node_4.index()] = 1;
    real[node_5.index()] = 2;

    let mut searcher = DepthFirstSearcher::new();
    let mut counter = 0;

    let active = searcher.nodes_mut();

    active.clear();
    active.extend((0..nodes.active()).map(|_| true));

    for event in searcher.run(&nodes, node_5) {
        if let Event::PostNode { id } = event {
            println!("POST {id:?}");

            counter += 1;

            result[id.index()] = counter;
        }
    }

    assert_eq!(result, real);
}

#[test]
fn a_search_reports_nodes_and_regions_as_it_goes() {
    let mut nodes: Nodes<Option<Link>> = Nodes::new();
    let x = nodes.add_simple(None).unwrap();
    let (theta, region) = nodes.add_theta(vec![Link::from(x)]).unwrap();
    let inner = nodes.add_simple(Some(Link::from(region.start))).unwrap();

    push_result(&mut nodes, region.end, inner.into());
    push_result(&mut nodes, region.end, x.into());

    let mut searcher = DepthFirstSearcher::default();

    searcher.nodes_mut().extend([true; 5]);

    assert_eq!(
        searcher.run(&nodes, theta),
        vec![
            Event::PreNode { id: theta },
            Event::PreNode { id: x },
            Event::PostNode { id: x },
            Event::PostNode { id: theta },
            Event::PreRegion { id: theta, region: 0 },
            Event::PreNode { id: inner },
            Event::PreNode { id: region.start },
            Event::PostNode { id: region.start },
            Event::PostNode { id: inner },
            Event::PostRegion { id: theta, region: 0 },
        ]
    );
    assert_eq!(searcher.nodes(), &vec![false, false, true, false, false]);
    assert!(searcher.run(&nodes, theta).is_empty());
    assert!(searcher.run(&nodes, region.end).len() == 2);
}

#[test]
fn a_search_enters_only_open_nodes() {
    let mut nodes: Nodes<Option<Link>> = Nodes::new();
    let a = nodes.add_simple(None).unwrap();
    let b = nodes.add_simple(Some(Link::from(a))).unwrap();

    let mut searcher = DepthFirstSearcher::new();

    assert!(searcher.run(&nodes, b).is_empty());

    searcher.nodes_mut().extend([false, true]);

    assert_eq!(
        searcher.run(&nodes, b),
        vec![Event::PreNode { id: b }, Event::PostNode { id: b }]
    );

    searcher.nodes_mut()[0] = true;
    searcher.nodes_mut()[1] = true;
    nodes.remove(a);

    assert_eq!(
        searcher.run(&nodes, b),
        vec![Event::PreNode { id: b }, Event::PostNode { id: b }]
    );
    assert!(searcher.run(&nodes, a).is_empty());
    assert_eq!(searcher.nodes(), &vec![true, false]);
}

#[test]
fn a_depth_first_finder_caches_readers_in_order_of_arrival() {
    let mut nodes: Nodes<Vec<Link>> = Nodes::new();
    let a = nodes.add_simple(Vec::new()).unwrap();
    let b = nodes
        .add_simple(vec![Link { node: a, port: 0 }, Link { node: a, port: 1 }])
        .unwrap();
    let c = nodes.add_simple(vec![Link { node: a, port: 0 }]).unwrap();
    let d = nodes
        .add_simple(vec![Link { node: c, port: 0 }, Link { node: b, port: 0 }])
        .unwrap();
    let stray = nodes.add_simple(vec![Link { node: a, port: 0 }]).unwrap();

    let mut searcher = DepthFirstSearcher::new();
    let mut finder = SuccessorFinder::new();

    finder.run(&nodes, d, &mut searcher);

    let cache = finder.cache();

    assert_eq!(cache.len(), 5);
    assert_eq!(cache[a.index()].as_slice(), &[c, b]);
    assert_eq!(cache[b.index()].as_slice(), &[d]);
    assert_eq!(cache[c.index()].as_slice(), &[d]);
    assert!(cache[d.index()].as_slice().is_empty());
    assert!(cache[stray.index()].as_slice().is_empty());
    assert_eq!(searcher.nodes(), &vec![false, false, false, false, true]);

    finder.run(&nodes, b, &mut searcher);

    assert_eq!(finder.cache()[a.index()].as_slice(), &[b]);
    assert!(finder.cache()[c.index()].as_slice().is_empty());

    finder.clear();

    assert!(finder.cache().is_empty());
}

fn diamond() -> (Nodes<Vec<Link>>, [Id; 5]) {
    let mut nodes: Nodes<Vec<Link>> = Nodes::new();
    let a = nodes.add_simple(Vec::new()).unwrap();
    let b = nodes.add_simple(vec![Link::from(a)]).unwrap();
    let c = nodes.add_simple(vec![Link::from(a)]).unwrap();
    let d = nodes
        .add_simple(vec![Link::from(b), Link::from(c)])
        .unwrap();
    let stray = nodes.add_simple(vec![Link::from(a)]).unwrap();

    (nodes, [a, b, c, d, stray])
}

#[test]
fn a_queue_emits_a_node_before_what_it_names() {
    let (nodes, [a, b, c, d, _]) = diamond();
    let mut traversal = PostOrder::new();

    assert_eq!(traversal.run(&nodes, &[d]), vec![d, c, a, b]);
    assert_eq!(traversal.seen(), &[true, true, true, true, false]);
    assert_eq!(traversal.run(&nodes, &[b, d, b]), vec![d, c, a, b]);
    assert_eq!(traversal.run(&nodes, &[]), Vec::<Id>::new());
    assert_eq!(traversal.seen(), &[false; 5]);
    assert_eq!(
        PostOrder::default().run(&nodes, &[Id { index: 40, version: 0 }, a]),
        vec![a]
    );
}

#[test]
fn a_queue_meets_regions_before_links() {
    let mut nodes: Nodes<Vec<Link>> = Nodes::new();
    let x = nodes.add_simple(Vec::new()).unwrap();
    let (theta, region) = nodes.add_theta(vec![Link::from(x)]).unwrap();

    assert_eq!(
        PostOrder::new().run(&nodes, &[theta]),
        vec![theta, x, region.end, region.start]
    );
    assert_eq!(
        PreOrderMut::new().run(&nodes, &[theta]),
        vec![x, region.end, region.start, theta]
    );
}

#[test]
fn a_stack_emits_a_node_when_it_comes_back_to_it() {
    let (mut nodes, [a, b, c, d, stray]) = diamond();
    let mut traversal = PreOrderMut::new();

    assert_eq!(traversal.run(&nodes, &[d]), vec![a, c, b, d]);
    assert_eq!(traversal.seen(), &[true, true, true, true, false]);

    nodes.remove(c);

    assert_eq!(traversal.run(&nodes, &[d, stray]), vec![a, stray, b, d]);
    assert_eq!(traversal.seen(), &[true, true, false, true, true]);
    assert_eq!(PreOrderMut::default().run(&nodes, &[c]), Vec::<Id>::new());
}
