//! Redirection of the links that read from a node.

use vstd::prelude::*;
use crate::data_flow::invariants::acyclic;
use crate::data_flow::link::{Id, Link};
use crate::data_flow::node::{Node, ParametersMut, Shape};
use crate::data_flow::nodes::Nodes;
use crate::transform::laws::lemma_in_place_acyclic;
use crate::visit::laws::reachable;
use crate::visit::successors::{reads, Successors};

verus! {

/// Whether the function `redo` returns, for every port, what `answer` says.
pub open spec fn answers<F: Fn(u16) -> Option<Link>>(
    redo: F,
    answer: spec_fn(u16) -> Option<Link>,
) -> bool {
    forall|port: u16, result: Option<Link>|
        call_ensures(redo, (port,), result) ==> result == answer(port)
}

/// Whether `after` can be what a redirection by `redo` leaves of the links
/// `before`: a link that does not read from `from` is kept, and a link that
/// does is replaced by something that `redo` can return for its port, or
/// kept where `redo` can return nothing.
pub open spec fn rewired_by<F: Fn(u16) -> Option<Link>>(
    redo: F,
    from: Id,
    before: Seq<Link>,
    after: Seq<Link>,
) -> bool {
    &&& after.len() == before.len()
    &&& forall|k: int|
        0 <= k < before.len() ==> if (#[trigger] before[k]).node == from {
            call_ensures(redo, (before[k].port,), Some(after[k])) || (after[k] == before[k]
                && call_ensures(redo, (before[k].port,), None))
        } else {
            after[k] == before[k]
        }
}

/// Whether the link reads from `from` at a port for which `answer` has a
/// replacement.
pub open spec fn hit(link: Link, from: Id, answer: spec_fn(u16) -> Option<Link>) -> bool {
    link.node == from && answer(link.port) is Some
}

/// The link after redirection: the replacement that `answer` has for its
/// port if it reads from `from`, else the link itself.
pub open spec fn rewire_link(link: Link, from: Id, answer: spec_fn(u16) -> Option<Link>) -> Link {
    if hit(link, from, answer) {
        answer(link.port)->0
    } else {
        link
    }
}

/// The links after redirection, each in its place.
pub open spec fn rewire(links: Seq<Link>, from: Id, answer: spec_fn(u16) -> Option<Link>) -> Seq<
    Link,
> {
    Seq::new(links.len(), |i: int| rewire_link(links[i], from, answer))
}

/// The number of links that a redirection replaces.
pub open spec fn hits(links: Seq<Link>, from: Id, answer: spec_fn(u16) -> Option<Link>) -> nat
    decreases links.len(),
{
    if links.len() == 0 {
        0
    } else if hit(links.last(), from, answer) {
        hits(links.drop_last(), from, answer) + 1
    } else {
        hits(links.drop_last(), from, answer)
    }
}

/// The graph after the links of the nodes of `list` have been redirected,
/// one node after the other, and the number of links replaced. A key of the
/// list that names no node of the graph is passed over.
pub open spec fn redone(
    graph: Map<Id, Shape>,
    list: Seq<Id>,
    from: Id,
    answer: spec_fn(u16) -> Option<Link>,
) -> (Map<Id, Shape>, nat)
    decreases list.len(),
{
    if list.len() == 0 {
        (graph, 0)
    } else {
        let before = redone(graph, list.drop_last(), from, answer);
        let id = list.last();
        if before.0.dom().contains(id) {
            let shape = before.0[id];
            (
                before.0.insert(
                    id,
                    Shape {
                        kind: shape.kind,
                        links: rewire(shape.links, from, answer),
                        regions: shape.regions,
                    },
                ),
                before.1 + hits(shape.links, from, answer),
            )
        } else {
            before
        }
    }
}

/// The successors cached for the node, or none if the cache does not reach
/// its index.
pub open spec fn cached(successors: Seq<Seq<Id>>, id: Id) -> Seq<Id> {
    if id.index < successors.len() {
        successors[id.index as int]
    } else {
        Seq::empty()
    }
}

/// Redirects the links of one node.
fn redo_list<F: Fn(u16) -> Option<Link>>(list: &mut [Link], id: Id, redo: &F) -> (applied: usize)
    requires
        forall|port: u16| call_requires(*redo, (port,)),
    ensures
        rewired_by(*redo, id, old(list)@, final(list)@),
        forall|answer: spec_fn(u16) -> Option<Link>| #[trigger]
            answers(*redo, answer) ==> final(list)@ == rewire(old(list)@, id, answer) && applied
                == hits(old(list)@, id, answer),
{
    let mut applied: usize = 0;
    let mut k: usize = 0;
    let count = list.len();
    while k < count
        invariant
            forall|port: u16| call_requires(*redo, (port,)),
            count == old(list)@.len(),
            list@.len() == count,
            k <= count,
            applied <= k,
            forall|i: int| k <= i < count ==> list@[i] == old(list)@[i],
            forall|i: int|
                0 <= i < k ==> if (#[trigger] old(list)@[i]).node == id {
                    call_ensures(*redo, (old(list)@[i].port,), Some(list@[i])) || (list@[i] == old(list)@[i] && call_ensures(*redo, (old(list)@[i].port,), None))
                } else {
                    list@[i] == old(list)@[i]
                },
            forall|answer: spec_fn(u16) -> Option<Link>| #[trigger]
                answers(*redo, answer) ==> (forall|i: int|
                    0 <= i < k ==> list@[i] == rewire_link(old(list)@[i], id, answer)) && applied
                    == hits(old(list)@.take(k as int), id, answer),
        decreases count - k,
    {
        let link = list[k];
        let ghost before = applied;
        let ghost taken: Option<Link> = None;
        if link.node == id {
            let found = redo(link.port);
            proof {
                taken = found;
            }
            if let Some(to) = found {
                list[k] = to;
                applied += 1;
            }
        }
        proof {
            assert(old(list)@.take(k + 1).drop_last() =~= old(list)@.take(k as int));
            assert forall|answer: spec_fn(u16) -> Option<Link>| #[trigger]
                answers(*redo, answer) implies (forall|i: int|
                0 <= i < k + 1 ==> list@[i] == rewire_link(old(list)@[i], id, answer)) && applied
                == hits(old(list)@.take(k + 1), id, answer) by {
                if link.node == id {
                    assert(call_ensures(*redo, (link.port,), taken));
                }
            }
        }
        k += 1;
    }
    proof {
        assert(old(list)@.take(k as int) =~= old(list)@);
        assert forall|answer: spec_fn(u16) -> Option<Link>| #[trigger]
            answers(*redo, answer) implies list@ == rewire(old(list)@, id, answer) by {
            assert(list@ =~= rewire(old(list)@, id, answer));
        }
    }
    applied
}

/// The count as far as a `usize` can hold it.
pub open spec fn capped(count: nat) -> usize {
    if count <= usize::MAX {
        count as usize
    } else {
        usize::MAX
    }
}

/// Redirects the links of the node `successor`, if it is in the store.
fn redo_node<N: ParametersMut, F: Fn(u16) -> Option<Link>>(
    nodes: &mut Nodes<N>,
    successor: Id,
    id: Id,
    redo: &F,
) -> (applied: usize)
    requires
        old(nodes).well_formed(),
        forall|port: u16| call_requires(*redo, (port,)),
    ensures
        final(nodes).well_formed(),
        final(nodes)@.dom() == old(nodes)@.dom(),
        final(nodes).room() == old(nodes).room(),
        forall|key: Id| final(nodes).issued(key) == old(nodes).issued(key),
        forall|key: Id|
            old(nodes)@.dom().contains(key) && key != successor ==> final(nodes)@[key] == old(nodes)@[key],
        forall|key: Id|
            old(nodes)@.dom().contains(key) ==> (#[trigger] final(nodes)@[key]).kind() == old(nodes)@[key].kind() && final(nodes)@[key].owned() == old(nodes)@[key].owned() && final(nodes)@[key].links().len() == old(nodes)@[key].links().len(),
        old(nodes)@.dom().contains(successor) ==> rewired_by(
            *redo,
            id,
            old(nodes)@[successor].links(),
            final(nodes)@[successor].links(),
        ),
        forall|answer: spec_fn(u16) -> Option<Link>| #[trigger]
            answers(*redo, answer) ==> {
                let step = redone(old(nodes).graph(), seq![successor], id, answer);
                final(nodes).graph() == step.0 && applied == step.1
            },
{
    let ghost before = nodes.graph();
    let mut applied: usize = 0;
    match nodes.get_mut(successor) {
        Some(node) => {
            let links = node.parameters_mut();
            applied = redo_list(links, id, redo);
        },
        None => {},
    }
    proof {
        reveal_with_fuel(redone, 2);
        assert(seq![successor].drop_last() =~= Seq::<Id>::empty());
        assert forall|answer: spec_fn(u16) -> Option<Link>| #[trigger]
            answers(*redo, answer) implies {
            let step = redone(before, seq![successor], id, answer);
            nodes.graph() == step.0 && applied == step.1
        } by {
            let step = redone(before, seq![successor], id, answer);
            assert(nodes.graph() =~= step.0);
        }
    }
    applied
}

/// Redoes the ports of the successors of the node `id` to point elsewhere.
/// The ports are updated using the function `redo`.
///
/// The successors are those that `successors` has cached for the index of
/// `id`; each is taken in turn, and each of its links that reads from `id` is
/// replaced by what `redo` returns for its port, if anything. Returns the
/// number of replacements, as far as a `usize` can hold it. No node is added
/// or removed, and no node changes its kind, its regions or the number of its
/// links; nodes that are not among the successors stay as they are.
pub fn redo_ports<N: ParametersMut, F: Fn(u16) -> Option<Link>>(
    nodes: &mut Nodes<N>,
    successors: &Successors,
    id: Id,
    redo: F,
) -> (applied: usize)
    requires
        old(nodes).well_formed(),
        forall|port: u16| call_requires(redo, (port,)),
    ensures
        final(nodes).well_formed(),
        final(nodes)@.dom() == old(nodes)@.dom(),
        final(nodes).room() == old(nodes).room(),
        forall|key: Id| final(nodes).issued(key) == old(nodes).issued(key),
        forall|key: Id|
            old(nodes)@.dom().contains(key) && !cached(successors@, id).contains(key) ==> final(nodes)@[key] == old(nodes)@[key],
        forall|key: Id|
            old(nodes)@.dom().contains(key) ==> (#[trigger] final(nodes)@[key]).kind() == old(nodes)@[key].kind() && final(nodes)@[key].owned() == old(nodes)@[key].owned() && final(nodes)@[key].links().len() == old(nodes)@[key].links().len(),
        cached(successors@, id).no_duplicates() ==> forall|key: Id|
            old(nodes)@.dom().contains(key) && cached(successors@, id).contains(key)
                ==> rewired_by(
                redo,
                id,
                old(nodes)@[key].links(),
                (#[trigger] final(nodes)@[key]).links(),
            ),
        forall|answer: spec_fn(u16) -> Option<Link>| #[trigger]
            answers(redo, answer) ==> {
                let all = redone(old(nodes).graph(), cached(successors@, id), id, answer);
                final(nodes).graph() == all.0 && applied == capped(all.1)
            },
{
    let index = id.index as usize;
    let cache = successors.cache();
    if index >= cache.len() {
        return 0;
    }
    let list = cache[index].as_slice();
    assert(list@ == cached(successors@, id));
    let mut applied: usize = 0;
    let mut k: usize = 0;
    while k < list.len()
        invariant
            forall|port: u16| call_requires(redo, (port,)),
            k <= list@.len(),
            nodes.well_formed(),
            nodes@.dom() == old(nodes)@.dom(),
            nodes.room() == old(nodes).room(),
            forall|key: Id| nodes.issued(key) == old(nodes).issued(key),
            forall|key: Id|
                old(nodes)@.dom().contains(key) && !list@.take(k as int).contains(key) ==> nodes@[key]
                    == old(nodes)@[key],
            forall|key: Id|
                old(nodes)@.dom().contains(key) ==> (#[trigger] nodes@[key]).kind() == old(nodes)@[key].kind() && nodes@[key].owned() == old(nodes)@[key].owned()
                    && nodes@[key].links().len() == old(nodes)@[key].links().len(),
            list@.no_duplicates() ==> forall|key: Id|
                old(nodes)@.dom().contains(key) && list@.take(k as int).contains(key)
                    ==> rewired_by(
                    redo,
                    id,
                    old(nodes)@[key].links(),
                    (#[trigger] nodes@[key]).links(),
                ),
            forall|answer: spec_fn(u16) -> Option<Link>| #[trigger]
                answers(redo, answer) ==> {
                    let all = redone(old(nodes).graph(), list@.take(k as int), id, answer);
                    nodes.graph() == all.0 && applied == capped(all.1)
                },
        decreases list@.len() - k,
    {
        let ghost before = nodes.graph();
        let ghost earlier = nodes@;
        let successor = list[k];
        let count = redo_node(nodes, successor, id, &redo);
        applied = applied.saturating_add(count);
        proof {
            reveal_with_fuel(redone, 2);
            let shorter = list@.take(k as int);
            let longer = list@.take(k + 1);
            assert(longer.drop_last() =~= shorter);
            assert(longer.last() == successor);
            assert(seq![successor].drop_last() =~= Seq::<Id>::empty());
            assert forall|key: Id|
                old(nodes)@.dom().contains(key) && !longer.contains(key) implies nodes@[key] == old(nodes)@[key] by {
                if shorter.contains(key) {
                    let i = choose|i: int| 0 <= i < shorter.len() && shorter[i] == key;
                    assert(longer[i] == key);
                }
                assert(longer[k as int] == successor);
            }
            if list@.no_duplicates() {
                assert forall|key: Id|
                    old(nodes)@.dom().contains(key) && longer.contains(key) implies rewired_by(
                    redo,
                    id,
                    old(nodes)@[key].links(),
                    (#[trigger] nodes@[key]).links(),
                ) by {
                    if key == successor {
                        if shorter.contains(key) {
                            let i = choose|i: int| 0 <= i < shorter.len() && shorter[i] == key;
                            assert(list@[i] == list@[k as int]);
                        }
                        assert(earlier[key] == old(nodes)@[key]);
                    } else {
                        let i = choose|i: int| 0 <= i < longer.len() && longer[i] == key;
                        assert(shorter[i] == key);
                        assert(nodes@[key] == earlier[key]);
                    }
                }
            }
            assert forall|answer: spec_fn(u16) -> Option<Link>| #[trigger]
                answers(redo, answer) implies {
                let all = redone(old(nodes).graph(), longer, id, answer);
                nodes.graph() == all.0 && applied == capped(all.1)
            } by {
                let step = redone(before, seq![successor], id, answer);
                let all = redone(old(nodes).graph(), longer, id, answer);
                assert(nodes.graph() == step.0);
                assert(step.0 =~= all.0);
            }
        }
        k += 1;
    }
    proof {
        assert(list@.take(k as int) =~= list@);
    }
    applied
}

/// The answer that moves every port over to the node `to`.
pub open spec fn in_place(to: Id) -> spec_fn(u16) -> Option<Link> {
    |port: u16| Some(Link { node: to, port })
}

/// Redoes the ports of the successors of the node `from` to point to the node `to`.
///
/// Every link of a cached successor that reads from `from` then reads from
/// the same port of `to`. Returns the number of those links, as far as a
/// `usize` can hold it. A graph without cycles stays without cycles if `to`
/// does not depend, directly or through a chain, on a successor whose links
/// are moved.
pub fn redo_ports_in_place<N: ParametersMut>(
    nodes: &mut Nodes<N>,
    successors: &Successors,
    from: Id,
    to: Id,
) -> (applied: usize)
    requires
        old(nodes).well_formed(),
    ensures
        final(nodes).well_formed(),
        final(nodes)@.dom() == old(nodes)@.dom(),
        final(nodes).room() == old(nodes).room(),
        forall|key: Id| final(nodes).issued(key) == old(nodes).issued(key),
        forall|key: Id|
            old(nodes)@.dom().contains(key) && !cached(successors@, from).contains(key) ==> final(nodes)@[key] == old(nodes)@[key],
        forall|key: Id|
            old(nodes)@.dom().contains(key) ==> (#[trigger] final(nodes)@[key]).kind() == old(nodes)@[key].kind() && final(nodes)@[key].owned() == old(nodes)@[key].owned() && final(nodes)@[key].links().len() == old(nodes)@[key].links().len(),
        final(nodes).graph() == redone(
            old(nodes).graph(),
            cached(successors@, from),
            from,
            in_place(to),
        ).0,
        applied == capped(
            redone(old(nodes).graph(), cached(successors@, from), from, in_place(to)).1,
        ),
        acyclic(old(nodes).graph()) && (forall|reader: Id|
            cached(successors@, from).contains(reader) && old(nodes).graph().dom().contains(reader)
                && reads(old(nodes).graph()[reader], from) ==> !reachable(
                old(nodes).graph(),
                seq![to],
                reader,
            )) ==> acyclic(final(nodes).graph()),
{
    proof {
        if acyclic(nodes.graph()) && (forall|reader: Id|
            cached(successors@, from).contains(reader) && nodes.graph().dom().contains(reader)
                && reads(nodes.graph()[reader], from) ==> !reachable(
                nodes.graph(),
                seq![to],
                reader,
            )) {
            lemma_in_place_acyclic(nodes.graph(), cached(successors@, from), from, to);
        }
    }
    let redo = |port: u16| -> (link: Option<Link>)
        ensures
            link == Some(Link { node: to, port }),
        { Some(Link { node: to, port }) };
    assert(answers(redo, in_place(to)));
    redo_ports(nodes, successors, from, redo)
}

/// Moving the links that read from a node over to that same node leaves
/// every link as it is.
pub proof fn lemma_in_place_same(graph: Map<Id, Shape>, list: Seq<Id>, from: Id)
    ensures
        redone(graph, list, from, in_place(from)).0 == graph,
    decreases list.len(),
{
    if list.len() > 0 {
        lemma_in_place_same(graph, list.drop_last(), from);
        let id = list.last();
        if graph.dom().contains(id) {
            let shape = graph[id];
            assert(rewire(shape.links, from, in_place(from)) =~= shape.links);
            assert(graph.insert(id, shape) =~= graph);
        }
    }
}

/// Applies the `rule` to the node `id`. If the rule succeeds, the result is
/// passed to `stitch`, the node is replaced by what `stitch` makes of it,
/// and the old node is returned. Nothing changes, and nothing is returned,
/// if the rule finds no match or if the node is not in the store.
pub fn single<A, B, N, U>(rule: A, stitch: B, nodes: &mut Nodes<N>, id: Id) -> (replaced: Option<
    Node<N>,
>) where A: Fn(&Nodes<N>, Id) -> Option<U>, B: Fn(&Nodes<N>, Id, U) -> Node<N>
    requires
        old(nodes).well_formed(),
        call_requires(rule, (old(nodes), id)),
        forall|witness: U|
            call_ensures(rule, (old(nodes), id), Some(witness)) ==> call_requires(
                stitch,
                (old(nodes), id, witness),
            ),
    ensures
        final(nodes).well_formed(),
        final(nodes).room() == old(nodes).room(),
        forall|key: Id| final(nodes).issued(key) == old(nodes).issued(key),
        match replaced {
            Some(node) => old(nodes)@.dom().contains(id) && node == old(nodes)@[id] && exists|
                witness: U,
            |
                call_ensures(rule, (old(nodes), id), Some(witness)) && call_ensures(
                    stitch,
                    (old(nodes), id, witness),
                    final(nodes)@[id],
                ) && final(nodes)@ == old(nodes)@.insert(id, final(nodes)@[id]),
            None => final(nodes)@ == old(nodes)@ && (!old(nodes)@.dom().contains(id) || call_ensures(
                rule,
                (old(nodes), id),
                None,
            )),
        },
{
    if !nodes.contains(id) {
        return None;
    }
    match rule(nodes, id) {
        Some(witness) => {
            let mut node = stitch(nodes, id, witness);
            match nodes.get_mut(id) {
                Some(place) => {
                    std::mem::swap(place, &mut node);
                    Some(node)
                },
                None => None,
            }
        },
        None => None,
    }
}

} // verus!
