//! What holds of the rewrites in every graph that is in order.

use vstd::prelude::*;
use crate::data_flow::invariants::{
    acyclic,
    apart,
    closed,
    depends,
    lemma_restrict,
    ranked,
    regions_apart,
};
use crate::data_flow::invariants::named;
use crate::data_flow::laws::sound;
use crate::data_flow::link::{Id, Link};
use crate::data_flow::node::Shape;
use crate::transform::relax_dependencies::{
    gamma_maps,
    lookup,
    maps_of,
    passthrough,
    region_maps,
    results,
    theta_maps,
};
use crate::transform::revise::{
    hit,
    hits,
    in_place,
    lemma_in_place_same,
    redone,
    rewire,
    rewire_link,
};
use crate::visit::laws::{
    connects,
    lemma_emits_once,
    lemma_emits_reachable,
    lemma_reachable_along,
    lemma_reachable_step,
    lemma_walk_facts,
    lemma_sweep_sound,
    reachable,
    swept,
};
use crate::visit::order::{post_order, reached};
use crate::visit::successors::{lemma_successors_of, reads, successors_of};

verus! {

/// Whether no replacement that `answer` gives would itself be replaced.
pub open spec fn settled(from: Id, answer: spec_fn(u16) -> Option<Link>) -> bool {
    forall|port: u16| #[trigger] answer(port) is Some ==> !hit(answer(port)->0, from, answer)
}

/// Whether every replacement that `answer` gives reads from a node that
/// `from` depends on.
pub open spec fn inherited(graph: Map<Id, Shape>, from: Id, answer: spec_fn(u16) -> Option<Link>) -> bool {
    forall|port: u16| #[trigger] answer(port) is Some ==> depends(graph, from, answer(port)->0.node)
}

/// The node with its links redirected.
pub open spec fn rewired(shape: Shape, from: Id, answer: spec_fn(u16) -> Option<Link>) -> Shape {
    Shape { kind: shape.kind, links: rewire(shape.links, from, answer), regions: shape.regions }
}

/// A list of links none of which is replaced is left as it is.
pub proof fn lemma_no_hits(links: Seq<Link>, from: Id, answer: spec_fn(u16) -> Option<Link>)
    requires
        forall|k: int| 0 <= k < links.len() ==> !hit(#[trigger] links[k], from, answer),
    ensures
        rewire(links, from, answer) == links,
        hits(links, from, answer) == 0,
    decreases links.len(),
{
    assert(rewire(links, from, answer) =~= links);
    if links.len() > 0 {
        lemma_no_hits(links.drop_last(), from, answer);
    }
}

/// With settled replacements, a redirection redirects the links of the
/// nodes of the list, once, however often a node is listed, and leaves
/// every other node as it is.
pub proof fn lemma_redone(
    graph: Map<Id, Shape>,
    list: Seq<Id>,
    from: Id,
    answer: spec_fn(u16) -> Option<Link>,
)
    requires
        settled(from, answer),
    ensures
        redone(graph, list, from, answer).0.dom() == graph.dom(),
        forall|id: Id|
            graph.dom().contains(id) ==> (#[trigger] redone(graph, list, from, answer).0[id]) == if list.contains(
                id,
            ) {
                rewired(graph[id], from, answer)
            } else {
                graph[id]
            },
    decreases list.len(),
{
    if list.len() > 0 {
        let shorter = list.drop_last();
        let last = list.last();
        let before = redone(graph, shorter, from, answer).0;
        let after = redone(graph, list, from, answer).0;
        lemma_redone(graph, shorter, from, answer);
        assert(after.dom() =~= graph.dom());
        assert(list[list.len() - 1] == last);
        assert forall|id: Id| graph.dom().contains(id) implies (#[trigger] after[id]) == if list.contains(
            id,
        ) {
            rewired(graph[id], from, answer)
        } else {
            graph[id]
        } by {
            if shorter.contains(id) {
                let k = choose|k: int| 0 <= k < shorter.len() && shorter[k] == id;
                assert(list[k] == id);
            }
            if list.contains(id) && id != last {
                let k = choose|k: int| 0 <= k < list.len() && list[k] == id;
                assert(shorter[k] == id);
            }
            if id == last && shorter.contains(id) {
                let once = rewire(graph[id].links, from, answer);
                assert(rewire(once, from, answer) =~= once);
            }
        }
    } else {
        assert forall|id: Id| !list.contains(id) by {}
    }
}

/// A redirection whose replacements read from nodes that the old producer
/// depends on keeps a graph in order.
pub proof fn lemma_redone_sound(
    graph: Map<Id, Shape>,
    list: Seq<Id>,
    from: Id,
    answer: spec_fn(u16) -> Option<Link>,
)
    requires
        sound(graph),
        inherited(graph, from, answer),
    ensures
        settled(from, answer),
        sound(redone(graph, list, from, answer).0),
{
    let rank = choose|rank: spec_fn(Id) -> nat| ranked(graph, rank);
    assert forall|port: u16| #[trigger] answer(port) is Some implies !hit(
        answer(port)->0,
        from,
        answer,
    ) by {
        assert(depends(graph, from, answer(port)->0.node));
    }
    lemma_redone(graph, list, from, answer);
    let after = redone(graph, list, from, answer).0;
    assert forall|id: Id, to: Id| depends(after, id, to) implies depends(graph, id, to) || (depends(
        graph,
        id,
        from,
    ) && depends(graph, from, to)) by {
        let new = after[id].dependencies();
        let old = graph[id].dependencies();
        let i = choose|i: int| 0 <= i < new.len() && new[i] == to;
        if i < graph[id].links.len() {
            let link = graph[id].links[i];
            assert(old[i] == link.node);
            if list.contains(id) && hit(link, from, answer) {
                assert(graph.dom().contains(old[i]));
                assert(answer(link.port) is Some);
            } else {
                assert(new[i] == old[i]);
            }
        } else {
            assert(new[i] == old[i]);
        }
    }
    assert(closed(after)) by {
        assert forall|id: Id, i: int|
            after.dom().contains(id) && 0 <= i < after[id].dependencies().len() implies after.dom().contains(
            #[trigger] after[id].dependencies()[i],
        ) by {
            let new = after[id].dependencies();
            let old = graph[id].dependencies();
            assert(graph.dom().contains(old[i]));
            if i < graph[id].links.len() {
                let link = graph[id].links[i];
                if list.contains(id) && hit(link, from, answer) {
                    assert(answer(link.port) is Some);
                    assert(depends(graph, from, answer(link.port)->0.node));
                } else {
                    assert(new[i] == old[i]);
                }
            } else {
                assert(new[i] == old[i]);
            }
        }
    }
    assert(ranked(after, rank));
    assert(regions_apart(after)) by {
        assert forall|a: Id, i: int, b: Id, j: int|
            #![trigger after[a].regions[i], after[b].regions[j]]
            after.dom().contains(a) && after.dom().contains(b) && 0 <= i < after[a].regions.len()
                && 0 <= j < after[b].regions.len() implies after[a].regions[i].start
            != after[a].regions[i].end && ((a != b || i != j) ==> apart(
            after[a].regions[i],
            after[b].regions[j],
        )) by {
            let _ = (graph[a].regions[i], graph[b].regions[j]);
        }
    }
}

/// The replacements of a relaxation read from nodes that the relaxed node
/// itself reads from.
pub proof fn lemma_maps_inherited(graph: Map<Id, Shape>, id: Id)
    requires
        closed(graph),
        maps_of(graph, id) is Some,
    ensures
        inherited(graph, id, lookup(maps_of(graph, id)->0)),
{
    let maps = maps_of(graph, id)->0;
    let answer = lookup(maps);
    let parameters = graph[id].links;
    assert forall|port: u16| #[trigger] answer(port) is Some implies depends(
        graph,
        id,
        answer(port)->0.node,
    ) by {
        let i = port as int;
        let region = graph[id].regions[0];
        let passed = region_maps(graph, parameters, region)[i];
        assert(answer(port) == passed);
        let read = results(graph, region.end)[i];
        assert(passed == passthrough(parameters, region.start, read));
        let q = read.port as int;
        assert(answer(port)->0 == parameters[q]);
        assert(graph[id].dependencies()[q] == parameters[q].node);
        assert(graph.dom().contains(graph[id].dependencies()[q]));
    }
}

/// A relaxation keeps a graph in order.
pub proof fn lemma_relax_sound(graph: Map<Id, Shape>, list: Seq<Id>, id: Id)
    requires
        sound(graph),
        maps_of(graph, id) is Some,
    ensures
        sound(redone(graph, list, id, lookup(maps_of(graph, id)->0)).0),
{
    lemma_maps_inherited(graph, id);
    lemma_redone_sound(graph, list, id, lookup(maps_of(graph, id)->0));
}

/// A sweep keeps a graph in order.
pub proof fn lemma_swept_sound(graph: Map<Id, Shape>, roots: Seq<Id>)
    requires
        graph.dom().finite(),
        sound(graph),
    ensures
        sound(swept(graph, roots)),
{
    lemma_sweep_sound(graph, roots);
    lemma_restrict(graph, reached(graph, roots));
}

/// After a redirection whose replacements read from nodes that the old
/// producer depends on, a node depends only on what it depended on before,
/// or on what the old producer, which it depended on, depends on.
pub proof fn lemma_redone_depends(
    graph: Map<Id, Shape>,
    list: Seq<Id>,
    from: Id,
    answer: spec_fn(u16) -> Option<Link>,
    id: Id,
    to: Id,
)
    requires
        closed(graph),
        settled(from, answer),
        inherited(graph, from, answer),
        depends(redone(graph, list, from, answer).0, id, to),
    ensures
        depends(graph, id, to) || (depends(graph, id, from) && depends(graph, from, to)),
{
    lemma_redone(graph, list, from, answer);
    let after = redone(graph, list, from, answer).0;
    let new = after[id].dependencies();
    let old = graph[id].dependencies();
    let i = choose|i: int| 0 <= i < new.len() && new[i] == to;
    if i < graph[id].links.len() {
        let link = graph[id].links[i];
        assert(old[i] == link.node);
        if list.contains(id) && hit(link, from, answer) {
            assert(graph.dom().contains(old[i]));
            assert(answer(link.port) is Some);
        } else {
            assert(new[i] == old[i]);
        }
    } else {
        assert(new[i] == old[i]);
    }
}

/// What can be reached after a redirection could be reached before it.
proof fn lemma_reach_shrinks(
    graph: Map<Id, Shape>,
    list: Seq<Id>,
    from: Id,
    answer: spec_fn(u16) -> Option<Link>,
    roots: Seq<Id>,
    path: Seq<Id>,
    upto: int,
)
    requires
        closed(graph),
        settled(from, answer),
        inherited(graph, from, answer),
        connects(redone(graph, list, from, answer).0, path),
        roots.contains(path[0]),
        0 <= upto < path.len(),
    ensures
        reachable(graph, roots, path[upto]),
    decreases upto,
{
    let after = redone(graph, list, from, answer).0;
    lemma_redone(graph, list, from, answer);
    if upto == 0 {
        let alone = seq![path[0]];
        assert(connects(graph, alone));
        assert(alone.last() == path[0]);
        assert(roots.contains(alone[0]));
    } else {
        lemma_reach_shrinks(graph, list, from, answer, roots, path, upto - 1);
        assert(depends(after, path[upto - 1], path[upto]));
        lemma_redone_depends(graph, list, from, answer, path[upto - 1], path[upto]);
        if !depends(graph, path[upto - 1], path[upto]) {
            lemma_reachable_step(graph, roots, path[upto - 1], from);
            lemma_reachable_step(graph, roots, from, path[upto]);
        } else {
            lemma_reachable_step(graph, roots, path[upto - 1], path[upto]);
        }
    }
}

/// A redirection in a graph none of whose links would be replaced changes
/// nothing.
pub proof fn lemma_redone_nothing(
    graph: Map<Id, Shape>,
    list: Seq<Id>,
    from: Id,
    answer: spec_fn(u16) -> Option<Link>,
)
    requires
        forall|id: Id, k: int|
            graph.dom().contains(id) && 0 <= k < graph[id].links.len() ==> !hit(
                #[trigger] graph[id].links[k],
                from,
                answer,
            ),
    ensures
        redone(graph, list, from, answer) == (graph, 0nat),
    decreases list.len(),
{
    if list.len() > 0 {
        lemma_redone_nothing(graph, list.drop_last(), from, answer);
        let id = list.last();
        if graph.dom().contains(id) {
            lemma_no_hits(graph[id].links, from, answer);
            assert(graph.insert(id, graph[id]) =~= graph);
        }
    }
}

/// The relaxation that applies to a node is the same in a graph that holds
/// the node and the end markers of its regions as they are.
proof fn lemma_maps_same(graph: Map<Id, Shape>, other: Map<Id, Shape>, id: Id)
    requires
        graph.dom().contains(id),
        other.dom().contains(id),
        other[id] == graph[id],
        forall|j: int|
            0 <= j < graph[id].regions.len() ==> results(
                other,
                (#[trigger] graph[id].regions[j]).end,
            ) == results(graph, graph[id].regions[j].end),
    ensures
        maps_of(other, id) == maps_of(graph, id),
{
    let parameters = graph[id].links;
    let regions = graph[id].regions;
    assert forall|j: int| 0 <= j < regions.len() implies region_maps(
        other,
        parameters,
        #[trigger] regions[j],
    ) == region_maps(graph, parameters, regions[j]) by {
        assert(region_maps(other, parameters, regions[j]) =~= region_maps(
            graph,
            parameters,
            regions[j],
        ));
    }
    if regions.len() > 0 {
        assert(gamma_maps(other, parameters, regions) =~= gamma_maps(graph, parameters, regions));
        assert(theta_maps(other, parameters, regions[0]) =~= theta_maps(
            graph,
            parameters,
            regions[0],
        ));
    }
}

/// Relaxation is idempotent once a sweep has run: when the outputs of a
/// node have been relaxed for the successors that a traversal from `first`
/// finds, and the graph has been swept from roots that `first` reaches,
/// relaxing the outputs of the node again replaces no link, whatever
/// successors it is given.
pub proof fn lemma_relax_after_sweep(
    graph: Map<Id, Shape>,
    first: Seq<Id>,
    roots: Seq<Id>,
    id: Id,
    later: Seq<Id>,
)
    requires
        graph.dom().finite(),
        sound(graph),
        maps_of(graph, id) is Some,
        forall|i: int|
            0 <= i < roots.len() && graph.dom().contains(#[trigger] roots[i]) ==> reachable(
                graph,
                first,
                roots[i],
            ),
    ensures
        ({
            let found = successors_of(graph, post_order(graph, first), id);
            let relaxed = redone(graph, found, id, lookup(maps_of(graph, id)->0)).0;
            let kept = swept(relaxed, roots);
            maps_of(kept, id) is Some ==> redone(kept, later, id, lookup(maps_of(kept, id)->0)) == (
                kept,
                0nat,
            )
        }),
{
    let order = post_order(graph, first);
    let found = successors_of(graph, order, id);
    let answer = lookup(maps_of(graph, id)->0);
    let relaxed = redone(graph, found, id, answer).0;
    let kept = swept(relaxed, roots);
    let rank = choose|rank: spec_fn(Id) -> nat| ranked(graph, rank);
    lemma_maps_inherited(graph, id);
    lemma_redone_sound(graph, found, id, answer);
    lemma_redone(graph, found, id, answer);
    assert(relaxed.dom().finite());
    if maps_of(kept, id) is Some {
        lemma_emits_once(relaxed, roots);
        lemma_walk_facts(relaxed, Set::empty(), roots, 0);
        assert(kept.dom().contains(id));
        assert(!found.contains(id)) by {
            lemma_successors_of(graph, order, id, id);
            if reads(graph[id], id) {
                let k = choose|k: int|
                    0 <= k < graph[id].links.len() && (#[trigger] graph[id].links[k]).node == id;
                assert(graph[id].dependencies()[k] == id);
                assert(depends(graph, id, id));
            }
        }
        assert(kept[id] == graph[id]);
        assert forall|j: int| 0 <= j < graph[id].regions.len() implies results(
            kept,
            (#[trigger] graph[id].regions[j]).end,
        ) == results(graph, graph[id].regions[j].end) by {
            let end = graph[id].regions[j].end;
            let at = graph[id].links.len() + 2 * j + 1;
            assert(graph[id].dependencies()[at] == end);
            assert(graph.dom().contains(graph[id].dependencies()[at]));
            assert(depends(graph, id, end));
            assert(depends(relaxed, id, end));
            assert(post_order(relaxed, roots).contains(id));
            assert(kept.dom().contains(end));
            assert(!found.contains(end)) by {
                lemma_successors_of(graph, order, id, end);
                if reads(graph[end], id) {
                    let k = choose|k: int|
                        0 <= k < graph[end].links.len() && (#[trigger] graph[end].links[k]).node
                            == id;
                    assert(graph[end].dependencies()[k] == id);
                    assert(depends(graph, end, id));
                }
            }
        }
        lemma_maps_same(graph, kept, id);
        assert forall|node: Id, k: int|
            kept.dom().contains(node) && 0 <= k < kept[node].links.len() implies !hit(
            #[trigger] kept[node].links[k],
            id,
            answer,
        ) by {
            let link = graph[node].links[k];
            assert(post_order(relaxed, roots).contains(node));
            lemma_emits_reachable(relaxed, roots, node);
            let path = choose|path: Seq<Id>|
                connects(relaxed, path) && roots.contains(path[0]) && path.last() == node;
            lemma_reach_shrinks(graph, found, id, answer, roots, path, path.len() - 1);
            let chain = choose|chain: Seq<Id>|
                connects(graph, chain) && roots.contains(chain[0]) && chain.last() == node;
            let at = choose|at: int| 0 <= at < roots.len() && roots[at] == chain[0];
            assert(graph.dom().contains(roots[at]));
            lemma_reachable_along(graph, first, chain, chain.len() - 1);
            lemma_emits_reachable(graph, first, node);
            lemma_successors_of(graph, order, id, node);
            if found.contains(node) {
                assert(kept[node].links[k] == rewire_link(link, id, answer));
            } else {
                assert(kept[node].links[k] == link);
                if link.node == id {
                    assert(reads(graph[node], id));
                }
            }
        }
        lemma_redone_nothing(kept, later, id, answer);
    }
}

/// Relaxation is idempotent once a sweep has run from the roots from which
/// the successors were found: relaxing the outputs of the node again
/// replaces no link, whatever successors it is given.
pub proof fn lemma_relax_twice(graph: Map<Id, Shape>, roots: Seq<Id>, id: Id, later: Seq<Id>)
    requires
        graph.dom().finite(),
        sound(graph),
        maps_of(graph, id) is Some,
    ensures
        ({
            let found = successors_of(graph, post_order(graph, roots), id);
            let relaxed = redone(graph, found, id, lookup(maps_of(graph, id)->0)).0;
            let kept = swept(relaxed, roots);
            maps_of(kept, id) is Some ==> redone(kept, later, id, lookup(maps_of(kept, id)->0)) == (
                kept,
                0nat,
            )
        }),
{
    assert forall|i: int|
        0 <= i < roots.len() && graph.dom().contains(#[trigger] roots[i]) implies reachable(
        graph,
        roots,
        roots[i],
    ) by {
        let alone = seq![roots[i]];
        assert(connects(graph, alone));
        assert(roots.contains(alone[0]));
        assert(alone.last() == roots[i]);
    }
    lemma_relax_after_sweep(graph, roots, roots, id, later);
}

/// After a redirection whose replacements read from nodes that the old
/// producer depends on, the graph names no key that it did not name before:
/// a tidy store stays tidy.
pub proof fn lemma_redone_names(
    graph: Map<Id, Shape>,
    list: Seq<Id>,
    from: Id,
    answer: spec_fn(u16) -> Option<Link>,
    key: Id,
)
    requires
        settled(from, answer),
        inherited(graph, from, answer),
        named(redone(graph, list, from, answer).0, key),
    ensures
        named(graph, key),
{
    lemma_redone(graph, list, from, answer);
    let after = redone(graph, list, from, answer).0;
    let (id, i) = choose|id: Id, i: int|
        after.dom().contains(id) && 0 <= i < after[id].dependencies().len()
            && #[trigger] after[id].dependencies()[i] == key;
    let old = graph[id].dependencies();
    if old[i] != key {
        let link = graph[id].links[i];
        assert(answer(link.port) is Some);
        assert(depends(graph, from, key));
        let j = choose|j: int|
            0 <= j < graph[from].dependencies().len() && graph[from].dependencies()[j] == key;
        assert(graph[from].dependencies()[j] == key);
    } else {
        assert(graph[id].dependencies()[i] == key);
    }
}

/// Along a chain of dependencies the rank does not rise.
proof fn lemma_rank_along(
    graph: Map<Id, Shape>,
    rank: spec_fn(Id) -> nat,
    path: Seq<Id>,
    upto: int,
)
    requires
        ranked(graph, rank),
        connects(graph, path),
        0 <= upto < path.len(),
    ensures
        rank(path[upto]) <= rank(path[0]),
    decreases upto,
{
    if upto > 0 {
        lemma_rank_along(graph, rank, path, upto - 1);
        assert(depends(graph, path[upto - 1], path[upto]));
    }
}

/// Moving the links that read from a node over to another node makes no
/// cycle, if there was none and the other node does not depend, directly or
/// through a chain, on a node whose links are moved.
pub proof fn lemma_in_place_acyclic(graph: Map<Id, Shape>, list: Seq<Id>, from: Id, to: Id)
    requires
        acyclic(graph),
        forall|reader: Id|
            list.contains(reader) && graph.dom().contains(reader) && reads(graph[reader], from)
                ==> !reachable(graph, seq![to], reader),
    ensures
        acyclic(redone(graph, list, from, in_place(to)).0),
{
    let answer = in_place(to);
    let after = redone(graph, list, from, answer).0;
    if to == from {
        lemma_in_place_same(graph, list, from);
    } else {
        let rank = choose|rank: spec_fn(Id) -> nat| ranked(graph, rank);
        assert forall|port: u16| #[trigger] answer(port) is Some implies !hit(
            answer(port)->0,
            from,
            answer,
        ) by {}
        lemma_redone(graph, list, from, answer);
        let lifted = |x: Id|
            if reachable(graph, seq![to], x) {
                rank(x)
            } else {
                (rank(x) + rank(to) + 1) as nat
            };
        assert forall|x: Id| #[trigger] reachable(graph, seq![to], x) implies rank(x) <= rank(to) by {
            let path = choose|path: Seq<Id>|
                connects(graph, path) && seq![to].contains(path[0]) && path.last() == x;
            lemma_rank_along(graph, rank, path, path.len() - 1);
        }
        assert forall|a: Id, b: Id| depends(after, a, b) implies lifted(b) < lifted(a) by {
            let new = after[a].dependencies();
            let old = graph[a].dependencies();
            let i = choose|i: int| 0 <= i < new.len() && new[i] == b;
            if old[i] == b {
                assert(depends(graph, a, b));
                if reachable(graph, seq![to], a) {
                    lemma_reachable_step(graph, seq![to], a, b);
                }
            } else {
                let link = graph[a].links[i];
                assert(list.contains(a));
                assert(link.node == from);
                assert(reads(graph[a], from));
                assert(b == to);
                let alone = seq![to];
                assert(connects(graph, alone));
                assert(alone.contains(alone[0]));
                assert(alone.last() == to);
                assert(reachable(graph, alone, to));
            }
        }
        assert(ranked(after, lifted));
    }
}

} // verus!
