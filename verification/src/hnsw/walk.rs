//! What a search has seen when it ends: it leaves out no neighbour of a result that is
//! better than its results.
use crate::bits::single_rank;
use crate::hnsw::breadth::{
    best_seen, in_item_order, lemma_considered_best, lemma_items_compare, lemma_placed_in_order,
};
use crate::hnsw::laws::{lemma_by_rank_descends, lemma_greedy_in_range};
use crate::hnsw::model::{
    better_flags, closest_of, considered, considered_all, descended, expanded, greedy, item_better,
    item_nodes, item_of, item_placed, kept, layer_search, lemma_closest_of, lemma_fewer_betters,
    lemma_links_in_range, lemma_marks_bound, lemma_marks_update, links, marks, node_rank,
    node_valid, valid, walk_from, walk_over, walked, GraphView, Item, Walk,
};
use crate::metric::Kernel;
use crate::ranking::{better, lemma_better_total, lemma_better_transitive};
use vstd::prelude::*;

verus! {

/// All neighbours of a node have been seen.
spec fn looked_round(g: GraphView, layer: int, walk: Walk, x: int) -> bool {
    forall|j: int|
        0 <= j < links(g, x, layer).len() ==> walk.visited[#[trigger] links(
            g,
            x,
            layer,
        )[j] as int]
}

/// Every seen node but one waits to be expanded, has been expanded, or is worse than
/// enough results.
spec fn pursued<K: Kernel>(
    kernel: K,
    g: GraphView,
    query: Seq<u32>,
    ef: usize,
    layer: int,
    walk: Walk,
    but: int,
) -> bool {
    &&& best_seen(kernel, g, query, ef, walk)
    &&& in_item_order(walk.frontier)
    &&& forall|i: int|
        0 <= i < walk.frontier.len() ==> {
            &&& walk.visited[(#[trigger] walk.frontier[i]).index as int]
            &&& walk.frontier[i] == item_of(kernel, g, query, walk.frontier[i].index as int)
        }
    &&& forall|x: int|
        0 <= x < g.nodes.len() && x != but && #[trigger] walk.visited[x] ==> {
            ||| walk.frontier.contains(item_of(kernel, g, query, x))
            ||| walk.results.len() == ef && item_better(
                walk.results.last(),
                item_of(kernel, g, query, x),
            )
            ||| looked_round(g, layer, walk, x)
        }
}

proof fn lemma_considered_pursued<K: Kernel>(
    kernel: K,
    g: GraphView,
    query: Seq<u32>,
    ef: usize,
    layer: int,
    walk: Walk,
    node: usize,
    but: int,
)
    requires
        valid(g),
        g.nodes.len() <= usize::MAX,
        ef >= 1,
        pursued(kernel, g, query, ef, layer, walk, but),
        walk.visited[but],
        node < g.nodes.len(),
    ensures
        ({
            let after = considered(kernel, g, query, ef, walk, node);
            &&& pursued(kernel, g, query, ef, layer, after, but)
            &&& after.visited[node as int]
            &&& forall|x: int|
                0 <= x < g.nodes.len() && #[trigger] walk.visited[x] ==> after.visited[x]
            &&& after.frontier.len() - marks(after.visited) <= walk.frontier.len() - marks(
                walk.visited,
            )
        }),
{
    let after = considered(kernel, g, query, ef, walk, node);
    lemma_considered_best(kernel, g, query, ef, walk, node);
    if !walk.visited[node as int] {
        let item = item_of(kernel, g, query, node as int);
        assert(item.index == node);
        lemma_marks_update(walk.visited, node as int);
        let old = walk.results;
        let new = after.results;
        assert forall|i: int| 0 <= i < old.len() implies (#[trigger] old[i]).index
            != item.index by {
            assert(walk.visited[old[i].index as int]);
        }
        assert forall|i: int| 0 <= i < walk.frontier.len() implies (
        #[trigger] walk.frontier[i]).index != item.index by {
            assert(walk.visited[walk.frontier[i].index as int]);
        }
        lemma_placed_in_order(old, item);
        lemma_placed_in_order(walk.frontier, item);
        let longer = item_placed(old, item);
        let placed = old.len() < ef || item_better(item, old.last());
        if !placed {
            lemma_items_compare(old.last(), item);
        }
        assert forall|i: int| 0 <= i < after.frontier.len() implies {
            &&& after.visited[(#[trigger] after.frontier[i]).index as int]
            &&& after.frontier[i] == item_of(kernel, g, query, after.frontier[i].index as int)
        } by {
            if after.frontier[i] != item {
                assert(walk.frontier.contains(after.frontier[i]));
                let x = choose|x: int|
                    0 <= x < walk.frontier.len() && walk.frontier[x] == after.frontier[i];
                assert(walk.visited[walk.frontier[x].index as int]);
            }
        }
        assert forall|x: int|
            0 <= x < g.nodes.len() && x != but && #[trigger] after.visited[x] implies {
            ||| after.frontier.contains(item_of(kernel, g, query, x))
            ||| after.results.len() == ef && item_better(
                after.results.last(),
                item_of(kernel, g, query, x),
            )
            ||| looked_round(g, layer, after, x)
        } by {
            let here = item_of(kernel, g, query, x);
            if x != node {
                assert(walk.visited[x]);
                if walk.frontier.contains(here) {
                    assert(after.frontier.contains(here));
                } else if old.len() == ef && item_better(old.last(), here) {
                    if placed {
                        assert(longer.last() == old.last());
                        assert(new.last() == longer[ef - 1]);
                        assert(item_better(longer[ef - 1], longer[ef as int]));
                    }
                } else {
                    assert(looked_round(g, layer, walk, x));
                    assert(node_valid(g, x));
                    lemma_links_in_range(g, x, layer);
                    assert forall|j: int| 0 <= j < links(g, x, layer).len() implies after.visited[
                    #[trigger] links(g, x, layer)[j] as int] by {
                        assert(links(g, x, layer)[j] < g.nodes.len());
                        assert(walk.visited[links(g, x, layer)[j] as int]);
                    }
                }
            }
        }
    }
}

proof fn lemma_considered_all_pursued<K: Kernel>(
    kernel: K,
    g: GraphView,
    query: Seq<u32>,
    ef: usize,
    layer: int,
    walk: Walk,
    nodes: Seq<usize>,
    but: int,
)
    requires
        valid(g),
        g.nodes.len() <= usize::MAX,
        ef >= 1,
        0 <= but < g.nodes.len(),
        pursued(kernel, g, query, ef, layer, walk, but),
        walk.visited[but],
        forall|i: int| 0 <= i < nodes.len() ==> (#[trigger] nodes[i]) < g.nodes.len(),
    ensures
        ({
            let after = considered_all(kernel, g, query, ef, walk, nodes);
            &&& pursued(kernel, g, query, ef, layer, after, but)
            &&& after.visited[but]
            &&& forall|i: int| 0 <= i < nodes.len() ==> after.visited[#[trigger] nodes[i] as int]
            &&& after.frontier.len() - marks(after.visited) <= walk.frontier.len() - marks(
                walk.visited,
            )
        }),
    decreases nodes.len(),
{
    if nodes.len() > 0 {
        let rest = nodes.drop_last();
        assert forall|i: int| 0 <= i < rest.len() implies (#[trigger] rest[i]) < g.nodes.len() by {
            assert(nodes[i] < g.nodes.len());
        }
        lemma_considered_all_pursued(kernel, g, query, ef, layer, walk, rest, but);
        let before = considered_all(kernel, g, query, ef, walk, rest);
        assert(nodes[nodes.len() - 1] < g.nodes.len());
        lemma_considered_pursued(kernel, g, query, ef, layer, before, nodes.last(), but);
        let after = considered_all(kernel, g, query, ef, walk, nodes);
        assert forall|i: int| 0 <= i < nodes.len() implies after.visited[
            #[trigger] nodes[i] as int] by {
            assert(nodes[i] < g.nodes.len());
            if i < rest.len() {
                assert(before.visited[rest[i] as int]);
            }
        }
    }
}

proof fn lemma_walked_pursued<K: Kernel>(
    kernel: K,
    g: GraphView,
    query: Seq<u32>,
    ef: usize,
    layer: int,
    walk: Walk,
    steps: nat,
)
    requires
        valid(g),
        g.nodes.len() <= usize::MAX,
        ef >= 1,
        pursued(kernel, g, query, ef, layer, walk, -1),
        g.nodes.len() - steps + walk.frontier.len() <= marks(walk.visited),
    ensures
        ({
            let after = walked(kernel, g, query, ef, layer, walk, steps);
            &&& pursued(kernel, g, query, ef, layer, after, -1)
            &&& walk_over(ef, after)
            &&& forall|x: int|
                0 <= x < g.nodes.len() && #[trigger] walk.visited[x] ==> after.visited[x]
        }),
    decreases steps,
{
    lemma_marks_bound(walk.visited);
    if steps > 0 && !walk_over(ef, walk) {
        let rest = Walk { frontier: walk.frontier.drop_first(), ..walk };
        let node = walk.frontier[0].index as int;
        assert(walk.visited[walk.frontier[0].index as int]);
        assert(walk.frontier[0].index < g.nodes.len());
        assert(pursued(kernel, g, query, ef, layer, rest, node)) by {
            assert forall|i: int| 0 <= i < rest.frontier.len() implies (
            #[trigger] rest.frontier[i]).index < g.nodes.len() && rest.visited[rest.frontier[i].index as int]
                && rest.frontier[i] == item_of(
                kernel,
                g,
                query,
                rest.frontier[i].index as int,
            ) by {
                assert(rest.frontier[i] == walk.frontier[i + 1]);
            }
            assert forall|i: int, j: int| 0 <= i < j < rest.frontier.len() implies item_better(
                #[trigger] rest.frontier[i],
                #[trigger] rest.frontier[j],
            ) by {
                assert(item_better(walk.frontier[i + 1], walk.frontier[j + 1]));
            }
            assert forall|x: int| 0 <= x < g.nodes.len() && #[trigger] rest.visited[x] implies
                item_nodes(rest.results).contains(x as usize) || (rest.results.len() == ef && ef > 0
                && item_better(rest.results.last(), item_of(kernel, g, query, x))) by {
                assert(walk.visited[x]);
            }
            assert forall|x: int|
                0 <= x < g.nodes.len() && x != node && #[trigger] rest.visited[x] implies {
                ||| rest.frontier.contains(item_of(kernel, g, query, x))
                ||| rest.results.len() == ef && item_better(
                    rest.results.last(),
                    item_of(kernel, g, query, x),
                )
                ||| looked_round(g, layer, rest, x)
            } by {
                let here = item_of(kernel, g, query, x);
                assert(walk.visited[x]);
                if walk.frontier.contains(here) {
                    let i = choose|i: int| 0 <= i < walk.frontier.len() && walk.frontier[i] == here;
                    assert(here.index == x);
                    assert(rest.frontier[i - 1] == here);
                } else if looked_round(g, layer, walk, x) {
                    assert(looked_round(g, layer, rest, x));
                }
            }
        }
        assert(node_valid(g, node));
        lemma_links_in_range(g, node, layer);
        let around = links(g, node, layer);
        lemma_considered_all_pursued(kernel, g, query, ef, layer, rest, around, node);
        let next = expanded(kernel, g, query, ef, layer, walk);
        assert(looked_round(g, layer, next, node));
        assert(pursued(kernel, g, query, ef, layer, next, -1));
        lemma_all_stay_seen(kernel, g, query, ef, rest, around);
        lemma_walked_pursued(kernel, g, query, ef, layer, next, (steps - 1) as nat);
        let after = walked(kernel, g, query, ef, layer, walk, steps);
        assert forall|x: int| 0 <= x < g.nodes.len() && #[trigger] walk.visited[x] implies
            after.visited[x] by {
            assert(rest.visited[x]);
            assert(next.visited[x]);
        }
    }
}

proof fn lemma_all_stay_seen<K: Kernel>(
    kernel: K,
    g: GraphView,
    query: Seq<u32>,
    ef: usize,
    walk: Walk,
    nodes: Seq<usize>,
)
    requires
        walk.visited.len() == g.nodes.len(),
        forall|i: int| 0 <= i < nodes.len() ==> (#[trigger] nodes[i]) < g.nodes.len(),
    ensures
        considered_all(kernel, g, query, ef, walk, nodes).visited.len() == g.nodes.len(),
        forall|x: int|
            0 <= x < g.nodes.len() && #[trigger] walk.visited[x] ==> considered_all(
                kernel,
                g,
                query,
                ef,
                walk,
                nodes,
            ).visited[x],
    decreases nodes.len(),
{
    if nodes.len() > 0 {
        let rest = nodes.drop_last();
        assert forall|i: int| 0 <= i < rest.len() implies (#[trigger] rest[i]) < g.nodes.len() by {
            assert(nodes[i] < g.nodes.len());
        }
        lemma_all_stay_seen(kernel, g, query, ef, walk, rest);
        assert(nodes[nodes.len() - 1] < g.nodes.len());
    }
}

/// A search of a layer overlooks nothing that it could reach in one step: its results are
/// nodes, at most as many as its breadth, and the node that it starts from and every
/// neighbour of a result is a result itself, unless there are as many results as the
/// breadth allows and none of them scores lower.
pub proof fn law_search_overlooks_no_neighbour<K: Kernel>(
    kernel: K,
    g: GraphView,
    query: Seq<u32>,
    entry: int,
    ef: usize,
    layer: int,
    y: int,
)
    requires
        valid(g),
        0 <= entry < g.nodes.len() <= usize::MAX,
        ef >= 1,
        0 <= y < g.nodes.len(),
    ensures
        ({
            let found = layer_search(kernel, g, query, entry, ef, layer);
            &&& found.len() <= ef
            &&& forall|i: int| 0 <= i < found.len() ==> (#[trigger] found[i]) < g.nodes.len()
            &&& (y == entry || exists|i: int|
                0 <= i < found.len() && links(g, #[trigger] found[i] as int, layer).contains(
                    y as usize,
                )) ==> found.contains(y as usize) || (found.len() == ef && forall|i: int|
                0 <= i < found.len() ==> single_rank(node_rank(kernel, g, query, y).score)
                    <= single_rank(
                    node_rank(kernel, g, query, #[trigger] found[i] as int).score,
                ))
        }),
{
    let start = walk_from(kernel, g, query, entry);
    let item = item_of(kernel, g, query, entry);
    assert(item.index == entry);
    assert(best_seen(kernel, g, query, ef, start)) by {
        assert(item_nodes(start.results)[0] == entry as usize);
    }
    assert(pursued(kernel, g, query, ef, layer, start, -1)) by {
        assert(start.frontier[0] == item);
        assert(start.frontier.contains(item));
    }
    lemma_one_mark(g.nodes.len(), entry);
    assert(start.visited =~= Seq::new(g.nodes.len(), |i: int| i == entry));
    lemma_walked_pursued(kernel, g, query, ef, layer, start, g.nodes.len());
    let last = walked(kernel, g, query, ef, layer, start, g.nodes.len());
    let results = last.results;
    let nodes = item_nodes(results);
    assert forall|i: int| 0 <= i < nodes.len() implies (#[trigger] nodes[i]) < g.nodes.len() by {
        assert(results[i].index < g.nodes.len());
    }
    assert forall|i: int, j: int| 0 <= i < j < nodes.len() implies (#[trigger] nodes[i]) != (
    #[trigger] nodes[j]) by {
        assert(results[i].index != results[j].index);
    }
    lemma_by_rank_descends(kernel, g, query, nodes);
    let found = layer_search(kernel, g, query, entry, ef, layer);
    assert forall|i: int| 0 <= i < found.len() implies (#[trigger] found[i]) < g.nodes.len()
        && nodes.contains(found[i]) by {
        assert(found.contains(found[i]));
        assert(nodes.contains(found[i]));
        let x = choose|x: int| 0 <= x < nodes.len() && nodes[x] == found[i];
        assert(nodes[x] < g.nodes.len());
    }
    if y == entry {
        assert(start.visited[y]);
    } else if exists|i: int|
        0 <= i < found.len() && links(g, #[trigger] found[i] as int, layer).contains(y as usize) {
        let i = choose|i: int|
            0 <= i < found.len() && links(g, #[trigger] found[i] as int, layer).contains(
                y as usize,
            );
        let x = found[i] as int;
        let here = item_of(kernel, g, query, x);
        let at = choose|at: int| 0 <= at < nodes.len() && nodes[at] == found[i];
        assert(results[at] == item_of(kernel, g, query, results[at].index as int));
        assert(results[at] == here);
        assert(last.visited[results[at].index as int]);
        let worst = results.last();
        if at < results.len() - 1 {
            assert(item_better(results[at], results[results.len() - 1]));
        }
        if last.frontier.contains(here) {
            let f = choose|f: int| 0 <= f < last.frontier.len() && last.frontier[f] == here;
            if f > 0 {
                assert(item_better(last.frontier[0], last.frontier[f]));
            }
        }
        assert(looked_round(g, layer, last, x));
        let list = links(g, x, layer);
        let j = choose|j: int| 0 <= j < list.len() && list[j] == y as usize;
        assert(last.visited[links(g, x, layer)[j] as int]);
    }
    if last.visited[y] && !found.contains(y as usize) {
        assert(!nodes.contains(y as usize));
        let worst = results.last();
        assert(item_better(worst, item_of(kernel, g, query, y)));
        assert forall|i: int| 0 <= i < found.len() implies single_rank(
            node_rank(kernel, g, query, y).score,
        ) <= single_rank(node_rank(kernel, g, query, #[trigger] found[i] as int).score) by {
            assert(nodes.contains(found[i]));
            let at = choose|at: int| 0 <= at < nodes.len() && nodes[at] == found[i];
            assert(results[at] == item_of(kernel, g, query, results[at].index as int));
            if at < results.len() - 1 {
                assert(item_better(results[at], results[results.len() - 1]));
            }
        }
    }
}

proof fn lemma_one_mark(n: nat, at: int)
    requires
        0 <= at < n,
    ensures
        marks(Seq::new(n, |i: int| i == at)) >= 1,
{
    let none = Seq::new(n, |i: int| false);
    lemma_marks_update(none, at);
    assert(none.update(at, true) =~= Seq::new(n, |i: int| i == at));
}

/// The best of a node and some others is none of which another is better.
proof fn lemma_none_closer<K: Kernel>(
    kernel: K,
    g: GraphView,
    query: Seq<u32>,
    node: int,
    others: Seq<usize>,
)
    ensures
        ({
            let best = closest_of(kernel, g, query, node, others);
            &&& !better(node_rank(kernel, g, query, node), node_rank(kernel, g, query, best))
            &&& forall|j: int|
                0 <= j < others.len() ==> !better(
                    node_rank(kernel, g, query, #[trigger] others[j] as int),
                    node_rank(kernel, g, query, best),
                )
        }),
    decreases others.len(),
{
    let best = closest_of(kernel, g, query, node, others);
    lemma_better_total(node_rank(kernel, g, query, best), node_rank(kernel, g, query, best));
    if others.len() > 0 {
        let rest = others.drop_last();
        lemma_none_closer(kernel, g, query, node, rest);
        let before = closest_of(kernel, g, query, node, rest);
        let end = others[others.len() - 1] as int;
        lemma_better_total(node_rank(kernel, g, query, end), node_rank(kernel, g, query, before));
        assert forall|j: int| 0 <= j < others.len() implies !better(
            node_rank(kernel, g, query, #[trigger] others[j] as int),
            node_rank(kernel, g, query, best),
        ) by {
            if j < rest.len() {
                assert(rest[j] == others[j]);
                if best == end && better(
                    node_rank(kernel, g, query, others[j] as int),
                    node_rank(kernel, g, query, end),
                ) && better(
                    node_rank(kernel, g, query, end),
                    node_rank(kernel, g, query, before),
                ) {
                    lemma_better_transitive(
                        node_rank(kernel, g, query, others[j] as int),
                        node_rank(kernel, g, query, end),
                        node_rank(kernel, g, query, before),
                    );
                }
            }
        }
        if better(node_rank(kernel, g, query, end), node_rank(kernel, g, query, before)) && better(
            node_rank(kernel, g, query, node),
            node_rank(kernel, g, query, end),
        ) {
            lemma_better_transitive(
                node_rank(kernel, g, query, node),
                node_rank(kernel, g, query, end),
                node_rank(kernel, g, query, before),
            );
        }
    }
}

/// A climb through a layer ends at a node that is no worse than the one where it began,
/// and none of whose neighbours in that layer is better.
pub proof fn law_climbs_end_at_a_summit<K: Kernel>(
    kernel: K,
    g: GraphView,
    query: Seq<u32>,
    node: int,
    layer: int,
)
    requires
        valid(g),
        0 <= node < g.nodes.len(),
    ensures
        ({
            let end = greedy(kernel, g, query, node, layer, g.nodes.len());
            &&& 0 <= end < g.nodes.len()
            &&& !better(node_rank(kernel, g, query, node), node_rank(kernel, g, query, end))
            &&& forall|j: int|
                0 <= j < links(g, end, layer).len() ==> !better(
                    node_rank(kernel, g, query, #[trigger] links(g, end, layer)[j] as int),
                    node_rank(kernel, g, query, end),
                )
        }),
{
    lemma_marks_bound(better_flags(kernel, g, query, node));
    lemma_greedy_in_range(kernel, g, query, node, layer, g.nodes.len());
    lemma_summit(kernel, g, query, node, layer, g.nodes.len());
}

proof fn lemma_summit<K: Kernel>(
    kernel: K,
    g: GraphView,
    query: Seq<u32>,
    node: int,
    layer: int,
    steps: nat,
)
    requires
        valid(g),
        0 <= node < g.nodes.len(),
        marks(better_flags(kernel, g, query, node)) <= steps,
    ensures
        ({
            let end = greedy(kernel, g, query, node, layer, steps);
            &&& !better(node_rank(kernel, g, query, node), node_rank(kernel, g, query, end))
            &&& forall|j: int|
                0 <= j < links(g, end, layer).len() ==> !better(
                    node_rank(kernel, g, query, #[trigger] links(g, end, layer)[j] as int),
                    node_rank(kernel, g, query, end),
                )
        }),
    decreases steps,
{
    let list = links(g, node, layer);
    let best = closest_of(kernel, g, query, node, list);
    lemma_closest_of(kernel, g, query, node, list);
    lemma_none_closer(kernel, g, query, node, list);
    assert(node_valid(g, node));
    lemma_links_in_range(g, node, layer);
    if best != node {
        let j = choose|j: int| 0 <= j < list.len() && #[trigger] list[j] == best;
        lemma_fewer_betters(kernel, g, query, node, best);
        assert(steps > 0);
        lemma_summit(kernel, g, query, best, layer, (steps - 1) as nat);
        let end = greedy(kernel, g, query, node, layer, steps);
        let a = node_rank(kernel, g, query, node);
        let b = node_rank(kernel, g, query, best);
        let c = node_rank(kernel, g, query, end);
        lemma_better_total(a, b);
        if better(a, c) {
            lemma_better_transitive(b, a, c);
        }
    }
}

/// A node keeps the closest of the neighbours that it is offered: all of them where there
/// are at most `m`, and `m` of them otherwise, of which none is farther away than one that
/// is left out.
pub proof fn law_nodes_keep_the_closest<K: Kernel>(
    kernel: K,
    g: GraphView,
    node: int,
    list: Seq<usize>,
    x: usize,
    y: usize,
)
    requires
        valid(g),
        list.no_duplicates(),
        forall|i: int| 0 <= i < list.len() ==> (#[trigger] list[i]) < g.nodes.len(),
    ensures
        ({
            let left = kept(kernel, g, node, list);
            let near = g.nodes[node].vector;
            &&& left.len() == if list.len() <= g.config.m {
                list.len()
            } else {
                g.config.m as nat
            }
            &&& left.contains(x) ==> list.contains(x)
            &&& list.len() <= g.config.m && list.contains(x) ==> left.contains(x)
            &&& left.contains(x) && list.contains(y) && !left.contains(y) ==> better(
                node_rank(kernel, g, near, x as int),
                node_rank(kernel, g, near, y as int),
            )
        }),
{
    let near = g.nodes[node].vector;
    let order = crate::hnsw::model::by_rank(kernel, g, near, list);
    lemma_by_rank_descends(kernel, g, near, list);
    let left = kept(kernel, g, node, list);
    if list.len() > g.config.m {
        let ranks = crate::hnsw::laws::node_ranks(kernel, g, near, order);
        if left.contains(x) {
            let i = choose|i: int| 0 <= i < left.len() && left[i] == x;
            assert(order[i] == x);
            assert(order.contains(x));
            if list.contains(y) && !left.contains(y) {
                assert(order.contains(y));
                let j = choose|j: int| 0 <= j < order.len() && order[j] == y;
                if j < left.len() {
                    assert(left[j] == y);
                }
                assert(better(ranks[i], ranks[j]));
            }
        }
    }
}

/// A descent to a layer ends at a node that is no worse than the one where it began, and
/// none of whose neighbours in the layer above is better: each layer on the way is climbed
/// to a summit.
pub proof fn law_descents_end_at_a_summit<K: Kernel>(
    kernel: K,
    g: GraphView,
    query: Seq<u32>,
    node: int,
    high: int,
    low: int,
)
    requires
        valid(g),
        0 <= node < g.nodes.len(),
        low < high,
    ensures
        ({
            let end = descended(kernel, g, query, node, high, low);
            &&& 0 <= end < g.nodes.len()
            &&& !better(node_rank(kernel, g, query, node), node_rank(kernel, g, query, end))
            &&& forall|j: int|
                0 <= j < links(g, end, low + 1).len() ==> !better(
                    node_rank(kernel, g, query, #[trigger] links(g, end, low + 1)[j] as int),
                    node_rank(kernel, g, query, end),
                )
        }),
    decreases high - low,
{
    let next = greedy(kernel, g, query, node, high, g.nodes.len());
    law_climbs_end_at_a_summit(kernel, g, query, node, high);
    if high - 1 > low {
        law_descents_end_at_a_summit(kernel, g, query, next, high - 1, low);
        let end = descended(kernel, g, query, node, high, low);
        let a = node_rank(kernel, g, query, node);
        let b = node_rank(kernel, g, query, next);
        let c = node_rank(kernel, g, query, end);
        lemma_better_total(a, b);
        lemma_better_total(b, c);
        if better(a, c) && c != b && a != b {
            lemma_better_transitive(b, a, c);
        }
    } else {
        assert(descended(kernel, g, query, next, high - 1, low) == next);
    }
}

} // verus!
