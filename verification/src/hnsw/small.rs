//! Why a small graph is searched exactly.
use crate::hnsw::growth::{
    growing, joins, lemma_connected_all, lemma_descended_joins, lemma_grown, lemma_linked,
    lemma_relinked, lemma_with_node, same_shape,
};
use crate::hnsw::laws::{
    lemma_by_rank_descends, lemma_considered_sound, lemma_descended_in_range, node_ranks,
    walk_sound,
};
use crate::hnsw::model::{
    at_most, connected, connected_all, considered, considered_all, descended, expanded, grown,
    item_better, item_nodes, item_of, item_placed, items_satisfy, kept, layer_search, layered, lead,
    lemma_lead, lemma_links_in_range, level_of, linked, linked_down, links, links_valid, node_rank,
    node_valid, nodes_satisfy, relinked, searched, valid, walk_from, walk_over, walked, with_node,
    GraphView, Item, Walk,
};
use crate::hnsw::graph_hits;
use crate::metric::Kernel;
use crate::ranking::{best_of, better, descending, Ranked};
use vstd::prelude::*;

verus! {

/// A node links to another in a layer.
pub open spec fn linked_to(g: GraphView, i: int, layer: int, j: int) -> bool {
    links(g, i, layer).contains(j as usize)
}

/// In every layer each node links to each other node that takes part.
pub open spec fn complete(g: GraphView) -> bool {
    forall|i: int, layer: int, j: int|
        0 <= i < g.nodes.len() && 0 <= j < g.nodes.len() && i != j && 0 <= layer
            < g.nodes[i].neighbors.len() && layer < g.nodes[j].neighbors.len()
            ==> #[trigger] linked_to(g, i, layer, j)
}

/// No node links to another twice in a layer.
pub open spec fn distinct_links(g: GraphView) -> bool {
    forall|i: int, layer: int|
        0 <= i < g.nodes.len() ==> (#[trigger] links(g, i, layer)).no_duplicates()
}

/// No node takes part in a layer above the highest level.
pub open spec fn capped(g: GraphView) -> bool {
    forall|i: int|
        0 <= i < g.nodes.len() ==> (#[trigger] g.nodes[i]).neighbors.len() <= g.max_level + 1
}

/// A complete graph as it comes from building: links are different, and no node stands
/// above the highest level.
pub open spec fn tight(g: GraphView) -> bool {
    complete(g) && distinct_links(g) && capped(g)
}

/// Different numbers below a bound are no more than the bound.
pub(crate) proof fn lemma_pigeons(s: Seq<usize>, bound: nat)
    requires
        s.no_duplicates(),
        forall|i: int| 0 <= i < s.len() ==> (#[trigger] s[i]) < bound,
    ensures
        s.len() <= bound,
{
    let t = Seq::new(s.len(), |i: int| s[i] as int);
    assert(t.no_duplicates()) by {
        assert forall|i: int, j: int|
            0 <= i < t.len() && 0 <= j < t.len() && i != j implies t[i] != t[j] by {
            assert(s[i] != s[j]);
        }
    }
    t.unique_seq_to_set();
    let range = vstd::set_lib::set_int_range(0, bound as int);
    vstd::set_lib::lemma_int_range(0, bound as int);
    assert forall|x: int| t.to_set().contains(x) implies range.contains(x) by {
        let i = choose|i: int| 0 <= i < t.len() && t[i] == x;
        assert(s[i] < bound);
    }
    vstd::set_lib::lemma_len_subset(t.to_set(), range);
}

/// A search state in which everything seen is among the results.
spec fn keeps_all<K: Kernel>(
    kernel: K,
    g: GraphView,
    query: Seq<u32>,
    walk: Walk,
    p: spec_fn(usize) -> bool,
) -> bool {
    &&& walk_sound(kernel, g, query, walk)
    &&& items_satisfy(walk.results, p)
    &&& items_satisfy(walk.frontier, p)
    &&& forall|x: usize|
        x < g.nodes.len() && #[trigger] walk.visited[x as int] ==> item_nodes(
            walk.results,
        ).contains(x)
}

proof fn lemma_placed_nodes(items: Seq<Item>, item: Item)
    ensures
        item_placed(items, item).len() == items.len() + 1,
        item_nodes(item_placed(items, item)).contains(item.index),
        forall|x: usize| #[trigger]
            item_nodes(items).contains(x) ==> item_nodes(item_placed(items, item)).contains(x),
{
    let ahead = |other: Item| item_better(other, item);
    lemma_lead(items, ahead);
    let at = lead(items, ahead);
    let after = item_placed(items, item);
    assert(item_nodes(after)[at] == item.index);
    assert forall|x: usize| #[trigger] item_nodes(items).contains(x) implies item_nodes(
        after,
    ).contains(x) by {
        let i = choose|i: int| 0 <= i < items.len() && item_nodes(items)[i] == x;
        if i < at {
            assert(item_nodes(after)[i] == x);
        } else {
            assert(item_nodes(after)[i + 1] == x);
        }
    }
}

proof fn lemma_considered_keeps<K: Kernel>(
    kernel: K,
    g: GraphView,
    query: Seq<u32>,
    ef: usize,
    walk: Walk,
    node: usize,
    p: spec_fn(usize) -> bool,
    bound: nat,
)
    requires
        g.nodes.len() <= usize::MAX,
        keeps_all(kernel, g, query, walk, p),
        forall|x: usize| #[trigger] p(x) ==> x < bound && x < g.nodes.len(),
        bound <= ef,
        p(node),
    ensures
        keeps_all(kernel, g, query, considered(kernel, g, query, ef, walk, node), p),
        considered(kernel, g, query, ef, walk, node).visited[node as int],
        forall|x: usize|
            x < g.nodes.len() && #[trigger] walk.visited[x as int] ==> considered(
                kernel,
                g,
                query,
                ef,
                walk,
                node,
            ).visited[x as int],
{
    lemma_considered_sound(kernel, g, query, ef, walk, node);
    let after = considered(kernel, g, query, ef, walk, node);
    if !walk.visited[node as int] {
        let item = item_of(kernel, g, query, node as int);
        assert(item.index == node);
        let more = item_nodes(walk.results).push(node);
        assert(more.no_duplicates()) by {
            assert forall|i: int, j: int|
                0 <= i < more.len() && 0 <= j < more.len() && i != j implies more[i]
                != more[j] by {
                let last = walk.results.len() as int;
                if i < last && j < last {
                    if i < j {
                        assert(walk.results[i].index != walk.results[j].index);
                    } else {
                        assert(walk.results[j].index != walk.results[i].index);
                    }
                } else if i < last {
                    assert(walk.visited[walk.results[i].index as int]);
                } else {
                    assert(walk.visited[walk.results[j].index as int]);
                }
            }
        }
        assert forall|i: int| 0 <= i < more.len() implies (#[trigger] more[i]) < bound by {
            if i < walk.results.len() {
                assert(p(walk.results[i].index));
            }
        }
        lemma_pigeons(more, bound);
        assert(walk.results.len() < ef);
        lemma_placed_nodes(walk.results, item);
        crate::hnsw::model::lemma_item_placed(walk.results, item);
        crate::hnsw::model::lemma_item_placed(walk.frontier, item);
        assert(items_satisfy(item_placed(walk.results, item), p));
        assert(items_satisfy(item_placed(walk.frontier, item), p));
        assert forall|x: usize| x < g.nodes.len() && #[trigger] after.visited[x as int] implies
            item_nodes(after.results).contains(x) by {
            if x != node {
                assert(walk.visited[x as int]);
                assert(item_nodes(walk.results).contains(x));
            }
        }
    }
}

proof fn lemma_considered_all_keeps<K: Kernel>(
    kernel: K,
    g: GraphView,
    query: Seq<u32>,
    ef: usize,
    walk: Walk,
    nodes: Seq<usize>,
    p: spec_fn(usize) -> bool,
    bound: nat,
)
    requires
        g.nodes.len() <= usize::MAX,
        keeps_all(kernel, g, query, walk, p),
        forall|x: usize| #[trigger] p(x) ==> x < bound && x < g.nodes.len(),
        bound <= ef,
        nodes_satisfy(nodes, p),
    ensures
        ({
            let after = considered_all(kernel, g, query, ef, walk, nodes);
            &&& keeps_all(kernel, g, query, after, p)
            &&& forall|x: usize|
                x < g.nodes.len() && #[trigger] walk.visited[x as int] ==> after.visited[x as int]
            &&& forall|i: int| 0 <= i < nodes.len() ==> after.visited[#[trigger] nodes[i] as int]
        }),
    decreases nodes.len(),
{
    if nodes.len() > 0 {
        let rest = nodes.drop_last();
        let last = nodes.len() - 1;
        assert forall|i: int| 0 <= i < rest.len() implies p(#[trigger] rest[i]) by {
            assert(p(nodes[i]));
        }
        lemma_considered_all_keeps(kernel, g, query, ef, walk, rest, p, bound);
        let before = considered_all(kernel, g, query, ef, walk, rest);
        assert(p(nodes[last]));
        lemma_considered_keeps(kernel, g, query, ef, before, nodes.last(), p, bound);
        let after = considered_all(kernel, g, query, ef, walk, nodes);
        assert forall|x: usize| x < g.nodes.len() && #[trigger] walk.visited[x as int] implies
            after.visited[x as int] by {
            assert(before.visited[x as int]);
        }
        assert forall|i: int| 0 <= i < nodes.len() implies after.visited[
            #[trigger] nodes[i] as int] by {
            assert(p(nodes[i]));
            if i < last {
                assert(before.visited[rest[i] as int]);
                let x = nodes[i];
                assert(before.visited[x as int]);
            }
        }
    }
}

proof fn lemma_walked_keeps<K: Kernel>(
    kernel: K,
    g: GraphView,
    query: Seq<u32>,
    ef: usize,
    layer: int,
    walk: Walk,
    steps: nat,
    p: spec_fn(usize) -> bool,
    bound: nat,
)
    requires
        g.nodes.len() <= usize::MAX,
        keeps_all(kernel, g, query, walk, p),
        forall|x: usize| #[trigger] p(x) ==> x < bound && x < g.nodes.len(),
        forall|x: usize| p(x) ==> nodes_satisfy(#[trigger] links(g, x as int, layer), p),
        bound <= ef,
    ensures
        ({
            let after = walked(kernel, g, query, ef, layer, walk, steps);
            &&& keeps_all(kernel, g, query, after, p)
            &&& forall|x: usize|
                x < g.nodes.len() && #[trigger] walk.visited[x as int] ==> after.visited[x as int]
        }),
    decreases steps,
{
    if steps > 0 && !walk_over(ef, walk) {
        let rest = Walk { frontier: walk.frontier.drop_first(), ..walk };
        let node = walk.frontier[0].index;
        assert(p(node));
        assert forall|i: int| 0 <= i < rest.frontier.len() implies p(
            (#[trigger] rest.frontier[i]).index,
        ) && rest.frontier[i].index < g.nodes.len() by {
            assert(rest.frontier[i] == walk.frontier[i + 1]);
        }
        assert(keeps_all(kernel, g, query, rest, p));
        lemma_considered_all_keeps(
            kernel,
            g,
            query,
            ef,
            rest,
            links(g, node as int, layer),
            p,
            bound,
        );
        let next = expanded(kernel, g, query, ef, layer, walk);
        lemma_walked_keeps(kernel, g, query, ef, layer, next, (steps - 1) as nat, p, bound);
        let after = walked(kernel, g, query, ef, layer, walk, steps);
        assert forall|x: usize| x < g.nodes.len() && #[trigger] walk.visited[x as int] implies
            after.visited[x as int] by {
            assert(rest.visited[x as int]);
            assert(next.visited[x as int]);
        }
    }
}

/// A search that is broad enough, among nodes that all link to each other, finds them
/// all, each once.
proof fn lemma_layer_search_finds_all<K: Kernel>(
    kernel: K,
    g: GraphView,
    query: Seq<u32>,
    entry: usize,
    ef: usize,
    layer: int,
    p: spec_fn(usize) -> bool,
    bound: nat,
)
    requires
        valid(g),
        g.nodes.len() <= usize::MAX,
        p(entry),
        forall|x: usize| #[trigger] p(x) ==> x < bound && x < g.nodes.len(),
        forall|x: usize| p(x) ==> nodes_satisfy(#[trigger] links(g, x as int, layer), p),
        forall|x: usize| #[trigger] p(x) && x != entry ==> links(g, entry as int, layer).contains(x),
        bound <= ef,
    ensures
        ({
            let found = layer_search(kernel, g, query, entry as int, ef, layer);
            &&& found.no_duplicates()
            &&& forall|x: usize| #[trigger] found.contains(x) <==> p(x)
            &&& found.len() <= bound
            &&& descending(node_ranks(kernel, g, query, found))
        }),
{
    let start = walk_from(kernel, g, query, entry as int);
    let item = item_of(kernel, g, query, entry as int);
    assert(p(entry));
    assert(item.index == entry);
    assert(keeps_all(kernel, g, query, start, p)) by {
        assert(item_nodes(start.results)[0] == entry);
    }
    assert(!walk_over(ef, start)) by {
        assert(start.results.last() == start.frontier[0]);
    }
    let first = Walk { frontier: start.frontier.drop_first(), ..start };
    assert(keeps_all(kernel, g, query, first, p));
    let around = links(g, entry as int, layer);
    lemma_considered_all_keeps(kernel, g, query, ef, first, around, p, bound);
    let next = expanded(kernel, g, query, ef, layer, start);
    let steps = (g.nodes.len() - 1) as nat;
    lemma_walked_keeps(kernel, g, query, ef, layer, next, steps, p, bound);
    let last = walked(kernel, g, query, ef, layer, start, g.nodes.len());
    assert(last == walked(kernel, g, query, ef, layer, next, steps));
    let results = last.results;
    let nodes = item_nodes(results);
    assert forall|x: usize| #[trigger] nodes.contains(x) <==> p(x) by {
        if nodes.contains(x) {
            let i = choose|i: int| 0 <= i < nodes.len() && nodes[i] == x;
            assert(p(results[i].index));
        }
        if p(x) {
            if x == entry {
                assert(first.visited[x as int]);
            } else {
                assert(around.contains(x));
                let i = choose|i: int| 0 <= i < around.len() && around[i] == x;
                assert(next.visited[around[i] as int]);
            }
            assert(next.visited[x as int]);
            assert(last.visited[x as int]);
        }
    }
    assert forall|i: int, j: int| 0 <= i < j < nodes.len() implies (#[trigger] nodes[i]) != (
    #[trigger] nodes[j]) by {
        assert(results[i].index != results[j].index);
    }
    assert forall|i: int| 0 <= i < nodes.len() implies (#[trigger] nodes[i]) < g.nodes.len()
        && nodes[i] < bound by {
        assert(p(results[i].index));
    }
    lemma_by_rank_descends(kernel, g, query, nodes);
    let found = layer_search(kernel, g, query, entry as int, ef, layer);
    let ranks = node_ranks(kernel, g, query, found);
    crate::ranking::lemma_descending_distinct(ranks);
    assert(found.no_duplicates()) by {
        assert forall|i: int, j: int|
            0 <= i < found.len() && 0 <= j < found.len() && i != j implies found[i] != found[j] by {
            assert(ranks[i] != ranks[j]);
        }
    }
    assert forall|x: usize| #[trigger] found.contains(x) <==> p(x) by {
        assert(found.contains(x) <==> nodes.contains(x));
    }
    assert forall|i: int| 0 <= i < found.len() implies (#[trigger] found[i]) < bound by {
        assert(found.contains(found[i]));
        assert(p(found[i]));
    }
    lemma_pigeons(found, bound);
}

/// Every node of the graph, as a result for a query.
pub open spec fn all_ranks<K: Kernel>(kernel: K, g: GraphView, query: Seq<u32>) -> Set<Ranked> {
    Set::new(
        |r: Ranked|
            exists|i: int| 0 <= i < g.nodes.len() && r == #[trigger] node_rank(kernel, g, query, i),
    )
}

/// A complete graph is searched exactly by a search that is as broad as it has nodes:
/// the results are the `k` best of all points. A graph of at most `m + 1` points is
/// complete when [`crate::hnsw::HnswIndex::build`] has built it.
pub proof fn law_complete_graph_is_searched_exactly<K: Kernel>(
    kernel: K,
    g: GraphView,
    query: Seq<u32>,
    k: usize,
    ef_search: usize,
)
    requires
        valid(g),
        g.nodes.len() <= usize::MAX,
        complete(g),
        k >= 1,
        ef_search >= g.nodes.len(),
    ensures
        best_of(
            graph_hits(kernel, g, query, k, ef_search),
            all_ranks(kernel, g, query),
            k as nat,
        ),
{
    let hits = graph_hits(kernel, g, query, k, ef_search);
    let pool = all_ranks(kernel, g, query);
    match g.entry_point {
        None => {
            assert(hits =~= Seq::empty());
        },
        Some(top) => {
            let p = |x: usize| x < g.nodes.len();
            let start = descended(kernel, g, query, top as int, g.max_level as int, 0);
            lemma_descended_in_range(kernel, g, query, top as int, g.max_level as int, 0);
            assert forall|x: usize| p(x) implies nodes_satisfy(#[trigger] links(g, x as int, 0), p) by {
                assert(node_valid(g, x as int));
                lemma_links_in_range(g, x as int, 0);
            }
            assert forall|x: usize| #[trigger] p(x) && x != start implies links(
                g,
                start,
                0,
            ).contains(x) by {
                assert(node_valid(g, x as int) && node_valid(g, start));
                assert(linked_to(g, start, 0, x as int));
            }
            lemma_layer_search_finds_all(
                kernel,
                g,
                query,
                start as usize,
                ef_search,
                0,
                p,
                g.nodes.len(),
            );
            let found = searched(kernel, g, query, ef_search);
            let ranks = node_ranks(kernel, g, query, found);
            assert forall|i: int| 0 <= i < hits.len() implies pool.contains(#[trigger] hits[i]) by {
                assert(found.contains(found[i]));
                assert(p(found[i]));
                assert(hits[i] == node_rank(kernel, g, query, found[i] as int));
            }
            assert forall|i: int, j: int| 0 <= i < j < hits.len() implies better(
                #[trigger] hits[i],
                #[trigger] hits[j],
            ) by {
                assert(hits[i] == ranks[i] && hits[j] == ranks[j]);
            }
            assert forall|r: Ranked| #[trigger] pool.contains(r) implies hits.contains(r) || (
            hits.len() == k && k > 0 && better(hits[k - 1], r)) by {
                let x = choose|x: int|
                    0 <= x < g.nodes.len() && r == #[trigger] node_rank(kernel, g, query, x);
                assert(p(x as usize));
                assert(found.contains(x as usize));
                let i = choose|i: int| 0 <= i < found.len() && found[i] == x as usize;
                assert(ranks[i] == r);
                if i < hits.len() {
                    assert(hits[i] == r);
                } else {
                    assert(hits[k - 1] == ranks[k - 1]);
                    assert(better(ranks[k - 1], ranks[i]));
                }
            }
        },
    }
}

/// What linking the new node to others in a layer leaves, where nothing is pruned.
proof fn lemma_connected_small<K: Kernel>(
    kernel: K,
    g: GraphView,
    new: int,
    others: Seq<usize>,
    layer: int,
)
    requires
        growing(g, new, layer),
        distinct_links(g),
        new == g.nodes.len() - 1,
        new <= g.config.m,
        0 <= layer < g.nodes[new].neighbors.len(),
        links(g, new, layer).len() == 0,
        others.no_duplicates(),
        forall|j: int| 0 <= j < others.len() ==> joins(g, new, layer, #[trigger] others[j]),
    ensures
        ({
            let after = connected_all(kernel, g, new, others, layer);
            &&& same_shape(after, g)
            &&& growing(after, new, layer - 1)
            &&& links(after, new, layer) == others
            &&& forall|i: int|
                0 <= i < g.nodes.len() && i != new ==> #[trigger] links(after, i, layer) == if others.contains(
                    i as usize,
                ) {
                    links(g, i, layer).push(new as usize)
                } else {
                    links(g, i, layer)
                }
            &&& forall|i: int, l: int|
                0 <= i < g.nodes.len() && l != layer ==> #[trigger] links(after, i, l) == links(
                    g,
                    i,
                    l,
                )
        }),
    decreases others.len(),
{
    lemma_connected_all(kernel, g, new, others, layer);
    if others.len() == 0 {
        assert(links(g, new, layer) =~= others);
    } else {
        let rest = others.drop_last();
        let last = others.len() - 1;
        let other = others.last();
        assert forall|j: int| 0 <= j < rest.len() implies joins(
            g,
            new,
            layer,
            #[trigger] rest[j],
        ) by {
            assert(joins(g, new, layer, others[j]));
        }
        assert(rest.no_duplicates()) by {
            assert forall|i: int, j: int|
                0 <= i < rest.len() && 0 <= j < rest.len() && i != j implies rest[i] != rest[j] by {
                assert(others[i] != others[j]);
            }
        }
        lemma_connected_small(kernel, g, new, rest, layer);
        let before = connected_all(kernel, g, new, rest, layer);
        assert(joins(g, new, layer, others[last]));
        assert(!rest.contains(other)) by {
            if rest.contains(other) {
                let j = choose|j: int| 0 <= j < rest.len() && rest[j] == other;
                assert(others[j] != others[last]);
            }
        }
        // The new node takes the other in.
        let offered = rest.push(other);
        assert(offered =~= others);
        assert forall|j: int| 0 <= j < others.len() implies (#[trigger] others[j]) < new by {
            assert(joins(g, new, layer, others[j]));
        }
        lemma_pigeons(others, new as nat);
        assert(kept(kernel, before, new, offered) == others);
        assert(links_valid(before, new, others)) by {
            assert forall|j: int| 0 <= j < others.len() implies (#[trigger] others[j])
                < before.nodes.len() && others[j] != new by {
                assert(joins(g, new, layer, others[j]));
            }
        }
        assert(before.nodes[new].neighbors.len() == g.nodes[new].neighbors.len());
        assert(before.nodes[other as int].neighbors.len() == g.nodes[other as int].neighbors.len());
        lemma_relinked(before, new, layer, others);
        lemma_linked(kernel, before, new, other as int, layer);
        let once = linked(kernel, before, new, other as int, layer);
        assert(once == relinked(before, new, layer, others));
        // The other takes the new node in.
        let held = links(g, other as int, layer);
        assert(links(once, other as int, layer) == links(before, other as int, layer));
        assert(links(before, other as int, layer) == held);
        let both = held.push(new as usize);
        assert(node_valid(g, other as int));
        lemma_links_in_range(g, other as int, layer);
        assert(held.no_duplicates());
        assert forall|j: int| 0 <= j < both.len() implies (#[trigger] both[j]) < g.nodes.len()
            && both[j] != other by {
            if j < held.len() {
                assert(held[j] < g.nodes.len() && held[j] != other as int);
            }
        }
        assert(both.no_duplicates()) by {
            assert forall|a: int, b: int|
                0 <= a < both.len() && 0 <= b < both.len() && a != b implies both[a] != both[b] by {
                if a < held.len() && b < held.len() {
                    assert(held[a] != held[b]);
                } else if a < held.len() {
                    assert(links(g, other as int, layer)[a] != new);
                } else {
                    assert(links(g, other as int, layer)[b] != new);
                }
            }
        }
        // All but the other itself, so no more than `m`.
        let full = both.push(other);
        assert(full.no_duplicates()) by {
            assert forall|a: int, b: int|
                0 <= a < full.len() && 0 <= b < full.len() && a != b implies full[a] != full[b] by {
                if a < both.len() && b < both.len() {
                    assert(both[a] != both[b]);
                } else if a < both.len() {
                    assert(both[a] != other);
                } else {
                    assert(both[b] != other);
                }
            }
        }
        assert forall|j: int| 0 <= j < full.len() implies (#[trigger] full[j]) < g.nodes.len() by {
            if j < both.len() {
                assert(both[j] < g.nodes.len());
            }
        }
        lemma_pigeons(full, g.nodes.len());
        assert(both.len() <= g.config.m);
        assert(kept(kernel, once, other as int, both) == both);
        assert(links_valid(once, other as int, both)) by {
            assert forall|j: int| 0 <= j < both.len() implies (#[trigger] both[j])
                < once.nodes.len() && both[j] != other as int by {}
        }
        assert(once.nodes[other as int].neighbors.len()
            == before.nodes[other as int].neighbors.len());
        lemma_relinked(once, other as int, layer, both);
        let after = connected_all(kernel, g, new, others, layer);
        assert(after == connected(kernel, before, new, other as int, layer));
        assert(after == relinked(once, other as int, layer, both));
        assert(links(after, new, layer) == links(once, new, layer));
        assert forall|i: int| 0 <= i < g.nodes.len() && i != new implies #[trigger] links(
            after,
            i,
            layer,
        ) == if others.contains(i as usize) {
            links(g, i, layer).push(new as usize)
        } else {
            links(g, i, layer)
        } by {
            if i == other {
                assert(others[last] == i as usize);
            } else {
                assert(links(after, i, layer) == links(once, i, layer));
                assert(links(once, i, layer) == links(before, i, layer));
                if rest.contains(i as usize) {
                    let j = choose|j: int| 0 <= j < rest.len() && rest[j] == i as usize;
                    assert(others[j] == i as usize);
                }
                if others.contains(i as usize) {
                    let j = choose|j: int| 0 <= j < others.len() && others[j] == i as usize;
                    assert(rest[j] == i as usize);
                }
            }
        }
        assert forall|i: int, l: int| 0 <= i < g.nodes.len() && l != layer implies #[trigger] links(
            after,
            i,
            l,
        ) == links(g, i, l) by {
            assert(links(after, i, l) == links(once, i, l));
            assert(links(once, i, l) == links(before, i, l));
        }
    }
}

/// While a new node is being linked: the others link to each other in every layer, the
/// new one and they in the layers above `layer`, and the new one to none below.
spec fn filling(g: GraphView, new: int, layer: int, top: int) -> bool {
    &&& distinct_links(g)
    &&& forall|i: int, l: int, j: int|
        0 <= i < g.nodes.len() && 0 <= j < g.nodes.len() && i != j && 0 <= l
            < g.nodes[i].neighbors.len() && l < g.nodes[j].neighbors.len() && (i != new && j != new
            || layer < l <= top) ==> #[trigger] linked_to(g, i, l, j)
    &&& forall|l: int| l <= layer ==> (#[trigger] links(g, new, l)).len() == 0
}

proof fn lemma_linked_down_small<K: Kernel>(
    kernel: K,
    g: GraphView,
    new: int,
    current: int,
    layer: int,
    top: int,
)
    requires
        growing(g, new, layer),
        filling(g, new, layer, top),
        new == g.nodes.len() - 1,
        new <= g.config.m,
        g.config.m <= g.config.ef_construction,
        layer <= top,
        top < g.nodes[new].neighbors.len(),
        0 <= current <= usize::MAX,
        layer >= 0 ==> joins(g, new, layer, current as usize),
    ensures
        filling(linked_down(kernel, g, new, current, layer), new, -1, top),
        same_shape(linked_down(kernel, g, new, current, layer), g),
    decreases layer + 1,
{
    if layer >= 0 {
        let query = g.nodes[new].vector;
        let p = |x: usize| joins(g, new, layer, x);
        let ef = g.config.ef_construction;
        assert forall|x: usize| p(x) implies nodes_satisfy(
            #[trigger] links(g, x as int, layer),
            p,
        ) by {
            assert(node_valid(g, x as int));
            lemma_links_in_range(g, x as int, layer);
            let list = links(g, x as int, layer);
            assert forall|j: int| 0 <= j < list.len() implies p(#[trigger] list[j]) by {
                assert(links(g, x as int, layer)[j] != new);
                assert(g.nodes[links(g, x as int, layer)[j] as int].neighbors.len() > layer);
            }
        }
        assert forall|x: usize| #[trigger] p(x) && x != current as usize implies links(
            g,
            current,
            layer,
        ).contains(x) by {
            assert(linked_to(g, current, layer, x as int));
        }
        lemma_layer_search_finds_all(
            kernel,
            g,
            query,
            current as usize,
            ef,
            layer,
            p,
            new as nat,
        );
        let found = layer_search(kernel, g, query, current, ef, layer);
        let chosen = at_most(found, g.config.m);
        assert(chosen == found);
        assert forall|j: int| 0 <= j < chosen.len() implies joins(
            g,
            new,
            layer,
            #[trigger] chosen[j],
        ) by {
            assert(found.contains(found[j]));
            assert(p(found[j]));
        }
        assert(p(current as usize));
        assert(found.contains(current as usize));
        lemma_connected_small(kernel, g, new, chosen, layer);
        let after = connected_all(kernel, g, new, chosen, layer);
        let next = chosen[0] as int;
        assert(joins(g, new, layer, chosen[0]));
        assert(after.nodes[next].neighbors.len() == g.nodes[next].neighbors.len());
        assert(after.nodes[new].neighbors.len() == g.nodes[new].neighbors.len());
        assert(filling(after, new, layer - 1, top)) by {
            lemma_layer_filled(g, after, new, chosen, layer, top);
        }
        lemma_linked_down_small(kernel, after, new, next, layer - 1, top);
        let done = linked_down(kernel, g, new, current, layer);
        assert forall|i: int| 0 <= i < done.nodes.len() implies (#[trigger] done.nodes[i]).id
            == g.nodes[i].id && done.nodes[i].vector == g.nodes[i].vector
            && done.nodes[i].neighbors.len() == g.nodes[i].neighbors.len() by {
            assert(after.nodes[i].id == g.nodes[i].id);
        }
    }
}

/// A layer in which the new node has been linked to all is filled.
proof fn lemma_layer_filled(
    g: GraphView,
    after: GraphView,
    new: int,
    chosen: Seq<usize>,
    layer: int,
    top: int,
)
    requires
        growing(g, new, layer),
        filling(g, new, layer, top),
        new == g.nodes.len() - 1,
        0 <= layer <= top,
        chosen.no_duplicates(),
        forall|x: usize| #[trigger] chosen.contains(x) <==> joins(g, new, layer, x),
        same_shape(after, g),
        links(after, new, layer) == chosen,
        forall|i: int|
            0 <= i < g.nodes.len() && i != new ==> #[trigger] links(after, i, layer)
                == if chosen.contains(i as usize) {
                links(g, i, layer).push(new as usize)
            } else {
                links(g, i, layer)
            },
        forall|i: int, l: int|
            0 <= i < g.nodes.len() && l != layer ==> #[trigger] links(after, i, l) == links(
                g,
                i,
                l,
            ),
    ensures
        filling(after, new, layer - 1, top),
{
    assert forall|i: int, l: int| 0 <= i < after.nodes.len() implies (#[trigger] links(
        after,
        i,
        l,
    )).no_duplicates() by {
        assert(links(g, i, l).no_duplicates());
        if l == layer && i != new && chosen.contains(i as usize) {
            let held = links(g, i, layer);
            let both = held.push(new as usize);
            assert(links(after, i, layer) == both);
            assert forall|a: int, b: int|
                0 <= a < both.len() && 0 <= b < both.len() && a != b implies both[a] != both[b] by {
                if a < held.len() && b < held.len() {
                    assert(held[a] != held[b]);
                } else if a < held.len() {
                    assert(links(g, i, layer)[a] != new);
                } else {
                    assert(links(g, i, layer)[b] != new);
                }
            }
        } else if l == layer && i == new {
            assert(links(after, new, layer) == chosen);
        } else if l == layer {
            assert(links(after, i, layer) == links(g, i, layer));
        }
    }
    assert forall|i: int, l: int, j: int|
        0 <= i < after.nodes.len() && 0 <= j < after.nodes.len() && i != j && 0 <= l
            < after.nodes[i].neighbors.len() && l < after.nodes[j].neighbors.len() && (i != new && j
            != new || layer - 1 < l <= top) implies #[trigger] linked_to(after, i, l, j) by {
        assert(after.nodes[i].neighbors.len() == g.nodes[i].neighbors.len());
        assert(after.nodes[j].neighbors.len() == g.nodes[j].neighbors.len());
        if l != layer {
            assert(links(after, i, l) == links(g, i, l));
            assert(linked_to(g, i, l, j));
        } else if i == new {
            assert(joins(g, new, layer, j as usize));
            assert(chosen.contains(j as usize));
        } else if j == new {
            assert(joins(g, new, layer, i as usize));
            assert(chosen.contains(i as usize));
            let both = links(g, i, layer).push(new as usize);
            assert(links(after, i, layer) == both);
            assert(both[both.len() - 1] == new as usize);
        } else {
            assert(linked_to(g, i, l, j));
            let held = links(g, i, layer);
            let x = choose|x: int| 0 <= x < held.len() && held[x] == j as usize;
            assert(links(after, i, layer)[x] == j as usize);
        }
    }
    assert forall|l: int| l <= layer - 1 implies (#[trigger] links(after, new, l)).len() == 0 by {
        assert(links(after, new, l) == links(g, new, l));
    }
}

/// A complete graph of at most `m` nodes stays complete when it grows.
pub proof fn lemma_grown_small<K: Kernel>(
    kernel: K,
    g: GraphView,
    id: Seq<char>,
    vector: Seq<u32>,
)
    requires
        valid(g),
        layered(g),
        g.nodes.len() < usize::MAX,
        id.len() > 0,
        vector.len() == g.dimension,
        forall|i: int| 0 <= i < g.nodes.len() ==> (#[trigger] g.nodes[i]).id != id,
        tight(g),
        g.nodes.len() <= g.config.m,
    ensures
        tight(grown(kernel, g, id, vector)),
{
    let wider = with_node(g, id, vector);
    let new = g.nodes.len() as int;
    let level = level_of(id, g.config.m);
    let after = grown(kernel, g, id, vector);
    lemma_with_node(g, id, vector);
    lemma_grown(kernel, g, id, vector);
    assert forall|l: int| (#[trigger] links(wider, new, l)).len() == 0 by {}
    match g.entry_point {
        None => {
            assert(after.nodes == wider.nodes);
            assert forall|i: int, l: int| 0 <= i < after.nodes.len() implies (#[trigger] links(
                after,
                i,
                l,
            )).no_duplicates() by {
                assert(links(after, i, l) == links(wider, new, l));
            }
        },
        Some(entry) => {
            let current = descended(
                kernel,
                wider,
                vector,
                entry as int,
                g.max_level as int,
                level as int,
            );
            let top = if level < g.max_level {
                level as int
            } else {
                g.max_level as int
            };
            assert(growing(wider, new, g.max_level as int));
            assert(growing(wider, new, top));
            assert(wider.nodes[entry as int] == g.nodes[entry as int]);
            lemma_descended_joins(
                kernel,
                wider,
                vector,
                new,
                entry as int,
                g.max_level as int,
                level as int,
            );
            assert(filling(wider, new, top, top)) by {
                assert forall|i: int, l: int| 0 <= i < wider.nodes.len() implies (#[trigger] links(
                    wider,
                    i,
                    l,
                )).no_duplicates() by {
                    if i < new {
                        assert(wider.nodes[i] == g.nodes[i]);
                        assert(links(wider, i, l) == links(g, i, l));
                        assert(links(g, i, l).no_duplicates());
                    } else {
                        assert(links(wider, new, l).len() == 0);
                    }
                }
                assert forall|i: int, l: int, j: int|
                    0 <= i < wider.nodes.len() && 0 <= j < wider.nodes.len() && i != j && 0 <= l
                        < wider.nodes[i].neighbors.len() && l < wider.nodes[j].neighbors.len() && (i
                        != new && j != new || top < l <= top) implies #[trigger] linked_to(
                    wider,
                    i,
                    l,
                    j,
                ) by {
                    assert(wider.nodes[i] == g.nodes[i] && wider.nodes[j] == g.nodes[j]);
                    assert(linked_to(g, i, l, j));
                    assert(links(wider, i, l) == links(g, i, l));
                }
            }
            lemma_linked_down_small(kernel, wider, new, current, top, top);
            let done = linked_down(kernel, wider, new, current, top);
            assert(after.nodes == done.nodes);
            assert forall|i: int| 0 <= i < after.nodes.len() implies (
            #[trigger] after.nodes[i]).neighbors.len() == wider.nodes[i].neighbors.len() by {
                assert(done.nodes[i].id == wider.nodes[i].id);
            }
            assert(wider.nodes[new].neighbors.len() == level + 1);
            assert forall|i: int| 0 <= i < g.nodes.len() implies (
            #[trigger] wider.nodes[i]).neighbors.len() <= g.max_level + 1 by {
                assert(g.nodes[i].neighbors.len() <= g.max_level + 1);
            }
            assert forall|i: int, l: int| 0 <= i < after.nodes.len() implies (#[trigger] links(
                after,
                i,
                l,
            )).no_duplicates() by {
                assert(links(after, i, l) == links(done, i, l));
                assert(links(done, i, l).no_duplicates());
            }
            assert forall|i: int, l: int, j: int|
                0 <= i < after.nodes.len() && 0 <= j < after.nodes.len() && i != j && 0 <= l
                    < after.nodes[i].neighbors.len() && l
                    < after.nodes[j].neighbors.len() implies #[trigger] linked_to(
                after,
                i,
                l,
                j,
            ) by {
                assert(after.nodes[i].neighbors.len() == wider.nodes[i].neighbors.len());
                assert(after.nodes[j].neighbors.len() == wider.nodes[j].neighbors.len());
                if i == new {
                    assert(wider.nodes[j].neighbors.len() <= g.max_level + 1);
                }
                if j == new {
                    assert(wider.nodes[i].neighbors.len() <= g.max_level + 1);
                }
                assert(linked_to(done, i, l, j));
                assert(links(after, i, l) == links(done, i, l));
            }
        },
    }
}

} // verus!
