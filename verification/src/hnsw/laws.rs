//! What a graph search promises of its results.
use crate::hnsw::growth::lemma_grown;
use crate::hnsw::model::{
    built, by_rank, config_verdict, considered, considered_all, empty_graph, expanded, fnv1a, grown_all,
    item_better, item_nodes, item_of, item_placed, layer_search, layered, lead, lemma_lead,
    lemma_links_in_range, level_of, level_threshold, links, next_hash, node_rank, node_valid,
    run_below, searched, valid, walk_from, walk_over, walked, GraphView, HnswConfig, Item, Walk,
    MAX_LEVEL,
};
use crate::hnsw::{graph_hits, graph_ids, graph_query, lemma_layer_search_nodes};
use crate::metric::{law_preparation_keeps_the_length, lawful, prepared, scored, Kernel, Metric};
use crate::ranking::{
    better, descending, lemma_better_total, lemma_better_transitive, lemma_descending_distinct,
    Ranked,
};
use vstd::prelude::*;
use vstd::utf8::encode_utf8;

verus! {

/// Items of nodes that have been seen, with their scores, no node twice.
pub open spec fn items_sound<K: Kernel>(
    kernel: K,
    g: GraphView,
    query: Seq<u32>,
    visited: Seq<bool>,
    items: Seq<Item>,
) -> bool {
    &&& forall|i: int|
        0 <= i < items.len() ==> (#[trigger] items[i]).index < visited.len()
            && visited[items[i].index as int]
    &&& forall|i: int, j: int|
        0 <= i < j < items.len() ==> (#[trigger] items[i]).index != (#[trigger] items[j]).index
}

/// A state of a search in which no node stands twice.
pub open spec fn walk_sound<K: Kernel>(kernel: K, g: GraphView, query: Seq<u32>, walk: Walk) -> bool {
    &&& walk.visited.len() == g.nodes.len()
    &&& items_sound(kernel, g, query, walk.visited, walk.results)
    &&& forall|i: int|
        0 <= i < walk.frontier.len() ==> (#[trigger] walk.frontier[i]).index < g.nodes.len()
}

proof fn lemma_items_placed<K: Kernel>(
    kernel: K,
    g: GraphView,
    query: Seq<u32>,
    visited: Seq<bool>,
    items: Seq<Item>,
    item: Item,
)
    requires
        items_sound(kernel, g, query, visited, items),
        item.index < visited.len(),
        !visited[item.index as int],
    ensures
        items_sound(
            kernel,
            g,
            query,
            visited.update(item.index as int, true),
            item_placed(items, item),
        ),
{
    let ahead = |other: Item| item_better(other, item);
    lemma_lead(items, ahead);
    let at = lead(items, ahead);
    let after = item_placed(items, item);
    let marked = visited.update(item.index as int, true);
    assert forall|i: int| 0 <= i < after.len() implies (#[trigger] after[i]).index < marked.len()
        && marked[after[i].index as int] by {
        if i < at {
            assert(after[i] == items[i]);
        } else if i > at {
            assert(after[i] == items[i - 1]);
        }
    }
    assert forall|i: int, j: int| 0 <= i < j < after.len() implies (#[trigger] after[i]).index != (
    #[trigger] after[j]).index by {
        let a = if i < at {
            i
        } else {
            i - 1
        };
        let b = if j < at {
            j
        } else {
            j - 1
        };
        if i == at {
            assert(after[j] == items[b]);
            assert(visited[items[b].index as int]);
        } else if j == at {
            assert(after[i] == items[a]);
            assert(visited[items[a].index as int]);
        } else {
            assert(after[i] == items[a] && after[j] == items[b]);
            assert(items[a].index != items[b].index);
        }
    }
}

pub(crate) proof fn lemma_considered_sound<K: Kernel>(
    kernel: K,
    g: GraphView,
    query: Seq<u32>,
    ef: usize,
    walk: Walk,
    node: usize,
)
    requires
        g.nodes.len() <= usize::MAX,
        walk_sound(kernel, g, query, walk),
        node < g.nodes.len(),
    ensures
        walk_sound(kernel, g, query, considered(kernel, g, query, ef, walk, node)),
{
    if !walk.visited[node as int] {
        let item = item_of(kernel, g, query, node as int);
        lemma_items_placed(kernel, g, query, walk.visited, walk.results, item);
        let marked = walk.visited.update(node as int, true);
        let longer = item_placed(walk.results, item);
        let after = considered(kernel, g, query, ef, walk, node);
        assert forall|i: int| 0 <= i < after.results.len() implies (
        #[trigger] after.results[i]).index < marked.len()
            && marked[after.results[i].index as int] by {
            if walk.results.len() < ef || item_better(item, walk.results.last()) {
                assert(after.results[i] == longer[i]);
            } else {
                assert(after.results[i] == walk.results[i]);
            }
        }
        assert forall|i: int, j: int| 0 <= i < j < after.results.len() implies (
        #[trigger] after.results[i]).index != (#[trigger] after.results[j]).index by {
            if walk.results.len() < ef || item_better(item, walk.results.last()) {
                assert(after.results[i] == longer[i] && after.results[j] == longer[j]);
            } else {
                assert(walk.results[i].index != walk.results[j].index);
            }
        }
        let ahead = |other: Item| item_better(other, item);
        lemma_lead(walk.frontier, ahead);
        let at = lead(walk.frontier, ahead);
        assert forall|i: int| 0 <= i < after.frontier.len() implies (
        #[trigger] after.frontier[i]).index < g.nodes.len() by {
            if walk.results.len() < ef || item_better(item, walk.results.last()) {
                if i < at {
                    assert(after.frontier[i] == walk.frontier[i]);
                } else if i > at {
                    assert(after.frontier[i] == walk.frontier[i - 1]);
                }
            } else {
                assert(after.frontier[i] == walk.frontier[i]);
            }
        }
    }
}

proof fn lemma_considered_all_sound<K: Kernel>(
    kernel: K,
    g: GraphView,
    query: Seq<u32>,
    ef: usize,
    walk: Walk,
    nodes: Seq<usize>,
)
    requires
        g.nodes.len() <= usize::MAX,
        walk_sound(kernel, g, query, walk),
        forall|i: int| 0 <= i < nodes.len() ==> (#[trigger] nodes[i]) < g.nodes.len(),
    ensures
        walk_sound(kernel, g, query, considered_all(kernel, g, query, ef, walk, nodes)),
    decreases nodes.len(),
{
    if nodes.len() > 0 {
        let rest = nodes.drop_last();
        assert forall|i: int| 0 <= i < rest.len() implies (#[trigger] rest[i]) < g.nodes.len() by {
            assert(nodes[i] < g.nodes.len());
        }
        lemma_considered_all_sound(kernel, g, query, ef, walk, rest);
        assert(nodes[nodes.len() - 1] < g.nodes.len());
        lemma_considered_sound(
            kernel,
            g,
            query,
            ef,
            considered_all(kernel, g, query, ef, walk, rest),
            nodes.last(),
        );
    }
}

proof fn lemma_walked_sound<K: Kernel>(
    kernel: K,
    g: GraphView,
    query: Seq<u32>,
    ef: usize,
    layer: int,
    walk: Walk,
    steps: nat,
)
    requires
        valid(g),
        g.nodes.len() <= usize::MAX,
        walk_sound(kernel, g, query, walk),
    ensures
        walk_sound(kernel, g, query, walked(kernel, g, query, ef, layer, walk, steps)),
    decreases steps,
{
    if steps > 0 && !walk_over(ef, walk) {
        let rest = Walk { frontier: walk.frontier.drop_first(), ..walk };
        let node = walk.frontier[0].index;
        assert forall|i: int| 0 <= i < rest.frontier.len() implies (
        #[trigger] rest.frontier[i]).index < g.nodes.len() by {
            assert(rest.frontier[i] == walk.frontier[i + 1]);
        }
        assert(walk.frontier[0].index < g.nodes.len());
        assert(node_valid(g, node as int));
        lemma_links_in_range(g, node as int, layer);
        lemma_considered_all_sound(kernel, g, query, ef, rest, links(g, node as int, layer));
        lemma_walked_sound(
            kernel,
            g,
            query,
            ef,
            layer,
            expanded(kernel, g, query, ef, layer, walk),
            (steps - 1) as nat,
        );
    }
}

/// The ranks of nodes.
pub open spec fn node_ranks<K: Kernel>(
    kernel: K,
    g: GraphView,
    query: Seq<u32>,
    nodes: Seq<usize>,
) -> Seq<Ranked> {
    Seq::new(nodes.len(), |i: int| node_rank(kernel, g, query, nodes[i] as int))
}

/// Nodes of different IDs, ordered by rank, are in descending order.
pub(crate) proof fn lemma_by_rank_descends<K: Kernel>(
    kernel: K,
    g: GraphView,
    query: Seq<u32>,
    nodes: Seq<usize>,
)
    requires
        valid(g),
        forall|i: int| 0 <= i < nodes.len() ==> (#[trigger] nodes[i]) < g.nodes.len(),
        forall|i: int, j: int|
            0 <= i < j < nodes.len() ==> (#[trigger] nodes[i]) != (#[trigger] nodes[j]),
    ensures
        descending(node_ranks(kernel, g, query, by_rank(kernel, g, query, nodes))),
        forall|x: usize| by_rank(kernel, g, query, nodes).contains(x) <==> nodes.contains(x),
        by_rank(kernel, g, query, nodes).len() == nodes.len(),
    decreases nodes.len(),
{
    let sorted = by_rank(kernel, g, query, nodes);
    if nodes.len() == 0 {
        assert(sorted =~= nodes);
    } else {
        let rest = nodes.drop_last();
        let node = nodes.last();
        let last = nodes.len() - 1;
        assert forall|i: int| 0 <= i < rest.len() implies (#[trigger] rest[i]) < g.nodes.len() by {
            assert(nodes[i] < g.nodes.len());
        }
        assert forall|i: int, j: int| 0 <= i < j < rest.len() implies (#[trigger] rest[i]) != (
        #[trigger] rest[j]) by {
            assert(nodes[i] != nodes[j]);
        }
        lemma_by_rank_descends(kernel, g, query, rest);
        let before = by_rank(kernel, g, query, rest);
        let ahead = |other: usize|
            better(
                node_rank(kernel, g, query, other as int),
                node_rank(kernel, g, query, node as int),
            );
        lemma_lead(before, ahead);
        let at = lead(before, ahead);
        let r = node_rank(kernel, g, query, node as int);
        let old_ranks = node_ranks(kernel, g, query, before);
        let new_ranks = node_ranks(kernel, g, query, sorted);
        assert forall|i: int| at <= i < before.len() implies better(r, #[trigger] old_ranks[i]) by {
            assert(before.contains(before[i]));
            assert(rest.contains(before[i]));
            let x = choose|x: int| 0 <= x < rest.len() && rest[x] == before[i];
            assert(nodes[x] != nodes[last]);
            assert(nodes[last] < g.nodes.len() && nodes[x] < g.nodes.len());
            if before[i] < node {
                assert(g.nodes[before[i] as int].id != g.nodes[node as int].id);
            } else {
                assert(g.nodes[node as int].id != g.nodes[before[i] as int].id);
            }
            lemma_better_total(r, old_ranks[i]);
            if i > at {
                assert(better(old_ranks[at], old_ranks[i]));
                assert(before.contains(before[at]));
                assert(rest.contains(before[at]));
                let y = choose|y: int| 0 <= y < rest.len() && rest[y] == before[at];
                assert(nodes[y] != nodes[last] && nodes[y] < g.nodes.len());
                if before[at] < node {
                    assert(g.nodes[before[at] as int].id != g.nodes[node as int].id);
                } else {
                    assert(g.nodes[node as int].id != g.nodes[before[at] as int].id);
                }
                lemma_better_total(r, old_ranks[at]);
                lemma_better_transitive(r, old_ranks[at], old_ranks[i]);
            }
        }
        assert forall|i: int, j: int| 0 <= i < j < new_ranks.len() implies better(
            #[trigger] new_ranks[i],
            #[trigger] new_ranks[j],
        ) by {
            if i < at {
                assert(sorted[i] == before[i]);
                assert(ahead(before[i]));
                if j < at {
                    assert(sorted[j] == before[j]);
                    assert(better(old_ranks[i], old_ranks[j]));
                } else if j > at {
                    assert(sorted[j] == before[j - 1]);
                    assert(better(old_ranks[i], old_ranks[j - 1]));
                }
            } else if i == at {
                assert(sorted[j] == before[j - 1]);
                assert(better(r, old_ranks[j - 1]));
            } else {
                assert(sorted[i] == before[i - 1] && sorted[j] == before[j - 1]);
                assert(better(old_ranks[i - 1], old_ranks[j - 1]));
            }
        }
        assert forall|x: usize| sorted.contains(x) <==> nodes.contains(x) by {
            if sorted.contains(x) {
                let i = choose|i: int| 0 <= i < sorted.len() && sorted[i] == x;
                if i < at {
                    assert(before[i] == x);
                    assert(before.contains(x));
                } else if i == at {
                    assert(nodes[last] == x);
                } else {
                    assert(before[i - 1] == x);
                    assert(before.contains(x));
                }
                if before.contains(x) {
                    assert(rest.contains(x));
                    let y = choose|y: int| 0 <= y < rest.len() && rest[y] == x;
                    assert(nodes[y] == x);
                }
            }
            if nodes.contains(x) {
                let y = choose|y: int| 0 <= y < nodes.len() && nodes[y] == x;
                if y == last {
                    assert(sorted[at] == x);
                } else {
                    assert(rest[y] == x);
                    assert(rest.contains(x));
                    assert(before.contains(x));
                    let i = choose|i: int| 0 <= i < before.len() && before[i] == x;
                    if i < at {
                        assert(sorted[i] == x);
                    } else {
                        assert(sorted[i + 1] == x);
                    }
                }
            }
        }
    }
}

proof fn lemma_layer_search_descends<K: Kernel>(
    kernel: K,
    g: GraphView,
    query: Seq<u32>,
    entry: int,
    ef: usize,
    layer: int,
)
    requires
        valid(g),
        0 <= entry < g.nodes.len() <= usize::MAX,
    ensures
        descending(
            node_ranks(kernel, g, query, layer_search(kernel, g, query, entry, ef, layer)),
        ),
{
    let start = walk_from(kernel, g, query, entry);
    assert(walk_sound(kernel, g, query, start));
    lemma_walked_sound(kernel, g, query, ef, layer, start, g.nodes.len());
    let results = walked(kernel, g, query, ef, layer, start, g.nodes.len()).results;
    let nodes = item_nodes(results);
    assert forall|i: int| 0 <= i < nodes.len() implies (#[trigger] nodes[i]) < g.nodes.len() by {
        assert(results[i].index < g.nodes.len());
    }
    assert forall|i: int, j: int| 0 <= i < j < nodes.len() implies (#[trigger] nodes[i]) != (
    #[trigger] nodes[j]) by {
        assert(results[i].index != results[j].index);
    }
    lemma_by_rank_descends(kernel, g, query, nodes);
}

pub(crate) proof fn lemma_greedy_in_range<K: Kernel>(
    kernel: K,
    g: GraphView,
    query: Seq<u32>,
    node: int,
    layer: int,
    steps: nat,
)
    requires
        valid(g),
        0 <= node < g.nodes.len(),
    ensures
        0 <= crate::hnsw::model::greedy(kernel, g, query, node, layer, steps) < g.nodes.len(),
    decreases steps,
{
    let list = links(g, node, layer);
    let best = crate::hnsw::model::closest_of(kernel, g, query, node, list);
    crate::hnsw::model::lemma_closest_of(kernel, g, query, node, list);
    assert(node_valid(g, node));
    lemma_links_in_range(g, node, layer);
    if steps > 0 && best != node {
        let j = choose|j: int| 0 <= j < list.len() && #[trigger] list[j] == best;
        lemma_greedy_in_range(kernel, g, query, best, layer, (steps - 1) as nat);
    }
}

pub(crate) proof fn lemma_descended_in_range<K: Kernel>(
    kernel: K,
    g: GraphView,
    query: Seq<u32>,
    node: int,
    high: int,
    low: int,
)
    requires
        valid(g),
        0 <= node < g.nodes.len(),
    ensures
        0 <= crate::hnsw::model::descended(kernel, g, query, node, high, low) < g.nodes.len(),
    decreases high - low,
{
    if high > low {
        lemma_greedy_in_range(kernel, g, query, node, high, g.nodes.len());
        lemma_descended_in_range(
            kernel,
            g,
            query,
            crate::hnsw::model::greedy(kernel, g, query, node, high, g.nodes.len()),
            high - 1,
            low,
        );
    }
}

/// The results of a graph search are points of the graph with their scores, best
/// first with ties by ID, no more than `k`, and no ID occurs twice.
pub proof fn law_graph_results_are_ranked<K: Kernel>(
    kernel: K,
    g: GraphView,
    query: Seq<u32>,
    k: usize,
    ef_search: usize,
)
    requires
        valid(g),
        g.nodes.len() <= usize::MAX,
    ensures
        graph_hits(kernel, g, query, k, ef_search).len() <= k,
        descending(graph_hits(kernel, g, query, k, ef_search)),
        graph_hits(kernel, g, query, k, ef_search).no_duplicates(),
        forall|i: int, j: int|
            0 <= i < j < graph_hits(kernel, g, query, k, ef_search).len() ==> (
            #[trigger] graph_hits(kernel, g, query, k, ef_search)[i]).id != (
            #[trigger] graph_hits(kernel, g, query, k, ef_search)[j]).id,
        forall|i: int|
            0 <= i < graph_hits(kernel, g, query, k, ef_search).len() ==> graph_ids(g).contains(
                (#[trigger] graph_hits(kernel, g, query, k, ef_search)[i]).id,
            ),
{
    let found = searched(kernel, g, query, ef_search);
    let hits = graph_hits(kernel, g, query, k, ef_search);
    match g.entry_point {
        None => {},
        Some(entry) => {
            let start = crate::hnsw::model::descended(
                kernel,
                g,
                query,
                entry as int,
                g.max_level as int,
                0,
            );
            lemma_descended_in_range(kernel, g, query, entry as int, g.max_level as int, 0);
            lemma_layer_search_descends(kernel, g, query, start, ef_search, 0);
            lemma_layer_search_nodes(kernel, g, query, start, ef_search, 0);
            let all = node_ranks(kernel, g, query, found);
            assert forall|i: int, j: int| 0 <= i < j < hits.len() implies better(
                #[trigger] hits[i],
                #[trigger] hits[j],
            ) by {
                assert(hits[i] == all[i] && hits[j] == all[j]);
            }
            assert forall|i: int| 0 <= i < hits.len() implies graph_ids(g).contains(
                (#[trigger] hits[i]).id,
            ) by {
                assert(found[i] < g.nodes.len());
                assert(g.nodes[found[i] as int].id == hits[i].id);
            }
            assert forall|i: int, j: int| 0 <= i < j < hits.len() implies (#[trigger] hits[i]).id
                != (#[trigger] hits[j]).id by {
                assert(better(all[i], all[j]));
                assert(found[i] < g.nodes.len() && found[j] < g.nodes.len());
                let a = found[i] as int;
                let b = found[j] as int;
                if a == b {
                    lemma_better_total(all[i], all[j]);
                }
                if a < b {
                    assert(g.nodes[a].id != g.nodes[b].id);
                } else if b < a {
                    assert(g.nodes[b].id != g.nodes[a].id);
                }
            }
        },
    }
    lemma_descending_distinct(hits);
}

/// A search of a graph that is not empty finds something.
pub proof fn law_nonempty_graph_gives_a_result<K: Kernel>(
    kernel: K,
    g: GraphView,
    query: Seq<u32>,
    k: usize,
    ef_search: usize,
)
    requires
        valid(g),
        g.nodes.len() > 0,
        1 <= k <= ef_search,
    ensures
        graph_hits(kernel, g, query, k, ef_search).len() > 0,
{
    let entry = g.entry_point->0 as int;
    let start = crate::hnsw::model::descended(kernel, g, query, entry, g.max_level as int, 0);
    let walk = walk_from(kernel, g, query, start);
    lemma_walked_finds(kernel, g, query, ef_search, 0, walk, g.nodes.len());
    let results = walked(kernel, g, query, ef_search, 0, walk, g.nodes.len()).results;
    crate::hnsw::model::lemma_by_rank_members(kernel, g, query, item_nodes(results));
}

proof fn lemma_considered_finds<K: Kernel>(
    kernel: K,
    g: GraphView,
    query: Seq<u32>,
    ef: usize,
    walk: Walk,
    nodes: Seq<usize>,
)
    requires
        ef >= 1,
        walk.results.len() > 0,
    ensures
        considered_all(kernel, g, query, ef, walk, nodes).results.len() > 0,
    decreases nodes.len(),
{
    if nodes.len() > 0 {
        lemma_considered_finds(kernel, g, query, ef, walk, nodes.drop_last());
        let before = considered_all(kernel, g, query, ef, walk, nodes.drop_last());
        let item = item_of(kernel, g, query, nodes.last() as int);
        crate::hnsw::model::lemma_item_placed(before.results, item);
    }
}

proof fn lemma_walked_finds<K: Kernel>(
    kernel: K,
    g: GraphView,
    query: Seq<u32>,
    ef: usize,
    layer: int,
    walk: Walk,
    steps: nat,
)
    requires
        ef >= 1,
        walk.results.len() > 0,
    ensures
        walked(kernel, g, query, ef, layer, walk, steps).results.len() > 0,
    decreases steps,
{
    if steps > 0 && !walk_over(ef, walk) {
        let rest = Walk { frontier: walk.frontier.drop_first(), ..walk };
        lemma_considered_finds(
            kernel,
            g,
            query,
            ef,
            rest,
            links(g, walk.frontier[0].index as int, layer),
        );
        lemma_walked_finds(
            kernel,
            g,
            query,
            ef,
            layer,
            expanded(kernel, g, query, ef, layer, walk),
            (steps - 1) as nat,
        );
    }
}

proof fn lemma_run_grows(hash: u64, a: u64, b: u64, limit: nat)
    requires
        a <= b,
    ensures
        run_below(hash, a, limit) <= run_below(hash, b, limit) <= limit,
    decreases limit,
{
    if limit > 0 {
        lemma_run_grows(next_hash(hash), a, b, (limit - 1) as nat);
    }
}

/// The level of a node falls as `m` grows, never passes the highest level, and is zero
/// exactly where the hash of the ID lies above its share of all hashes.
pub proof fn law_levels_fall_with_m(id: Seq<char>, a: usize, b: usize)
    requires
        1 <= a <= b,
    ensures
        level_of(id, b) <= level_of(id, a) <= MAX_LEVEL,
        level_of(id, a) == 0 <==> fnv1a(encode_utf8(id)) >= u64::MAX / (a as u64),
{
    let hash = fnv1a(encode_utf8(id));
    let x = u64::MAX / (a as u64);
    let y = u64::MAX / (b as u64);
    let top = u64::MAX as int;
    let (p, q) = (a as int, b as int);
    assert(top / q <= top / p && top / q >= 1) by (nonlinear_arith)
        requires
            1 <= p <= q <= top,
    ;
    assert(y <= x && y >= 1);
    lemma_run_grows(hash, level_threshold(b), level_threshold(a), MAX_LEVEL as nat);
}

proof fn lemma_grown_all<K: Kernel>(
    kernel: K,
    g: GraphView,
    points: Seq<(Seq<char>, Seq<u32>)>,
)
    requires
        lawful(kernel),
        valid(g),
        g.nodes.len() == 0,
        points.len() <= usize::MAX,
        grown_all(kernel, g, points) is Ok,
    ensures
        ({
            let after = grown_all(kernel, g, points)->Ok_0;
            &&& valid(after)
            &&& layered(after)
            &&& after.dimension == g.dimension && after.metric == g.metric && after.config
                == g.config
            &&& after.nodes.len() == points.len()
            &&& forall|i: int|
                0 <= i < points.len() ==> (#[trigger] after.nodes[i]).id == points[i].0
                    && after.nodes[i].vector == prepared(kernel, g.metric, points[i].1)->Ok_0
        }),
    decreases points.len(),
{
    if points.len() > 0 {
        let rest = points.drop_last();
        let done = grown_all(kernel, g, rest)->Ok_0;
        lemma_grown_all(kernel, g, rest);
        let (id, vector) = points.last();
        let ready = prepared(kernel, g.metric, vector)->Ok_0;
        law_preparation_keeps_the_length(kernel, g.metric, vector);
        lemma_grown(kernel, done, id, ready);
        let after = grown_all(kernel, g, points)->Ok_0;
        assert forall|i: int| 0 <= i < points.len() implies (#[trigger] after.nodes[i]).id
            == points[i].0 && after.nodes[i].vector == prepared(
            kernel,
            g.metric,
            points[i].1,
        )->Ok_0 by {
            if i < rest.len() {
                assert(done.nodes[i].id == rest[i].0);
            }
        }
    }
}

/// A graph that was built is valid and holds exactly the points that it was built
/// of, in their order, each with its prepared vector.
pub proof fn law_built_graph_holds_its_points<K: Kernel>(
    kernel: K,
    dimension: usize,
    metric: Metric,
    config: HnswConfig,
    points: Seq<(Seq<char>, Seq<u32>)>,
)
    requires
        lawful(kernel),
        points.len() <= usize::MAX,
        built(kernel, dimension, metric, config, points) is Ok,
    ensures
        ({
            let graph = built(kernel, dimension, metric, config, points)->Ok_0;
            &&& valid(graph)
            &&& layered(graph)
            &&& graph.dimension == dimension && graph.metric == metric && graph.config == config
            &&& graph.nodes.len() == points.len()
            &&& forall|i: int|
                0 <= i < points.len() ==> (#[trigger] graph.nodes[i]).id == points[i].0
                    && graph.nodes[i].vector == prepared(kernel, metric, points[i].1)->Ok_0
        }),
{
    lemma_grown_all(kernel, empty_graph(dimension, metric, config), points);
}

/// Every result of a search is a node of the graph with the score of its vector.
pub proof fn law_graph_results_show_their_scores<K: Kernel>(
    kernel: K,
    g: GraphView,
    query: Seq<u32>,
    k: usize,
    ef_search: usize,
)
    requires
        valid(g),
        g.nodes.len() <= usize::MAX,
    ensures
        forall|i: int|
            0 <= i < graph_hits(kernel, g, query, k, ef_search).len() ==> exists|x: int|
                {
                    &&& 0 <= x < g.nodes.len()
                    &&& (#[trigger] g.nodes[x]).id == (#[trigger] graph_hits(
                        kernel,
                        g,
                        query,
                        k,
                        ef_search,
                    )[i]).id
                    &&& graph_hits(kernel, g, query, k, ef_search)[i].score == scored(
                        kernel,
                        g.metric,
                        query,
                        g.nodes[x].vector,
                    )
                },
{
    let found = searched(kernel, g, query, ef_search);
    let hits = graph_hits(kernel, g, query, k, ef_search);
    if let Some(entry) = g.entry_point {
        let start = crate::hnsw::model::descended(
            kernel,
            g,
            query,
            entry as int,
            g.max_level as int,
            0,
        );
        lemma_descended_in_range(kernel, g, query, entry as int, g.max_level as int, 0);
        lemma_layer_search_nodes(kernel, g, query, start, ef_search, 0);
        assert forall|i: int| 0 <= i < hits.len() implies exists|x: int|
            {
                &&& 0 <= x < g.nodes.len()
                &&& (#[trigger] g.nodes[x]).id == (#[trigger] hits[i]).id
                &&& hits[i].score == scored(kernel, g.metric, query, g.nodes[x].vector)
            } by {
            let x = found[i] as int;
            assert(found[i] < g.nodes.len());
            assert(g.nodes[x].id == hits[i].id);
        }
    }
}

proof fn lemma_hash_step(h: u64, g: u64, a: u8, b: u8)
    ensures
        h != g ==> (h ^ (a as u64)).wrapping_mul(0x0000_0100_0000_01b3) != (g ^ (a as u64)).wrapping_mul(
            0x0000_0100_0000_01b3,
        ),
        a != b ==> (h ^ (a as u64)).wrapping_mul(0x0000_0100_0000_01b3) != (h ^ (b as u64)).wrapping_mul(
            0x0000_0100_0000_01b3,
        ),
{
    let x = h ^ (a as u64);
    let y = g ^ (a as u64);
    let z = h ^ (b as u64);
    assert(h != g ==> (h ^ (a as u64)) != (g ^ (a as u64))) by (bit_vector);
    assert(a != b ==> (h ^ (a as u64)) != (h ^ (b as u64))) by (bit_vector);
    if x.wrapping_mul(0x0000_0100_0000_01b3) == y.wrapping_mul(0x0000_0100_0000_01b3) {
        lemma_prime_cancels(x, y);
    }
    if x.wrapping_mul(0x0000_0100_0000_01b3) == z.wrapping_mul(0x0000_0100_0000_01b3) {
        lemma_prime_cancels(x, z);
    }
}

/// Multiplying by the prime loses nothing: the prime is odd.
proof fn lemma_prime_cancels(x: u64, y: u64)
    requires
        x.wrapping_mul(0x0000_0100_0000_01b3) == y.wrapping_mul(0x0000_0100_0000_01b3),
    ensures
        x == y,
{
    let p = 0x0000_0100_0000_01b3int;
    let inverse = 0xce96_5057_aff6_957bint;
    let all = 0x1_0000_0000_0000_0000int;
    assert((p * inverse) % all == 1) by (nonlinear_arith)
        requires
            p == 0x0000_0100_0000_01b3int,
            inverse == 0xce96_5057_aff6_957bint,
            all == 0x1_0000_0000_0000_0000int,
    ;
    let xp = x * p;
    let yp = y * p;
    assert(xp % all == yp % all);
    assert((xp * inverse) % all == (yp * inverse) % all) by {
        vstd::arithmetic::div_mod::lemma_mul_mod_noop(xp, inverse, all);
        vstd::arithmetic::div_mod::lemma_mul_mod_noop(yp, inverse, all);
    }
    assert(xp * inverse == x * (p * inverse)) by (nonlinear_arith)
        requires
            xp == x * p,
    ;
    assert(yp * inverse == y * (p * inverse)) by (nonlinear_arith)
        requires
            yp == y * p,
    ;
    vstd::arithmetic::div_mod::lemma_mul_mod_noop(x as int, p * inverse, all);
    vstd::arithmetic::div_mod::lemma_mul_mod_noop(y as int, p * inverse, all);
    vstd::arithmetic::div_mod::lemma_small_mod(x as nat, all as nat);
    vstd::arithmetic::div_mod::lemma_small_mod(y as nat, all as nat);
    assert(((x as int % all) * 1) % all == x);
    assert(((y as int % all) * 1) % all == y);
}

/// The hash that decides levels and shards depends on every byte: two byte strings of one
/// length that differ in a single byte never have the same hash.
pub proof fn law_hash_depends_on_every_byte(a: Seq<u8>, b: Seq<u8>, at: int)
    requires
        a.len() == b.len(),
        0 <= at < a.len(),
        a[at] != b[at],
        forall|i: int| 0 <= i < a.len() && i != at ==> #[trigger] a[i] == b[i],
    ensures
        fnv1a(a) != fnv1a(b),
    decreases a.len(),
{
    let front = a.drop_last();
    let other = b.drop_last();
    let end = a.len() - 1;
    lemma_hash_step(fnv1a(front), fnv1a(other), a[end], b[end]);
    if at == end {
        assert(front =~= other);
    } else {
        assert forall|i: int| 0 <= i < front.len() && i != at implies #[trigger] front[i]
            == other[i] by {
            assert(a[i] == b[i]);
        }
        law_hash_depends_on_every_byte(front, other, at);
        assert(a[end] == b[end]);
    }
}

/// A graph can be built where its points have a dimension and its nodes keep at least two
/// neighbours, of no fewer candidates; and searched where results are asked for, in no
/// less breadth, for a vector of its own size.
pub proof fn law_proper_graphs_are_searched<K: Kernel>(
    kernel: K,
    g: GraphView,
    dimension: usize,
    config: HnswConfig,
    query: Seq<u32>,
    k: usize,
    ef_search: usize,
)
    ensures
        config_verdict(dimension, config) is Ok <==> dimension >= 1 && 2 <= config.m
            <= config.ef_construction,
        graph_query(kernel, g, query, k, ef_search) is Ok <==> 1 <= k <= ef_search && query.len()
            == g.dimension && prepared(kernel, g.metric, query) is Ok,
{
}

} // verus!
