//! Why a graph stays valid while it grows.
use crate::hnsw::model::{
    at_most, by_rank, closest_of, connected, connected_all, descended, entry_valid, greedy, grown,
    ids_distinct, item_nodes, kept, layer_search, layered, lemma_by_rank_members,
    lemma_by_rank_satisfy, lemma_closest_of, lemma_links_in_range, lemma_walked_satisfy, level_of,
    level_threshold, linked, linked_down, links, links_valid, node_valid, nodes_satisfy, relinked,
    run_below, valid, walk_from, walked, with_node, GraphView, MAX_LEVEL,
};
use crate::metric::Kernel;
use vstd::prelude::*;

verus! {

/// Two graphs that differ only in their links.
pub open spec fn same_shape(a: GraphView, b: GraphView) -> bool {
    &&& a.dimension == b.dimension
    &&& a.metric == b.metric
    &&& a.config == b.config
    &&& a.entry_point == b.entry_point
    &&& a.max_level == b.max_level
    &&& a.nodes.len() == b.nodes.len()
    &&& forall|i: int|
        0 <= i < a.nodes.len() ==> (#[trigger] a.nodes[i]).id == b.nodes[i].id && a.nodes[i].vector
            == b.nodes[i].vector && a.nodes[i].neighbors.len() == b.nodes[i].neighbors.len()
}

/// The node takes part in a layer, and is not the new one.
pub open spec fn joins(g: GraphView, new: int, layer: int, i: usize) -> bool {
    i < g.nodes.len() && i != new && g.nodes[i as int].neighbors.len() > layer
}

/// No node links to the new one in the layers up to `layer`.
pub open spec fn unlinked(g: GraphView, new: int, layer: int) -> bool {
    forall|i: int, l: int, j: int|
        0 <= i < g.nodes.len() && l <= layer && 0 <= j < links(g, i, l).len() ==> (
        #[trigger] links(g, i, l)[j]) != new
}

/// What holds while the new node is being linked, before `layer` is.
pub open spec fn growing(g: GraphView, new: int, layer: int) -> bool {
    &&& valid(g)
    &&& layered(g)
    &&& g.nodes.len() <= usize::MAX
    &&& 0 <= new < g.nodes.len()
    &&& unlinked(g, new, layer)
}

pub proof fn lemma_relinked(g: GraphView, node: int, layer: int, list: Seq<usize>)
    requires
        valid(g),
        0 <= node < g.nodes.len(),
        0 <= layer < g.nodes[node].neighbors.len(),
        links_valid(g, node, list),
    ensures
        valid(relinked(g, node, layer, list)),
        same_shape(relinked(g, node, layer, list), g),
        forall|i: int, l: int|
            0 <= i < g.nodes.len() ==> #[trigger] links(relinked(g, node, layer, list), i, l) == if i
                == node && l == layer {
                list
            } else {
                links(g, i, l)
            },
{
    let after = relinked(g, node, layer, list);
    assert forall|i: int| 0 <= i < after.nodes.len() implies #[trigger] node_valid(after, i) by {
        assert(node_valid(g, i));
        assert forall|l: int| 0 <= l < after.nodes[i].neighbors.len() implies links_valid(
            after,
            i,
            #[trigger] after.nodes[i].neighbors[l],
        ) by {
            if i == node && l == layer {
            } else {
                assert(links_valid(g, i, g.nodes[i].neighbors[l]));
            }
        }
    }
    assert forall|i: int, j: int| 0 <= i < j < after.nodes.len() implies (
    #[trigger] after.nodes[i]).id != (#[trigger] after.nodes[j]).id by {
        assert(g.nodes[i].id != g.nodes[j].id);
    }
}

/// The neighbours that a node keeps are among those offered, and no more than `m`.
pub proof fn lemma_kept<K: Kernel>(
    kernel: K,
    g: GraphView,
    node: int,
    list: Seq<usize>,
    p: spec_fn(usize) -> bool,
)
    requires
        nodes_satisfy(list, p),
    ensures
        nodes_satisfy(kept(kernel, g, node, list), p),
        kept(kernel, g, node, list).len() <= g.config.m,
{
    if list.len() > g.config.m {
        let sorted = by_rank(kernel, g, g.nodes[node].vector, list);
        lemma_by_rank_satisfy(kernel, g, g.nodes[node].vector, list, p);
        lemma_by_rank_members(kernel, g, g.nodes[node].vector, list);
        let short = sorted.take(g.config.m as int);
        assert forall|i: int| 0 <= i < short.len() implies p(#[trigger] short[i]) by {
            assert(short[i] == sorted[i]);
        }
    }
}

/// Linking one node to another keeps the graph in order, and touches nothing else.
pub proof fn lemma_linked<K: Kernel>(kernel: K, g: GraphView, node: int, other: int, layer: int)
    requires
        valid(g),
        layered(g),
        g.nodes.len() <= usize::MAX,
        0 <= node < g.nodes.len(),
        0 <= other < g.nodes.len(),
        node != other,
        0 <= layer < g.nodes[node].neighbors.len(),
        layer < g.nodes[other].neighbors.len(),
    ensures
        valid(linked(kernel, g, node, other, layer)),
        layered(linked(kernel, g, node, other, layer)),
        same_shape(linked(kernel, g, node, other, layer), g),
        forall|i: int, l: int|
            0 <= i < g.nodes.len() && l != layer ==> #[trigger] links(
                linked(kernel, g, node, other, layer),
                i,
                l,
            ) == links(g, i, l),
{
    let offered = links(g, node, layer).push(other as usize);
    let list = kept(kernel, g, node, offered);
    let p = |i: usize|
        i < g.nodes.len() && i != node && g.nodes[i as int].neighbors.len() > layer;
    assert(node_valid(g, node));
    lemma_links_in_range(g, node, layer);
    assert forall|j: int| 0 <= j < offered.len() implies p(#[trigger] offered[j]) by {
        if j < links(g, node, layer).len() {
            assert(offered[j] == links(g, node, layer)[j]);
        }
    }
    lemma_kept(kernel, g, node, offered, p);
    assert(links_valid(g, node, list)) by {
        assert forall|j: int| 0 <= j < list.len() implies (#[trigger] list[j]) < g.nodes.len()
            && list[j] != node by {
            assert(p(list[j]));
        }
    }
    lemma_relinked(g, node, layer, list);
    let after = linked(kernel, g, node, other, layer);
    assert forall|i: int, l: int, j: int|
        0 <= i < after.nodes.len() && 0 <= j < links(after, i, l).len() implies after.nodes[(
    #[trigger] links(after, i, l)[j]) as int].neighbors.len() > l by {
        if i == node && l == layer {
            assert(links(after, i, l) == list);
            assert(p(list[j]));
            assert(after.nodes[list[j] as int].id == g.nodes[list[j] as int].id);
        } else {
            assert(links(after, i, l) == links(g, i, l));
            assert(node_valid(g, i));
            lemma_links_in_range(g, i, l);
            let other = links(g, i, l)[j] as int;
            assert(g.nodes[other].neighbors.len() > l);
            assert(after.nodes[other].id == g.nodes[other].id);
        }
    }
}

/// Linking two nodes to each other keeps the graph in order.
pub proof fn lemma_connected<K: Kernel>(
    kernel: K,
    g: GraphView,
    left: int,
    right: int,
    layer: int,
)
    requires
        valid(g),
        layered(g),
        g.nodes.len() <= usize::MAX,
        0 <= left < g.nodes.len(),
        0 <= right < g.nodes.len(),
        left != right,
        0 <= layer < g.nodes[left].neighbors.len(),
        layer < g.nodes[right].neighbors.len(),
    ensures
        valid(connected(kernel, g, left, right, layer)),
        layered(connected(kernel, g, left, right, layer)),
        same_shape(connected(kernel, g, left, right, layer), g),
        forall|i: int, l: int|
            0 <= i < g.nodes.len() && l != layer ==> #[trigger] links(
                connected(kernel, g, left, right, layer),
                i,
                l,
            ) == links(g, i, l),
{
    lemma_linked(kernel, g, left, right, layer);
    let once = linked(kernel, g, left, right, layer);
    assert(once.nodes[right].neighbors.len() == g.nodes[right].neighbors.len());
    assert(once.nodes[left].neighbors.len() == g.nodes[left].neighbors.len());
    lemma_linked(kernel, once, right, left, layer);
    let twice = connected(kernel, g, left, right, layer);
    assert forall|i: int, l: int| 0 <= i < g.nodes.len() && l != layer implies #[trigger] links(
        twice,
        i,
        l,
    ) == links(g, i, l) by {
        assert(links(twice, i, l) == links(once, i, l));
        assert(links(once, i, l) == links(g, i, l));
    }
    assert forall|i: int| 0 <= i < twice.nodes.len() implies (#[trigger] twice.nodes[i]).id
        == g.nodes[i].id && twice.nodes[i].vector == g.nodes[i].vector
        && twice.nodes[i].neighbors.len() == g.nodes[i].neighbors.len() by {
        assert(once.nodes[i].id == g.nodes[i].id);
    }
}

pub proof fn lemma_connected_all<K: Kernel>(
    kernel: K,
    g: GraphView,
    new: int,
    others: Seq<usize>,
    layer: int,
)
    requires
        growing(g, new, layer),
        0 <= layer < g.nodes[new].neighbors.len(),
        forall|j: int| 0 <= j < others.len() ==> joins(g, new, layer, #[trigger] others[j]),
    ensures
        growing(connected_all(kernel, g, new, others, layer), new, layer - 1),
        same_shape(connected_all(kernel, g, new, others, layer), g),
    decreases others.len(),
{
    if others.len() > 0 {
        let rest = others.drop_last();
        assert forall|j: int| 0 <= j < rest.len() implies joins(
            g,
            new,
            layer,
            #[trigger] rest[j],
        ) by {
            assert(joins(g, new, layer, others[j]));
        }
        lemma_connected_all(kernel, g, new, rest, layer);
        let before = connected_all(kernel, g, new, rest, layer);
        let other = others.last();
        assert(joins(g, new, layer, others[others.len() - 1]));
        assert(before.nodes[new].neighbors.len() == g.nodes[new].neighbors.len());
        assert(before.nodes[other as int].neighbors.len() == g.nodes[other as int].neighbors.len());
        lemma_connected(kernel, before, new, other as int, layer);
        let after = connected_all(kernel, g, new, others, layer);
        assert forall|i: int, l: int, j: int|
            0 <= i < after.nodes.len() && l <= layer - 1 && 0 <= j < links(
                after,
                i,
                l,
            ).len() implies (#[trigger] links(after, i, l)[j]) != new by {
            assert(links(after, i, l) == links(before, i, l));
            assert(links(before, i, l)[j] != new);
        }
        assert forall|i: int| 0 <= i < after.nodes.len() implies (#[trigger] after.nodes[i]).id
            == g.nodes[i].id && after.nodes[i].vector == g.nodes[i].vector
            && after.nodes[i].neighbors.len() == g.nodes[i].neighbors.len() by {
            assert(before.nodes[i].id == g.nodes[i].id);
        }
    }
}

/// From a node that joins a layer its links lead to such nodes only.
proof fn lemma_joins_closed(g: GraphView, new: int, layer: int, i: usize)
    requires
        growing(g, new, layer),
        joins(g, new, layer, i),
    ensures
        nodes_satisfy(links(g, i as int, layer), |x: usize| joins(g, new, layer, x)),
{
    let p = |x: usize| joins(g, new, layer, x);
    assert(node_valid(g, i as int));
    lemma_links_in_range(g, i as int, layer);
    let list = links(g, i as int, layer);
    assert forall|j: int| 0 <= j < list.len() implies p(#[trigger] list[j]) by {
        assert(links(g, i as int, layer)[j] != new);
        assert(g.nodes[links(g, i as int, layer)[j] as int].neighbors.len() > layer);
    }
}

/// A search in a layer that starts at a node of the layer finds such nodes only.
pub proof fn lemma_layer_search_joins<K: Kernel>(
    kernel: K,
    g: GraphView,
    query: Seq<u32>,
    new: int,
    entry: int,
    ef: usize,
    layer: int,
)
    requires
        growing(g, new, layer),
        0 <= entry <= usize::MAX,
        joins(g, new, layer, entry as usize),
    ensures
        ({
            let found = layer_search(kernel, g, query, entry, ef, layer);
            forall|j: int| 0 <= j < found.len() ==> joins(g, new, layer, #[trigger] found[j])
        }),
{
    let p = |x: usize| joins(g, new, layer, x);
    let start = walk_from(kernel, g, query, entry);
    assert forall|i: usize| p(i) implies nodes_satisfy(#[trigger] links(g, i as int, layer), p) by {
        lemma_joins_closed(g, new, layer, i);
    }
    lemma_walked_satisfy(kernel, g, query, ef, layer, start, g.nodes.len(), p);
    let results = walked(kernel, g, query, ef, layer, start, g.nodes.len()).results;
    let nodes = item_nodes(results);
    assert(nodes_satisfy(nodes, p)) by {
        assert forall|i: int| 0 <= i < nodes.len() implies p(#[trigger] nodes[i]) by {
            assert(p(results[i].index));
        }
    }
    lemma_by_rank_satisfy(kernel, g, query, nodes, p);
    let found = layer_search(kernel, g, query, entry, ef, layer);
    assert forall|j: int| 0 <= j < found.len() implies joins(
        g,
        new,
        layer,
        #[trigger] found[j],
    ) by {
        assert(p(found[j]));
    }
}

proof fn lemma_greedy_joins<K: Kernel>(
    kernel: K,
    g: GraphView,
    query: Seq<u32>,
    new: int,
    node: int,
    layer: int,
    steps: nat,
)
    requires
        growing(g, new, layer),
        0 <= node <= usize::MAX,
        joins(g, new, layer, node as usize),
    ensures
        0 <= greedy(kernel, g, query, node, layer, steps) <= usize::MAX,
        joins(g, new, layer, greedy(kernel, g, query, node, layer, steps) as usize),
    decreases steps,
{
    let list = links(g, node, layer);
    let best = closest_of(kernel, g, query, node, list);
    lemma_closest_of(kernel, g, query, node, list);
    if steps > 0 && best != node {
        lemma_joins_closed(g, new, layer, node as usize);
        let p = |x: usize| joins(g, new, layer, x);
        let j = choose|j: int| 0 <= j < list.len() && #[trigger] list[j] == best;
        assert(p(list[j]));
        lemma_greedy_joins(kernel, g, query, new, best, layer, (steps - 1) as nat);
    }
}

/// The climbs down to a layer end at a node of that layer.
pub proof fn lemma_descended_joins<K: Kernel>(
    kernel: K,
    g: GraphView,
    query: Seq<u32>,
    new: int,
    node: int,
    high: int,
    low: int,
)
    requires
        growing(g, new, high),
        0 <= node <= usize::MAX,
        0 <= low,
        joins(g, new, high, node as usize),
    ensures
        ({
            let end = descended(kernel, g, query, node, high, low);
            let top = if high <= low {
                high
            } else {
                low
            };
            0 <= end <= usize::MAX && joins(g, new, top, end as usize)
        }),
    decreases high - low,
{
    if high > low {
        lemma_greedy_joins(kernel, g, query, new, node, high, g.nodes.len());
        let next = greedy(kernel, g, query, node, high, g.nodes.len());
        assert(unlinked(g, new, high - 1)) by {
            assert forall|i: int, l: int, j: int|
                0 <= i < g.nodes.len() && l <= high - 1 && 0 <= j < links(
                    g,
                    i,
                    l,
                ).len() implies (#[trigger] links(g, i, l)[j]) != new by {}
        }
        assert(joins(g, new, high - 1, next as usize));
        lemma_descended_joins(kernel, g, query, new, next, high - 1, low);
    }
}

/// The first nodes of a list.
pub proof fn lemma_at_most_joins(
    g: GraphView,
    new: int,
    layer: int,
    found: Seq<usize>,
    count: usize,
)
    requires
        forall|j: int| 0 <= j < found.len() ==> joins(g, new, layer, #[trigger] found[j]),
    ensures
        forall|j: int|
            0 <= j < at_most(found, count).len() ==> joins(
                g,
                new,
                layer,
                #[trigger] at_most(found, count)[j],
            ),
{
    let short = at_most(found, count);
    assert forall|j: int| 0 <= j < short.len() implies joins(g, new, layer, #[trigger] short[j]) by {
        assert(short[j] == found[j]);
    }
}

/// Linking the new node in all its layers keeps the graph in order.
pub proof fn lemma_linked_down<K: Kernel>(
    kernel: K,
    g: GraphView,
    new: int,
    current: int,
    layer: int,
)
    requires
        growing(g, new, layer),
        layer < g.nodes[new].neighbors.len(),
        0 <= current <= usize::MAX,
        joins(g, new, layer, current as usize),
    ensures
        valid(linked_down(kernel, g, new, current, layer)),
        layered(linked_down(kernel, g, new, current, layer)),
        same_shape(linked_down(kernel, g, new, current, layer), g),
    decreases layer + 1,
{
    if layer >= 0 {
        let query = g.nodes[new].vector;
        let found = layer_search(kernel, g, query, current, g.config.ef_construction, layer);
        let chosen = at_most(found, g.config.m);
        lemma_layer_search_joins(
            kernel,
            g,
            query,
            new,
            current,
            g.config.ef_construction,
            layer,
        );
        lemma_at_most_joins(g, new, layer, found, g.config.m);
        lemma_connected_all(kernel, g, new, chosen, layer);
        let after = connected_all(kernel, g, new, chosen, layer);
        let next = if chosen.len() > 0 {
            chosen[0] as int
        } else {
            current
        };
        assert(joins(g, new, layer, next as usize));
        assert(after.nodes[next].neighbors.len() == g.nodes[next].neighbors.len());
        assert(after.nodes[new].neighbors.len() == g.nodes[new].neighbors.len());
        lemma_linked_down(kernel, after, new, next, layer - 1);
        let done = linked_down(kernel, g, new, current, layer);
        assert forall|i: int| 0 <= i < done.nodes.len() implies (#[trigger] done.nodes[i]).id
            == g.nodes[i].id && done.nodes[i].vector == g.nodes[i].vector
            && done.nodes[i].neighbors.len() == g.nodes[i].neighbors.len() by {
            assert(after.nodes[i].id == g.nodes[i].id);
        }
    }
}

pub proof fn lemma_run_below(hash: u64, threshold: u64, limit: nat)
    ensures
        run_below(hash, threshold, limit) <= limit,
    decreases limit,
{
    if limit > 0 && hash < threshold {
        lemma_run_below(crate::hnsw::model::next_hash(hash), threshold, (limit - 1) as nat);
    }
}

/// A new node without links keeps the graph in order.
pub proof fn lemma_with_node(g: GraphView, id: Seq<char>, vector: Seq<u32>)
    requires
        valid(g),
        layered(g),
        g.nodes.len() < usize::MAX,
        id.len() > 0,
        vector.len() == g.dimension,
        forall|i: int| 0 <= i < g.nodes.len() ==> (#[trigger] g.nodes[i]).id != id,
    ensures
        level_of(id, g.config.m) <= MAX_LEVEL,
        g.nodes.len() > 0 ==> forall|layer: int|
            growing(#[trigger] with_node(g, id, vector), g.nodes.len() as int, layer),
        ({
            let wider = with_node(g, id, vector);
            &&& forall|i: int| 0 <= i < wider.nodes.len() ==> #[trigger] node_valid(wider, i)
            &&& ids_distinct(wider.nodes)
            &&& layered(wider)
        }),
{
    let wider = with_node(g, id, vector);
    let new = g.nodes.len() as int;
    lemma_run_below(
        crate::hnsw::model::fnv1a(vstd::utf8::encode_utf8(id)),
        level_threshold(g.config.m),
        MAX_LEVEL as nat,
    );
    assert forall|i: int| 0 <= i < wider.nodes.len() implies #[trigger] node_valid(wider, i) by {
        if i < new {
            assert(node_valid(g, i));
            assert(wider.nodes[i] == g.nodes[i]);
            assert forall|l: int| 0 <= l < wider.nodes[i].neighbors.len() implies links_valid(
                wider,
                i,
                #[trigger] wider.nodes[i].neighbors[l],
            ) by {
                assert(links_valid(g, i, g.nodes[i].neighbors[l]));
            }
        }
    }
    assert forall|i: int, j: int| 0 <= i < j < wider.nodes.len() implies (
    #[trigger] wider.nodes[i]).id != (#[trigger] wider.nodes[j]).id by {
        assert(wider.nodes[i] == g.nodes[i]);
        if j < new {
            assert(wider.nodes[j] == g.nodes[j]);
        }
    }
    assert forall|i: int, l: int, j: int|
        0 <= i < wider.nodes.len() && 0 <= j < links(wider, i, l).len() implies wider.nodes[(
    #[trigger] links(wider, i, l)[j]) as int].neighbors.len() > l && links(wider, i, l)[j]
        != new by {
        if i < new {
            assert(wider.nodes[i] == g.nodes[i]);
            assert(links(wider, i, l) == links(g, i, l));
            assert(node_valid(g, i));
            lemma_links_in_range(g, i, l);
            let other = links(g, i, l)[j];
            assert(g.nodes[other as int].neighbors.len() > l);
            assert(wider.nodes[other as int] == g.nodes[other as int]);
        }
    }
    if g.nodes.len() > 0 {
        assert(entry_valid(wider)) by {
            match g.entry_point {
                None => {},
                Some(entry) => {
                    assert(wider.nodes[entry as int] == g.nodes[entry as int]);
                },
            }
        }
    }
}

/// A grown graph is valid, and holds the points of the graph before it with the
/// new one behind them.
pub proof fn lemma_grown<K: Kernel>(kernel: K, g: GraphView, id: Seq<char>, vector: Seq<u32>)
    requires
        valid(g),
        layered(g),
        g.nodes.len() < usize::MAX,
        id.len() > 0,
        vector.len() == g.dimension,
        forall|i: int| 0 <= i < g.nodes.len() ==> (#[trigger] g.nodes[i]).id != id,
    ensures
        valid(grown(kernel, g, id, vector)),
        layered(grown(kernel, g, id, vector)),
        ({
            let after = grown(kernel, g, id, vector);
            &&& after.dimension == g.dimension && after.metric == g.metric && after.config
                == g.config
            &&& after.nodes.len() == g.nodes.len() + 1
            &&& forall|i: int|
                0 <= i < g.nodes.len() ==> (#[trigger] after.nodes[i]).id == g.nodes[i].id
                    && after.nodes[i].vector == g.nodes[i].vector
            &&& after.nodes[g.nodes.len() as int].id == id
            &&& after.nodes[g.nodes.len() as int].vector == vector
        }),
{
    let wider = with_node(g, id, vector);
    let new = g.nodes.len() as int;
    let level = level_of(id, g.config.m);
    lemma_with_node(g, id, vector);
    match g.entry_point {
        None => {
            let after = grown(kernel, g, id, vector);
            assert forall|i: int| 0 <= i < after.nodes.len() implies #[trigger] node_valid(
                after,
                i,
            ) by {
                assert(node_valid(wider, i));
                assert forall|l: int| 0 <= l < after.nodes[i].neighbors.len() implies links_valid(
                    after,
                    i,
                    #[trigger] after.nodes[i].neighbors[l],
                ) by {
                    assert(links_valid(wider, i, wider.nodes[i].neighbors[l]));
                }
            }
            assert forall|i: int, l: int, j: int|
                0 <= i < after.nodes.len() && 0 <= j < links(
                    after,
                    i,
                    l,
                ).len() implies after.nodes[(#[trigger] links(
                after,
                i,
                l,
            )[j]) as int].neighbors.len() > l by {
                assert(links(after, i, l) == links(wider, i, l));
                assert(wider.nodes[links(wider, i, l)[j] as int].neighbors.len() > l);
            }
        },
        Some(entry) => {
            let current = descended(
                kernel,
                wider,
                vector,
                entry as int,
                g.max_level as int,
                level as int,
            );
            let top = if level < g.max_level {
                level as int
            } else {
                g.max_level as int
            };
            assert(growing(wider, new, g.max_level as int));
            assert(growing(wider, new, top));
            assert(wider.nodes[entry as int] == g.nodes[entry as int]);
            lemma_descended_joins(
                kernel,
                wider,
                vector,
                new,
                entry as int,
                g.max_level as int,
                level as int,
            );
            lemma_linked_down(kernel, wider, new, current, top);
            let done = linked_down(kernel, wider, new, current, top);
            let after = grown(kernel, g, id, vector);
            assert(after.nodes == done.nodes);
            assert(done.nodes[new].neighbors.len() == wider.nodes[new].neighbors.len());
            assert(done.nodes[new].id == wider.nodes[new].id);
            assert forall|i: int| 0 <= i < g.nodes.len() implies (#[trigger] after.nodes[i]).id
                == g.nodes[i].id && after.nodes[i].vector == g.nodes[i].vector by {
                assert(done.nodes[i].id == wider.nodes[i].id);
                assert(wider.nodes[i] == g.nodes[i]);
            }
            assert forall|i: int| 0 <= i < after.nodes.len() implies #[trigger] node_valid(
                after,
                i,
            ) by {
                assert(node_valid(done, i));
                assert forall|l: int| 0 <= l < after.nodes[i].neighbors.len() implies links_valid(
                    after,
                    i,
                    #[trigger] after.nodes[i].neighbors[l],
                ) by {
                    assert(links_valid(done, i, done.nodes[i].neighbors[l]));
                }
            }
            assert forall|i: int, l: int, j: int|
                0 <= i < after.nodes.len() && 0 <= j < links(
                    after,
                    i,
                    l,
                ).len() implies after.nodes[(#[trigger] links(
                after,
                i,
                l,
            )[j]) as int].neighbors.len() > l by {
                assert(links(after, i, l) == links(done, i, l));
                assert(done.nodes[links(done, i, l)[j] as int].neighbors.len() > l);
            }
            assert(entry_valid(done));
        },
    }
}

} // verus!
