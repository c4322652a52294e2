//! What the neighbour graph is, and what searching and growing it means.
use crate::bits::single_rank;
use crate::error::ErrorView;
use crate::metric::{prepared, scored, Kernel, Metric};
use crate::ranking::{better, lemma_better_total, lemma_better_transitive, Ranked};
use vstd::prelude::*;
use vstd::utf8::encode_utf8;

verus! {

/// The highest level that a node can have.
pub const MAX_LEVEL: usize = 32;

/// How the graph is built: the most neighbours of a node in a layer, and the
/// breadth of the searches that choose them.
#[derive(Debug, Clone, Copy, PartialEq, Eq, Structural)]
pub struct HnswConfig {
    pub m: usize,
    pub ef_construction: usize,
}

/// A node: a point with its links in every layer that it takes part in.
pub struct NodeView {
    pub id: Seq<char>,
    pub vector: Seq<u32>,
    pub neighbors: Seq<Seq<usize>>,
}

/// The graph.
pub struct GraphView {
    pub dimension: usize,
    pub metric: Metric,
    pub config: HnswConfig,
    pub nodes: Seq<NodeView>,
    pub entry_point: Option<usize>,
    pub max_level: usize,
}

/// The settings with which a graph can be built.
pub open spec fn config_verdict(dimension: usize, config: HnswConfig) -> core::result::Result<
    (),
    ErrorView,
> {
    if dimension == 0 {
        Err(ErrorView::InvalidConfig("dimension must be greater than zero"@))
    } else if config.m < 2 {
        Err(ErrorView::InvalidConfig("HNSW m must be at least 2"@))
    } else if config.ef_construction < config.m {
        Err(ErrorView::InvalidConfig("HNSW ef_construction must be at least m"@))
    } else {
        Ok(())
    }
}

/// The neighbours of a node in a layer; none where the node has no such layer.
pub open spec fn links(g: GraphView, node: int, layer: int) -> Seq<usize> {
    if 0 <= layer < g.nodes[node].neighbors.len() {
        g.nodes[node].neighbors[layer]
    } else {
        seq![]
    }
}

/// The node stands in the graph as it should: it has an ID and a vector of the
/// right size, takes part in one to thirty-three layers, and links to at most
/// `m` other nodes in each.
pub open spec fn node_valid(g: GraphView, i: int) -> bool {
    &&& g.nodes[i].id.len() > 0
    &&& g.nodes[i].vector.len() == g.dimension
    &&& 1 <= g.nodes[i].neighbors.len() <= MAX_LEVEL + 1
    &&& forall|layer: int|
        0 <= layer < g.nodes[i].neighbors.len() ==> links_valid(
            g,
            i,
            #[trigger] g.nodes[i].neighbors[layer],
        )
}

/// A list of links of the node `i`.
pub open spec fn links_valid(g: GraphView, i: int, list: Seq<usize>) -> bool {
    &&& list.len() <= g.config.m
    &&& forall|j: int| 0 <= j < list.len() ==> (#[trigger] list[j]) < g.nodes.len() && list[j] != i
}

/// No two nodes share an ID.
pub open spec fn ids_distinct(nodes: Seq<NodeView>) -> bool {
    forall|i: int, j: int|
        0 <= i < j < nodes.len() ==> (#[trigger] nodes[i]).id != (#[trigger] nodes[j]).id
}

/// The entry point is a node of the highest level; only an empty graph has none.
pub open spec fn entry_valid(g: GraphView) -> bool {
    &&& g.max_level <= MAX_LEVEL
    &&& match g.entry_point {
        None => g.nodes.len() == 0 && g.max_level == 0,
        Some(entry) => entry < g.nodes.len() && g.nodes[entry as int].neighbors.len() > g.max_level,
    }
}

/// The invariant of a graph.
pub open spec fn valid(g: GraphView) -> bool {
    &&& config_verdict(g.dimension, g.config) is Ok
    &&& forall|i: int| 0 <= i < g.nodes.len() ==> #[trigger] node_valid(g, i)
    &&& ids_distinct(g.nodes)
    &&& entry_valid(g)
}

/// Every link leads to a node that takes part in the layer too.
pub open spec fn layered(g: GraphView) -> bool {
    forall|i: int, layer: int, j: int|
        0 <= i < g.nodes.len() && 0 <= j < links(g, i, layer).len() ==> g.nodes[(
        #[trigger] links(g, i, layer)[j]) as int].neighbors.len() > layer
}

/// What decides the place of a node among results.
pub open spec fn node_rank<K: Kernel>(kernel: K, g: GraphView, query: Seq<u32>, i: int) -> Ranked {
    Ranked {
        score: scored(kernel, g.metric, query, g.nodes[i].vector),
        id: g.nodes[i].id,
    }
}

/// A node under consideration, with its score.
#[derive(Debug, Clone, Copy)]
pub struct Item {
    pub score: u32,
    pub index: usize,
}

/// The order of consideration: by score, then by age.
pub open spec fn item_better(a: Item, b: Item) -> bool {
    ||| single_rank(a.score) > single_rank(b.score)
    ||| a.score == b.score && a.index < b.index
}

/// A node with its score.
pub open spec fn item_of<K: Kernel>(kernel: K, g: GraphView, query: Seq<u32>, i: int) -> Item {
    Item { score: node_rank(kernel, g, query, i).score, index: i as usize }
}

/// The number of leading values that stay ahead.
pub open spec fn lead<A>(items: Seq<A>, ahead: spec_fn(A) -> bool) -> int
    decreases items.len(),
{
    if items.len() == 0 || !ahead(items[0]) {
        0
    } else {
        1 + lead(items.drop_first(), ahead)
    }
}

/// `lead` seen from the values around it.
pub proof fn lemma_lead<A>(items: Seq<A>, ahead: spec_fn(A) -> bool)
    ensures
        0 <= lead(items, ahead) <= items.len(),
        forall|i: int| 0 <= i < lead(items, ahead) ==> ahead(#[trigger] items[i]),
        lead(items, ahead) < items.len() ==> !ahead(items[lead(items, ahead)]),
    decreases items.len(),
{
    if items.len() > 0 && ahead(items[0]) {
        lemma_lead(items.drop_first(), ahead);
        assert forall|i: int| 0 <= i < lead(items, ahead) implies ahead(#[trigger] items[i]) by {
            if i > 0 {
                assert(items.drop_first()[i - 1] == items[i]);
            }
        }
    }
}

pub proof fn lemma_lead_is<A>(items: Seq<A>, ahead: spec_fn(A) -> bool, at: int)
    requires
        0 <= at <= items.len(),
        forall|i: int| 0 <= i < at ==> ahead(#[trigger] items[i]),
        at < items.len() ==> !ahead(items[at]),
    ensures
        lead(items, ahead) == at,
{
    lemma_lead(items, ahead);
    let p = lead(items, ahead);
    if p < at {
        assert(ahead(items[p]));
    }
    if at < p {
        assert(ahead(items[at]));
    }
}

/// Items with one more, put in its place.
pub open spec fn item_placed(items: Seq<Item>, item: Item) -> Seq<Item> {
    items.insert(lead(items, |other: Item| item_better(other, item)), item)
}

/// Nodes with one more, put in its place for a query.
pub open spec fn node_placed<K: Kernel>(
    kernel: K,
    g: GraphView,
    query: Seq<u32>,
    nodes: Seq<usize>,
    node: usize,
) -> Seq<usize> {
    nodes.insert(
        lead(
            nodes,
            |other: usize|
                better(
                    node_rank(kernel, g, query, other as int),
                    node_rank(kernel, g, query, node as int),
                ),
        ),
        node,
    )
}

/// Nodes in the order of their ranks for a query, best first.
pub open spec fn by_rank<K: Kernel>(
    kernel: K,
    g: GraphView,
    query: Seq<u32>,
    nodes: Seq<usize>,
) -> Seq<usize>
    decreases nodes.len(),
{
    if nodes.len() == 0 {
        seq![]
    } else {
        node_placed(kernel, g, query, by_rank(kernel, g, query, nodes.drop_last()), nodes.last())
    }
}

/// The state of a search in a layer: the nodes that it has seen, those that it
/// still has to expand, and the best that it has found; the last two best first.
pub struct Walk {
    pub visited: Seq<bool>,
    pub frontier: Seq<Item>,
    pub results: Seq<Item>,
}

/// The state after looking at one neighbour: a node not seen before that is
/// among the `ef` best so far is kept and will be expanded.
pub open spec fn considered<K: Kernel>(
    kernel: K,
    g: GraphView,
    query: Seq<u32>,
    ef: usize,
    walk: Walk,
    node: usize,
) -> Walk {
    if walk.visited[node as int] {
        walk
    } else {
        let visited = walk.visited.update(node as int, true);
        let item = item_of(kernel, g, query, node as int);
        if walk.results.len() < ef || item_better(item, walk.results.last()) {
            let longer = item_placed(walk.results, item);
            Walk {
                visited,
                frontier: item_placed(walk.frontier, item),
                results: if longer.len() > ef {
                    longer.drop_last()
                } else {
                    longer
                },
            }
        } else {
            Walk { visited, frontier: walk.frontier, results: walk.results }
        }
    }
}

/// The state after looking at neighbours in turn.
pub open spec fn considered_all<K: Kernel>(
    kernel: K,
    g: GraphView,
    query: Seq<u32>,
    ef: usize,
    walk: Walk,
    nodes: Seq<usize>,
) -> Walk
    decreases nodes.len(),
{
    if nodes.len() == 0 {
        walk
    } else {
        considered(
            kernel,
            g,
            query,
            ef,
            considered_all(kernel, g, query, ef, walk, nodes.drop_last()),
            nodes.last(),
        )
    }
}

/// The search is over: nothing is left to expand, or the best of it is worse
/// than all of enough results.
pub open spec fn walk_over(ef: usize, walk: Walk) -> bool {
    ||| walk.frontier.len() == 0
    ||| walk.results.len() >= ef && item_better(walk.results.last(), walk.frontier[0])
}

/// The state after expanding the best node of the frontier.
pub open spec fn expanded<K: Kernel>(
    kernel: K,
    g: GraphView,
    query: Seq<u32>,
    ef: usize,
    layer: int,
    walk: Walk,
) -> Walk {
    considered_all(
        kernel,
        g,
        query,
        ef,
        Walk { frontier: walk.frontier.drop_first(), ..walk },
        links(g, walk.frontier[0].index as int, layer),
    )
}

/// The state when the search is over, or after `steps` expansions. Every node
/// is expanded at most once, so as many steps as there are nodes are enough.
pub open spec fn walked<K: Kernel>(
    kernel: K,
    g: GraphView,
    query: Seq<u32>,
    ef: usize,
    layer: int,
    walk: Walk,
    steps: nat,
) -> Walk
    decreases steps,
{
    if steps == 0 || walk_over(ef, walk) {
        walk
    } else {
        walked(
            kernel,
            g,
            query,
            ef,
            layer,
            expanded(kernel, g, query, ef, layer, walk),
            (steps - 1) as nat,
        )
    }
}

/// The state at the start of a search: only the entry has been seen.
pub open spec fn walk_from<K: Kernel>(
    kernel: K,
    g: GraphView,
    query: Seq<u32>,
    entry: int,
) -> Walk {
    let item = item_of(kernel, g, query, entry);
    Walk {
        visited: Seq::new(g.nodes.len(), |i: int| i == entry),
        frontier: seq![item],
        results: seq![item],
    }
}

/// The nodes of items.
pub open spec fn item_nodes(items: Seq<Item>) -> Seq<usize> {
    Seq::new(items.len(), |i: int| items[i].index)
}

/// What a best-first search of breadth `ef` in a layer finds, best first.
pub open spec fn layer_search<K: Kernel>(
    kernel: K,
    g: GraphView,
    query: Seq<u32>,
    entry: int,
    ef: usize,
    layer: int,
) -> Seq<usize> {
    by_rank(
        kernel,
        g,
        query,
        item_nodes(
            walked(
                kernel,
                g,
                query,
                ef,
                layer,
                walk_from(kernel, g, query, entry),
                g.nodes.len(),
            ).results,
        ),
    )
}

/// The best of a node and some others.
pub open spec fn closest_of<K: Kernel>(
    kernel: K,
    g: GraphView,
    query: Seq<u32>,
    node: int,
    others: Seq<usize>,
) -> int
    decreases others.len(),
{
    if others.len() == 0 {
        node
    } else {
        let best = closest_of(kernel, g, query, node, others.drop_last());
        if better(
            node_rank(kernel, g, query, others.last() as int),
            node_rank(kernel, g, query, best),
        ) {
            others.last() as int
        } else {
            best
        }
    }
}

/// The node at which a climb to ever closer neighbours ends. Every step is an
/// improvement, so as many steps as there are nodes are enough.
pub open spec fn greedy<K: Kernel>(
    kernel: K,
    g: GraphView,
    query: Seq<u32>,
    node: int,
    layer: int,
    steps: nat,
) -> int
    decreases steps,
{
    let best = closest_of(kernel, g, query, node, links(g, node, layer));
    if steps == 0 || best == node {
        node
    } else {
        greedy(kernel, g, query, best, layer, (steps - 1) as nat)
    }
}

/// The node from which a search of layer `low` starts: the end of the climbs
/// through the layers from `high` down to above `low`.
pub open spec fn descended<K: Kernel>(
    kernel: K,
    g: GraphView,
    query: Seq<u32>,
    node: int,
    high: int,
    low: int,
) -> int
    decreases high - low,
{
    if high <= low {
        node
    } else {
        descended(
            kernel,
            g,
            query,
            greedy(kernel, g, query, node, high, g.nodes.len()),
            high - 1,
            low,
        )
    }
}

/// The nodes that a search of breadth `ef` over the whole graph finds, best first.
pub open spec fn searched<K: Kernel>(
    kernel: K,
    g: GraphView,
    query: Seq<u32>,
    ef: usize,
) -> Seq<usize> {
    match g.entry_point {
        None => seq![],
        Some(entry) => layer_search(
            kernel,
            g,
            query,
            descended(kernel, g, query, entry as int, g.max_level as int, 0),
            ef,
            0,
        ),
    }
}

/// The graph with another list of links.
pub open spec fn relinked(g: GraphView, node: int, layer: int, list: Seq<usize>) -> GraphView {
    GraphView {
        nodes: g.nodes.update(
            node,
            NodeView {
                neighbors: g.nodes[node].neighbors.update(layer, list),
                ..g.nodes[node]
            },
        ),
        ..g
    }
}

/// The neighbours that a node keeps of a list: the `m` closest.
pub open spec fn kept<K: Kernel>(
    kernel: K,
    g: GraphView,
    node: int,
    list: Seq<usize>,
) -> Seq<usize> {
    if list.len() <= g.config.m {
        list
    } else {
        by_rank(kernel, g, g.nodes[node].vector, list).take(g.config.m as int)
    }
}

/// The graph in which a node has one more neighbour in a layer, as far as it
/// keeps it.
pub open spec fn linked<K: Kernel>(
    kernel: K,
    g: GraphView,
    node: int,
    other: int,
    layer: int,
) -> GraphView {
    relinked(g, node, layer, kept(kernel, g, node, links(g, node, layer).push(other as usize)))
}

/// The graph with two nodes linked to each other in a layer.
pub open spec fn connected<K: Kernel>(
    kernel: K,
    g: GraphView,
    left: int,
    right: int,
    layer: int,
) -> GraphView {
    linked(kernel, linked(kernel, g, left, right, layer), right, left, layer)
}

/// The graph with a node linked to others in turn.
pub open spec fn connected_all<K: Kernel>(
    kernel: K,
    g: GraphView,
    left: int,
    others: Seq<usize>,
    layer: int,
) -> GraphView
    decreases others.len(),
{
    if others.len() == 0 {
        g
    } else {
        connected(
            kernel,
            connected_all(kernel, g, left, others.drop_last(), layer),
            left,
            others.last() as int,
            layer,
        )
    }
}

/// At most the first `count` values.
pub open spec fn at_most<A>(items: Seq<A>, count: usize) -> Seq<A> {
    if items.len() <= count {
        items
    } else {
        items.take(count as int)
    }
}

/// The graph with a new node linked in the layers from `layer` down, where the
/// search for its neighbours starts at `current`.
pub open spec fn linked_down<K: Kernel>(
    kernel: K,
    g: GraphView,
    new: int,
    current: int,
    layer: int,
) -> GraphView
    decreases layer + 1,
{
    if layer < 0 {
        g
    } else {
        let chosen = at_most(
            layer_search(
                kernel,
                g,
                g.nodes[new].vector,
                current,
                g.config.ef_construction,
                layer,
            ),
            g.config.m,
        );
        linked_down(
            kernel,
            connected_all(kernel, g, new, chosen, layer),
            new,
            if chosen.len() > 0 {
                chosen[0] as int
            } else {
                current
            },
            layer - 1,
        )
    }
}

/// The 64-bit FNV-1a hash of bytes.
pub open spec fn fnv1a(bytes: Seq<u8>) -> u64
    decreases bytes.len(),
{
    if bytes.len() == 0 {
        0xcbf2_9ce4_8422_2325
    } else {
        (fnv1a(bytes.drop_last()) ^ (bytes.last() as u64)).wrapping_mul(0x0000_0100_0000_01b3)
    }
}

/// The next hash in the chain that decides a level.
pub open spec fn next_hash(hash: u64) -> u64 {
    ((hash << 17) | (hash >> 47)).wrapping_mul(0x9e37_79b9_7f4a_7c15)
}

/// The number of hashes in a row, from `hash` on, that lie below the threshold,
/// counted up to `limit`.
pub open spec fn run_below(hash: u64, threshold: u64, limit: nat) -> nat
    decreases limit,
{
    if limit == 0 || hash >= threshold {
        0
    } else {
        1 + run_below(next_hash(hash), threshold, (limit - 1) as nat)
    }
}

/// The threshold below which one in `m` hashes lies.
pub open spec fn level_threshold(m: usize) -> u64 {
    let share = u64::MAX / (m as u64);
    if share < 1 {
        1
    } else {
        share
    }
}

/// The level of a node: decided by its ID alone.
pub open spec fn level_of(id: Seq<char>, m: usize) -> nat {
    run_below(fnv1a(encode_utf8(id)), level_threshold(m), MAX_LEVEL as nat)
}

/// The graph with one more node, not linked yet.
pub open spec fn with_node(g: GraphView, id: Seq<char>, vector: Seq<u32>) -> GraphView {
    let level = level_of(id, g.config.m);
    GraphView {
        nodes: g.nodes.push(
            NodeView { id, vector, neighbors: Seq::new(level + 1, |i: int| Seq::empty()) },
        ),
        ..g
    }
}

/// The graph grown by a point with a prepared vector.
pub open spec fn grown<K: Kernel>(
    kernel: K,
    g: GraphView,
    id: Seq<char>,
    vector: Seq<u32>,
) -> GraphView {
    let level = level_of(id, g.config.m);
    let new = g.nodes.len();
    let wider = with_node(g, id, vector);
    match g.entry_point {
        None => GraphView {
            entry_point: Some(new as usize),
            max_level: level as usize,
            ..wider
        },
        Some(entry) => {
            let current = descended(
                kernel,
                wider,
                vector,
                entry as int,
                g.max_level as int,
                level as int,
            );
            let top = if level < g.max_level {
                level as int
            } else {
                g.max_level as int
            };
            let done = linked_down(kernel, wider, new as int, current, top);
            if level > g.max_level {
                GraphView { entry_point: Some(new as usize), max_level: level as usize, ..done }
            } else {
                done
            }
        },
    }
}

/// The graph without nodes.
pub open spec fn empty_graph(dimension: usize, metric: Metric, config: HnswConfig) -> GraphView {
    GraphView { dimension, metric, config, nodes: seq![], entry_point: None, max_level: 0 }
}

/// A graph grown by points in turn, or why the first point that is refused is.
pub open spec fn grown_all<K: Kernel>(
    kernel: K,
    g: GraphView,
    points: Seq<(Seq<char>, Seq<u32>)>,
) -> core::result::Result<GraphView, ErrorView>
    decreases points.len(),
{
    if points.len() == 0 {
        Ok(g)
    } else {
        match grown_all(kernel, g, points.drop_last()) {
            Err(error) => Err(error),
            Ok(done) => {
                let (id, vector) = points.last();
                if id.len() == 0 {
                    Err(ErrorView::InvalidQuery("point ID must not be empty"@))
                } else if exists|i: int| 0 <= i < done.nodes.len() && (#[trigger] done.nodes[i]).id
                    == id {
                    Err(ErrorView::InvalidQuery("HNSW point IDs must be unique"@))
                } else if vector.len() != g.dimension {
                    Err(
                        ErrorView::InvalidDimension {
                            expected: g.dimension,
                            actual: vector.len() as usize,
                        },
                    )
                } else {
                    match prepared(kernel, g.metric, vector) {
                        Err(error) => Err(error),
                        Ok(ready) => Ok(grown(kernel, done, id, ready)),
                    }
                }
            },
        }
    }
}

/// The graph of points, or why it cannot be built.
pub open spec fn built<K: Kernel>(
    kernel: K,
    dimension: usize,
    metric: Metric,
    config: HnswConfig,
    points: Seq<(Seq<char>, Seq<u32>)>,
) -> core::result::Result<GraphView, ErrorView> {
    match config_verdict(dimension, config) {
        Err(error) => Err(error),
        Ok(_) => grown_all(kernel, empty_graph(dimension, metric, config), points),
    }
}

/// The number of marks that are set.
pub open spec fn marks(flags: Seq<bool>) -> nat
    decreases flags.len(),
{
    if flags.len() == 0 {
        0
    } else {
        marks(flags.drop_last()) + if flags.last() {
            1nat
        } else {
            0nat
        }
    }
}

pub proof fn lemma_marks_bound(flags: Seq<bool>)
    ensures
        marks(flags) <= flags.len(),
    decreases flags.len(),
{
    if flags.len() > 0 {
        lemma_marks_bound(flags.drop_last());
    }
}

pub proof fn lemma_marks_update(flags: Seq<bool>, i: int)
    requires
        0 <= i < flags.len(),
        !flags[i],
    ensures
        marks(flags.update(i, true)) == marks(flags) + 1,
    decreases flags.len(),
{
    let after = flags.update(i, true);
    if i < flags.len() - 1 {
        lemma_marks_update(flags.drop_last(), i);
        assert(after.drop_last() =~= flags.drop_last().update(i, true));
    } else {
        assert(after.drop_last() =~= flags.drop_last());
    }
}

pub proof fn lemma_marks_zero(flags: Seq<bool>)
    requires
        forall|i: int| 0 <= i < flags.len() ==> !(#[trigger] flags[i]),
    ensures
        marks(flags) == 0,
    decreases flags.len(),
{
    if flags.len() > 0 {
        assert(!flags[flags.len() - 1]);
        lemma_marks_zero(flags.drop_last());
    }
}

/// Fewer marks are set where each mark of `a` is one of `b`, and `b` has one more.
pub proof fn lemma_marks_less(a: Seq<bool>, b: Seq<bool>, extra: int)
    requires
        a.len() == b.len(),
        forall|i: int| 0 <= i < a.len() && #[trigger] a[i] ==> b[i],
        0 <= extra < a.len(),
        !a[extra],
        b[extra],
    ensures
        marks(a) < marks(b),
    decreases a.len(),
{
    let n = a.len() - 1;
    if extra == n {
        lemma_marks_at_most(a.drop_last(), b.drop_last());
    } else {
        assert(a[n] ==> b[n]);
        lemma_marks_less(a.drop_last(), b.drop_last(), extra);
    }
}

pub proof fn lemma_marks_at_most(a: Seq<bool>, b: Seq<bool>)
    requires
        a.len() == b.len(),
        forall|i: int| 0 <= i < a.len() && #[trigger] a[i] ==> b[i],
    ensures
        marks(a) <= marks(b),
    decreases a.len(),
{
    if a.len() > 0 {
        assert(a[a.len() - 1] ==> b[a.len() - 1]);
        lemma_marks_at_most(a.drop_last(), b.drop_last());
    }
}

/// Every item stands for a node with a property.
pub open spec fn items_satisfy(items: Seq<Item>, p: spec_fn(usize) -> bool) -> bool {
    forall|i: int| 0 <= i < items.len() ==> p((#[trigger] items[i]).index)
}

/// Every node of a list has a property.
pub open spec fn nodes_satisfy(nodes: Seq<usize>, p: spec_fn(usize) -> bool) -> bool {
    forall|i: int| 0 <= i < nodes.len() ==> p(#[trigger] nodes[i])
}

pub proof fn lemma_item_placed(items: Seq<Item>, item: Item)
    ensures
        item_placed(items, item).len() == items.len() + 1,
        forall|p: spec_fn(usize) -> bool|
            items_satisfy(items, p) && p(item.index) ==> #[trigger] items_satisfy(
                item_placed(items, item),
                p,
            ),
{
    let ahead = |other: Item| item_better(other, item);
    lemma_lead(items, ahead);
    let at = lead(items, ahead);
    let after = item_placed(items, item);
    assert forall|p: spec_fn(usize) -> bool|
        items_satisfy(items, p) && p(item.index) implies #[trigger] items_satisfy(after, p) by {
        assert forall|i: int| 0 <= i < after.len() implies p((#[trigger] after[i]).index) by {
            if i < at {
                assert(after[i] == items[i]);
            } else if i > at {
                assert(after[i] == items[i - 1]);
            }
        }
    }
}

/// Looking at nodes with a property brings in no others.
pub proof fn lemma_considered_satisfy<K: Kernel>(
    kernel: K,
    g: GraphView,
    query: Seq<u32>,
    ef: usize,
    walk: Walk,
    nodes: Seq<usize>,
    p: spec_fn(usize) -> bool,
)
    requires
        items_satisfy(walk.frontier, p),
        items_satisfy(walk.results, p),
        nodes_satisfy(nodes, p),
    ensures
        items_satisfy(considered_all(kernel, g, query, ef, walk, nodes).frontier, p),
        items_satisfy(considered_all(kernel, g, query, ef, walk, nodes).results, p),
    decreases nodes.len(),
{
    if nodes.len() > 0 {
        assert forall|i: int| 0 <= i < nodes.drop_last().len() implies p(
            #[trigger] nodes.drop_last()[i],
        ) by {
            assert(p(nodes[i]));
        }
        lemma_considered_satisfy(kernel, g, query, ef, walk, nodes.drop_last(), p);
        let before = considered_all(kernel, g, query, ef, walk, nodes.drop_last());
        let node = nodes.last();
        assert(p(nodes[nodes.len() - 1]));
        let item = item_of(kernel, g, query, node as int);
        lemma_item_placed(before.frontier, item);
        lemma_item_placed(before.results, item);
        let longer = item_placed(before.results, item);
        assert(items_satisfy(longer, p));
        assert(items_satisfy(item_placed(before.frontier, item), p));
        assert forall|i: int| 0 <= i < longer.drop_last().len() implies p(
            (#[trigger] longer.drop_last()[i]).index,
        ) by {
            assert(longer.drop_last()[i] == longer[i]);
        }
    }
}

/// A search that starts at a node with a property, and from such nodes only
/// reaches such nodes, finds only such nodes.
pub proof fn lemma_walked_satisfy<K: Kernel>(
    kernel: K,
    g: GraphView,
    query: Seq<u32>,
    ef: usize,
    layer: int,
    walk: Walk,
    steps: nat,
    p: spec_fn(usize) -> bool,
)
    requires
        items_satisfy(walk.frontier, p),
        items_satisfy(walk.results, p),
        forall|i: usize| p(i) ==> nodes_satisfy(#[trigger] links(g, i as int, layer), p),
    ensures
        items_satisfy(walked(kernel, g, query, ef, layer, walk, steps).results, p),
    decreases steps,
{
    if steps > 0 && !walk_over(ef, walk) {
        let rest = Walk { frontier: walk.frontier.drop_first(), ..walk };
        let node = walk.frontier[0].index;
        assert(p(node));
        assert forall|i: int| 0 <= i < rest.frontier.len() implies p(
            (#[trigger] rest.frontier[i]).index,
        ) by {
            assert(rest.frontier[i] == walk.frontier[i + 1]);
        }
        lemma_considered_satisfy(kernel, g, query, ef, rest, links(g, node as int, layer), p);
        lemma_walked_satisfy(
            kernel,
            g,
            query,
            ef,
            layer,
            expanded(kernel, g, query, ef, layer, walk),
            (steps - 1) as nat,
            p,
        );
    }
}

/// Ordering nodes by rank keeps the nodes.
pub proof fn lemma_by_rank_members<K: Kernel>(
    kernel: K,
    g: GraphView,
    query: Seq<u32>,
    nodes: Seq<usize>,
)
    ensures
        by_rank(kernel, g, query, nodes).len() == nodes.len(),
        by_rank(kernel, g, query, nodes).to_multiset() == nodes.to_multiset(),
    decreases nodes.len(),
{
    if nodes.len() > 0 {
        let rest = nodes.drop_last();
        let node = nodes.last();
        lemma_by_rank_members(kernel, g, query, rest);
        let sorted = by_rank(kernel, g, query, rest);
        let ahead = |other: usize|
            better(
                node_rank(kernel, g, query, other as int),
                node_rank(kernel, g, query, node as int),
            );
        lemma_lead(sorted, ahead);
        vstd::seq_lib::to_multiset_insert(sorted, lead(sorted, ahead), node);
        assert(nodes =~= rest.push(node));
        vstd::seq_lib::to_multiset_build(rest, node);
    } else {
        assert(by_rank(kernel, g, query, nodes) =~= nodes);
    }
}

/// A property of all nodes stays one of all nodes when they are ordered.
pub proof fn lemma_by_rank_satisfy<K: Kernel>(
    kernel: K,
    g: GraphView,
    query: Seq<u32>,
    nodes: Seq<usize>,
    p: spec_fn(usize) -> bool,
)
    requires
        nodes_satisfy(nodes, p),
    ensures
        nodes_satisfy(by_rank(kernel, g, query, nodes), p),
{
    lemma_by_rank_members(kernel, g, query, nodes);
    let sorted = by_rank(kernel, g, query, nodes);
    assert forall|i: int| 0 <= i < sorted.len() implies p(#[trigger] sorted[i]) by {
        vstd::seq_lib::to_multiset_contains(sorted, sorted[i]);
        vstd::seq_lib::to_multiset_contains(nodes, sorted[i]);
        let j = choose|j: int| 0 <= j < nodes.len() && nodes[j] == sorted[i];
        assert(p(nodes[j]));
    }
}

/// The links of a valid node lead to nodes.
pub proof fn lemma_links_in_range(g: GraphView, node: int, layer: int)
    requires
        0 <= node < g.nodes.len(),
        node_valid(g, node),
    ensures
        forall|j: int|
            0 <= j < links(g, node, layer).len() ==> (#[trigger] links(g, node, layer)[j])
                < g.nodes.len() && links(g, node, layer)[j] != node,
        links(g, node, layer).len() <= g.config.m,
{
    if 0 <= layer < g.nodes[node].neighbors.len() {
        assert(links_valid(g, node, g.nodes[node].neighbors[layer]));
    }
}

/// Marks the nodes that are better than one of them.
pub open spec fn better_flags<K: Kernel>(
    kernel: K,
    g: GraphView,
    query: Seq<u32>,
    node: int,
) -> Seq<bool> {
    Seq::new(
        g.nodes.len(),
        |i: int| better(node_rank(kernel, g, query, i), node_rank(kernel, g, query, node)),
    )
}

/// The closest of a node and some others is one of them, and no worse than it.
pub proof fn lemma_closest_of<K: Kernel>(
    kernel: K,
    g: GraphView,
    query: Seq<u32>,
    node: int,
    others: Seq<usize>,
)
    ensures
        ({
            let best = closest_of(kernel, g, query, node, others);
            ||| best == node
            ||| better(node_rank(kernel, g, query, best), node_rank(kernel, g, query, node)) && (
            exists|j: int| 0 <= j < others.len() && #[trigger] others[j] == best)
        }),
    decreases others.len(),
{
    if others.len() > 0 {
        let rest = others.drop_last();
        lemma_closest_of(kernel, g, query, node, rest);
        let best = closest_of(kernel, g, query, node, rest);
        if best != node {
            let j = choose|j: int| 0 <= j < rest.len() && #[trigger] rest[j] == best;
            assert(others[j] == best);
        }
        if better(
            node_rank(kernel, g, query, others.last() as int),
            node_rank(kernel, g, query, best),
        ) {
            assert(others[others.len() - 1] == others.last());
            if best != node {
                lemma_better_transitive(
                    node_rank(kernel, g, query, others.last() as int),
                    node_rank(kernel, g, query, best),
                    node_rank(kernel, g, query, node),
                );
            }
        }
    }
}

/// A better node has fewer nodes that are better still.
pub proof fn lemma_fewer_betters<K: Kernel>(
    kernel: K,
    g: GraphView,
    query: Seq<u32>,
    node: int,
    best: int,
)
    requires
        0 <= node < g.nodes.len(),
        0 <= best < g.nodes.len(),
        better(node_rank(kernel, g, query, best), node_rank(kernel, g, query, node)),
    ensures
        marks(better_flags(kernel, g, query, best)) < marks(better_flags(kernel, g, query, node)),
{
    let a = better_flags(kernel, g, query, best);
    let b = better_flags(kernel, g, query, node);
    assert forall|i: int| 0 <= i < a.len() && #[trigger] a[i] implies b[i] by {
        lemma_better_transitive(
            node_rank(kernel, g, query, i),
            node_rank(kernel, g, query, best),
            node_rank(kernel, g, query, node),
        );
    }
    lemma_better_total(node_rank(kernel, g, query, best), node_rank(kernel, g, query, best));
    lemma_marks_less(a, b, best);
}

} // verus!
