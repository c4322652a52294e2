//! A hierarchical navigable small-world graph.
use crate::bits::single_place;
use crate::collection::{copy_vector, views};
use crate::error::{verdict, Error, ErrorView, Result};
use crate::ids::IdSet;
use crate::sharding::stable_hash;
use crate::metric::{lawful, prepared, Kernel, Metric};
use crate::ranking::{better, is_better, Ranked};
use growth::{
    growing, joins, lemma_at_most_joins, lemma_connected_all, lemma_descended_joins, lemma_grown,
    lemma_layer_search_joins, lemma_linked, lemma_linked_down, lemma_with_node,
};
use model::{
    GraphView, HnswConfig, Item, MAX_LEVEL, NodeView, Walk, at_most, better_flags, built, by_rank,
    closest_of, config_verdict, connected, connected_all, considered, considered_all, descended,
    empty_graph, fnv1a, greedy, grown, grown_all, item_better, item_nodes, item_placed,
    items_satisfy, kept, layer_search, layered, lemma_by_rank_members, lemma_by_rank_satisfy,
    lemma_closest_of, lemma_considered_satisfy, lemma_fewer_betters, lemma_lead_is,
    lemma_links_in_range, lemma_marks_bound, lemma_marks_update, lemma_marks_zero,
    lemma_walked_satisfy, level_of, linked, linked_down, links, links_valid, marks, node_rank,
    node_valid, nodes_satisfy, relinked, run_below, searched, valid, walk_from, walked, with_node,
};
use small::{complete, lemma_grown_small, tight};
use vstd::prelude::*;
use vstd::utf8::encode_utf8;

pub mod breadth;
pub mod canonical;
pub mod codec;
pub mod growth;
pub mod laws;
pub mod model;
pub mod mutual;
pub mod small;
pub mod walk;

verus! {

/// A result of a graph search.
#[derive(Debug, PartialEq)]
pub struct HnswHit {
    pub id: String,
    /// A metric-independent score, as the bits of a single, where larger is better.
    pub score: u32,
}

impl View for HnswHit {
    type V = Ranked;

    open spec fn view(&self) -> Ranked {
        Ranked { score: self.score, id: self.id@ }
    }
}

struct Node {
    id: String,
    vector: Vec<u32>,
    neighbors: Vec<Vec<usize>>,
}

impl View for Node {
    type V = NodeView;

    closed spec fn view(&self) -> NodeView {
        NodeView {
            id: self.id@,
            vector: self.vector@,
            neighbors: views(self.neighbors@),
        }
    }
}

/// A graph over points, for approximate search.
pub struct HnswIndex {
    dimension: usize,
    metric: Metric,
    config: HnswConfig,
    nodes: Vec<Node>,
    entry_point: Option<usize>,
    max_level: usize,
}

impl View for HnswIndex {
    type V = GraphView;

    closed spec fn view(&self) -> GraphView {
        GraphView {
            dimension: self.dimension,
            metric: self.metric,
            config: self.config,
            nodes: views(self.nodes@),
            entry_point: self.entry_point,
            max_level: self.max_level,
        }
    }
}

/// Whether an item comes before another.
fn is_item_better(a: &Item, b: &Item) -> (r: bool)
    ensures
        r == item_better(*a, *b),
{
    let place: i64 = single_place(a.score);
    let other: i64 = single_place(b.score);
    place > other || (a.score == b.score && a.index < b.index)
}

/// Puts an item in its place.
fn place_item(items: &mut Vec<Item>, item: Item)
    ensures
        final(items)@ == item_placed(old(items)@, item),
        final(items)@.len() == old(items)@.len() + 1,
{
    let ghost ahead = |other: Item| item_better(other, item);
    let mut at: usize = 0;
    while at < items.len()
        invariant_except_break
            at <= items@.len(),
            items@ == old(items)@,
            ahead == (|other: Item| item_better(other, item)),
            forall|i: int| 0 <= i < at ==> ahead(#[trigger] items@[i]),
        ensures
            at <= items@.len(),
            items@ == old(items)@,
            forall|i: int| 0 <= i < at ==> ahead(#[trigger] items@[i]),
            at < items@.len() ==> !ahead(items@[at as int]),
        decreases items.len() - at,
    {
        if !is_item_better(&items[at], &item) {
            break ;
        }
        at = at + 1;
    }
    proof {
        lemma_lead_is(items@, ahead, at as int);
    }
    items.insert(at, item);
}

impl HnswIndex {
    /// The invariant.
    pub closed spec fn wf(&self) -> bool {
        valid(self@)
    }

    /// The invariant spelled out.
    pub proof fn lemma_valid(&self)
        requires
            self.wf(),
        ensures
            valid(self@),
            self@.nodes.len() <= usize::MAX,
    {
        assert(self@.nodes.len() == self.nodes.len());
    }

    fn node_score<K: Kernel>(&self, kernel: &K, query: &Vec<u32>, node: usize) -> (score: u32)
        requires
            lawful(*kernel),
            node < self@.nodes.len(),
        ensures
            score == node_rank(*kernel, self@, query@, node as int).score,
    {
        self.metric.score(kernel, query, &self.nodes[node].vector)
    }

    /// Looks at one neighbour.
    fn consider<K: Kernel>(
        &self,
        kernel: &K,
        query: &Vec<u32>,
        ef: usize,
        visited: &mut Vec<bool>,
        frontier: &mut Vec<Item>,
        results: &mut Vec<Item>,
        node: usize,
    )
        requires
            lawful(*kernel),
            node < self@.nodes.len(),
            old(visited)@.len() == self@.nodes.len(),
            1 <= old(results)@.len() <= ef,
        ensures
            ({
                let before = Walk {
                    visited: old(visited)@,
                    frontier: old(frontier)@,
                    results: old(results)@,
                };
                let after = Walk {
                    visited: final(visited)@,
                    frontier: final(frontier)@,
                    results: final(results)@,
                };
                after == considered(*kernel, self@, query@, ef, before, node)
            }),
            final(visited)@.len() == old(visited)@.len(),
            1 <= final(results)@.len() <= ef,
            marks(final(visited)@) - marks(old(visited)@) >= final(frontier)@.len() - old(frontier)@.len(),
    {
        if visited[node] {
            return ;
        }
        let score: u32 = self.node_score(kernel, query, node);
        let item = Item { score, index: node };
        proof {
            lemma_marks_update(visited@, node as int);
        }
        visited[node] = true;
        if results.len() < ef || is_item_better(&item, &results[results.len() - 1]) {
            place_item(frontier, item);
            place_item(results, item);
            if results.len() > ef {
                let ghost longer = results@;
                let _ = results.pop();
                assert(results@ =~= longer.drop_last());
            }
        }
    }

    /// Looks at all neighbours of a node in a layer.
    fn consider_links<K: Kernel>(
        &self,
        kernel: &K,
        query: &Vec<u32>,
        ef: usize,
        visited: &mut Vec<bool>,
        frontier: &mut Vec<Item>,
        results: &mut Vec<Item>,
        node: usize,
        layer: usize,
    )
        requires
            lawful(*kernel),
            self.wf(),
            node < self@.nodes.len(),
            old(visited)@.len() == self@.nodes.len(),
            1 <= old(results)@.len() <= ef,
        ensures
            ({
                let before = Walk {
                    visited: old(visited)@,
                    frontier: old(frontier)@,
                    results: old(results)@,
                };
                let after = Walk {
                    visited: final(visited)@,
                    frontier: final(frontier)@,
                    results: final(results)@,
                };
                after == considered_all(
                    *kernel,
                    self@,
                    query@,
                    ef,
                    before,
                    links(self@, node as int, layer as int),
                )
            }),
            final(visited)@.len() == old(visited)@.len(),
            1 <= final(results)@.len() <= ef,
            marks(final(visited)@) - marks(old(visited)@) >= final(frontier)@.len() - old(frontier)@.len(),
    {
        let ghost before = Walk { visited: visited@, frontier: frontier@, results: results@ };
        let ghost list = links(self@, node as int, layer as int);
        assert(self@.nodes[node as int] == self.nodes@[node as int]@);
        if layer >= self.nodes[node].neighbors.len() {
            assert(list =~= Seq::empty());
            return ;
        }
        assert(list == self.nodes@[node as int].neighbors@[layer as int]@);
        assert(node_valid(self@, node as int));
        let mut i: usize = 0;
        assert(list.subrange(0, 0) =~= Seq::empty());
        while i < self.nodes[node].neighbors[layer].len()
            invariant
                lawful(*kernel),
                node < self@.nodes.len(),
                node < self.nodes@.len(),
                layer < self.nodes@[node as int].neighbors@.len(),
                list == self.nodes@[node as int].neighbors@[layer as int]@,
                links_valid(self@, node as int, list),
                i <= list.len(),
                visited@.len() == self@.nodes.len(),
                visited@.len() == old(visited)@.len(),
                1 <= results@.len() <= ef,
                (Walk { visited: visited@, frontier: frontier@, results: results@ })
                    == considered_all(
                    *kernel,
                    self@,
                    query@,
                    ef,
                    before,
                    list.subrange(0, i as int),
                ),
                marks(visited@) - marks(old(visited)@) >= frontier@.len() - old(frontier)@.len(),
            decreases list.len() - i,
        {
            let neighbor: usize = self.nodes[node].neighbors[layer][i];
            assert(list[i as int] == neighbor);
            self.consider(kernel, query, ef, visited, frontier, results, neighbor);
            proof {
                let next = list.subrange(0, i + 1);
                assert(next.drop_last() =~= list.subrange(0, i as int));
            }
            i = i + 1;
        }
        assert(list.subrange(0, i as int) =~= list);
    }

    /// A best-first search of breadth `ef` in a layer.
    fn search_layer<K: Kernel>(
        &self,
        kernel: &K,
        query: &Vec<u32>,
        entry: usize,
        ef: usize,
        layer: usize,
    ) -> (found: Vec<usize>)
        requires
            lawful(*kernel),
            self.wf(),
            entry < self@.nodes.len(),
            ef > 0,
        ensures
            found@ == layer_search(*kernel, self@, query@, entry as int, ef, layer as int),
    {
        let ghost n = self@.nodes.len();
        let ghost start = walk_from(*kernel, self@, query@, entry as int);
        let mut visited: Vec<bool> = Vec::new();
        while visited.len() < self.nodes.len()
            invariant
                visited@.len() <= self.nodes@.len(),
                forall|i: int| 0 <= i < visited@.len() ==> !(#[trigger] visited@[i]),
            decreases self.nodes.len() - visited.len(),
        {
            visited.push(false);
        }
        proof {
            lemma_marks_zero(visited@);
            lemma_marks_update(visited@, entry as int);
        }
        visited[entry] = true;
        let first = Item { score: self.node_score(kernel, query, entry), index: entry };
        let mut frontier: Vec<Item> = Vec::new();
        frontier.push(first);
        let mut results: Vec<Item> = Vec::new();
        results.push(first);
        let ghost mut steps: nat = n;
        let ghost p = |i: usize| i < n;
        proof {
            assert(visited@ =~= start.visited);
            assert(frontier@ =~= start.frontier);
            assert(results@ =~= start.results);
            assert(walked(*kernel, self@, query@, ef, layer as int, start, n) == walked(
                *kernel,
                self@,
                query@,
                ef,
                layer as int,
                Walk { visited: visited@, frontier: frontier@, results: results@ },
                steps,
            ));
        }
        while frontier.len() > 0
            invariant_except_break
                lawful(*kernel),
                self.wf(),
                n == self@.nodes.len(),
                visited@.len() == n,
                1 <= results@.len() <= ef,
                steps <= n,
                n - steps + frontier@.len() <= marks(visited@),
                items_satisfy(frontier@, p),
                items_satisfy(results@, p),
                p == (|i: usize| i < n),
                walked(*kernel, self@, query@, ef, layer as int, start, n) == walked(
                    *kernel,
                    self@,
                    query@,
                    ef,
                    layer as int,
                    Walk { visited: visited@, frontier: frontier@, results: results@ },
                    steps,
                ),
            ensures
                results@ == walked(
                    *kernel,
                    self@,
                    query@,
                    ef,
                    layer as int,
                    start,
                    n,
                ).results,
                items_satisfy(results@, p),
            decreases steps,
        {
            let ghost before = Walk { visited: visited@, frontier: frontier@, results: results@ };
            proof {
                lemma_marks_bound(visited@);
            }
            let candidate = frontier[0];
            if results.len() >= ef && is_item_better(&results[results.len() - 1], &candidate) {
                break ;
            }
            let _ = frontier.remove(0);
            proof {
                assert(frontier@ =~= before.frontier.drop_first());
                let rest = Walk { frontier: frontier@, ..before };
                assert(p(before.frontier[0].index));
                assert forall|i: int| 0 <= i < rest.frontier.len() implies p(
                    (#[trigger] rest.frontier[i]).index,
                ) by {
                    assert(rest.frontier[i] == before.frontier[i + 1]);
                }
                assert(node_valid(self@, candidate.index as int));
                lemma_links_in_range(self@, candidate.index as int, layer as int);
                lemma_considered_satisfy(
                    *kernel,
                    self@,
                    query@,
                    ef,
                    rest,
                    links(self@, candidate.index as int, layer as int),
                    p,
                );
            }
            self.consider_links(
                kernel,
                query,
                ef,
                &mut visited,
                &mut frontier,
                &mut results,
                candidate.index,
                layer,
            );
            proof {
                steps = (steps - 1) as nat;
            }
        }
        let mut nodes: Vec<usize> = Vec::new();
        let mut i: usize = 0;
        while i < results.len()
            invariant
                i <= results@.len(),
                nodes@.len() == i,
                forall|j: int| 0 <= j < i ==> #[trigger] nodes@[j] == results@[j].index,
            decreases results.len() - i,
        {
            nodes.push(results[i].index);
            i = i + 1;
        }
        proof {
            assert(nodes@ =~= item_nodes(results@));
            assert forall|i: int| 0 <= i < nodes@.len() implies #[trigger] nodes@[i] < n by {
                assert(p(results@[i].index));
            }
        }
        self.rank_nodes(kernel, query, &nodes)
    }

    /// Orders nodes by their ranks for a query.
    fn rank_nodes<K: Kernel>(&self, kernel: &K, query: &Vec<u32>, nodes: &Vec<usize>) -> (sorted:
        Vec<usize>)
        requires
            lawful(*kernel),
            forall|i: int| 0 <= i < nodes@.len() ==> #[trigger] nodes@[i] < self@.nodes.len(),
        ensures
            sorted@ == by_rank(*kernel, self@, query@, nodes@),
    {
        let ghost p = |i: usize| i < self@.nodes.len();
        let mut sorted: Vec<usize> = Vec::new();
        let mut scores: Vec<u32> = Vec::new();
        let mut i: usize = 0;
        assert(nodes@.subrange(0, 0) =~= Seq::empty());
        while i < nodes.len()
            invariant
                lawful(*kernel),
                i <= nodes@.len(),
                p == (|i: usize| i < self@.nodes.len()),
                nodes_satisfy(nodes@, p),
                nodes_satisfy(sorted@, p),
                sorted@ == by_rank(*kernel, self@, query@, nodes@.subrange(0, i as int)),
                scores@.len() == sorted@.len(),
                forall|j: int|
                    0 <= j < sorted@.len() ==> #[trigger] scores@[j] == node_rank(
                        *kernel,
                        self@,
                        query@,
                        sorted@[j] as int,
                    ).score,
            decreases nodes.len() - i,
        {
            let node: usize = nodes[i];
            assert(p(nodes@[i as int]));
            let score: u32 = self.node_score(kernel, query, node);
            let ghost ahead = |other: usize|
                better(
                    node_rank(*kernel, self@, query@, other as int),
                    node_rank(*kernel, self@, query@, node as int),
                );
            let mut at: usize = 0;
            while at < sorted.len()
                invariant_except_break
                    at <= sorted@.len(),
                    node < self.nodes@.len(),
                    self.nodes@.len() == self@.nodes.len(),
                    p == (|i: usize| i < self@.nodes.len()),
                    nodes_satisfy(sorted@, p),
                    scores@.len() == sorted@.len(),
                    score == node_rank(*kernel, self@, query@, node as int).score,
                    forall|j: int|
                        0 <= j < sorted@.len() ==> #[trigger] scores@[j] == node_rank(
                            *kernel,
                            self@,
                            query@,
                            sorted@[j] as int,
                        ).score,
                    ahead == (|other: usize|
                        better(
                            node_rank(*kernel, self@, query@, other as int),
                            node_rank(*kernel, self@, query@, node as int),
                        )),
                    forall|j: int| 0 <= j < at ==> ahead(#[trigger] sorted@[j]),
                ensures
                    at <= sorted@.len(),
                    forall|j: int| 0 <= j < at ==> ahead(#[trigger] sorted@[j]),
                    at < sorted@.len() ==> !ahead(sorted@[at as int]),
                decreases sorted.len() - at,
            {
                let other: usize = sorted[at];
                assert(p(sorted@[at as int]));
                assert(self@.nodes[other as int] == self.nodes@[other as int]@);
                assert(self@.nodes[node as int] == self.nodes@[node as int]@);
                if !is_better(
                    scores[at],
                    self.nodes[other].id.as_str(),
                    score,
                    self.nodes[node].id.as_str(),
                ) {
                    break ;
                }
                at = at + 1;
            }
            proof {
                lemma_lead_is(sorted@, ahead, at as int);
                let next = nodes@.subrange(0, i + 1);
                assert(next.drop_last() =~= nodes@.subrange(0, i as int));
                assert(next.last() == node);
            }
            let ghost before = sorted@;
            let ghost before_scores = scores@;
            sorted.insert(at, node);
            scores.insert(at, score);
            proof {
                assert forall|j: int| 0 <= j < sorted@.len() implies #[trigger] scores@[j]
                    == node_rank(*kernel, self@, query@, sorted@[j] as int).score by {
                    if j < at {
                        assert(scores@[j] == before_scores[j]);
                    } else if j > at {
                        assert(scores@[j] == before_scores[j - 1]);
                    }
                }
                assert forall|j: int| 0 <= j < sorted@.len() implies p(#[trigger] sorted@[j]) by {
                    if j < at {
                        assert(sorted@[j] == before[j]);
                    } else if j > at {
                        assert(sorted@[j] == before[j - 1]);
                    }
                }
            }
            i = i + 1;
        }
        assert(nodes@.subrange(0, i as int) =~= nodes@);
        sorted
    }
}

impl HnswIndex {
    /// Climbs to ever closer neighbours in a layer.
    fn greedy_closest<K: Kernel>(
        &self,
        kernel: &K,
        query: &Vec<u32>,
        start: usize,
        layer: usize,
    ) -> (closest: usize)
        requires
            lawful(*kernel),
            self.wf(),
            start < self@.nodes.len(),
        ensures
            closest == greedy(
                *kernel,
                self@,
                query@,
                start as int,
                layer as int,
                self@.nodes.len(),
            ),
            closest < self@.nodes.len(),
    {
        let ghost n = self@.nodes.len();
        let mut current: usize = start;
        let ghost mut steps: nat = n;
        proof {
            lemma_marks_bound(better_flags(*kernel, self@, query@, start as int));
        }
        loop
            invariant
                lawful(*kernel),
                self.wf(),
                n == self@.nodes.len(),
                n == self.nodes@.len(),
                start < n,
                current < n,
                marks(better_flags(*kernel, self@, query@, current as int)) <= steps,
                greedy(*kernel, self@, query@, start as int, layer as int, n) == greedy(
                    *kernel,
                    self@,
                    query@,
                    current as int,
                    layer as int,
                    steps,
                ),
            decreases steps,
        {
            let ghost list = links(self@, current as int, layer as int);
            proof {
                assert(node_valid(self@, current as int));
                lemma_links_in_range(self@, current as int, layer as int);
                assert(self@.nodes[current as int] == self.nodes@[current as int]@);
            }
            let mut best: usize = current;
            let mut best_score: u32 = self.node_score(kernel, query, current);
            let count: usize = if layer < self.nodes[current].neighbors.len() {
                self.nodes[current].neighbors[layer].len()
            } else {
                0
            };
            let mut i: usize = 0;
            assert(count == list.len());
            assert(list.subrange(0, 0) =~= Seq::empty());
            while i < count
                invariant
                    lawful(*kernel),
                    n == self@.nodes.len(),
                    n == self.nodes@.len(),
                    current < n,
                    best < n,
                    i <= count,
                    count == list.len(),
                    count > 0 ==> layer < self.nodes@[current as int].neighbors@.len() && list
                        == self.nodes@[current as int].neighbors@[layer as int]@,
                    forall|j: int| 0 <= j < list.len() ==> (#[trigger] list[j]) < n,
                    best == closest_of(
                        *kernel,
                        self@,
                        query@,
                        current as int,
                        list.subrange(0, i as int),
                    ),
                    best_score == node_rank(*kernel, self@, query@, best as int).score,
                decreases count - i,
            {
                let neighbor: usize = self.nodes[current].neighbors[layer][i];
                assert(list[i as int] == neighbor);
                let score: u32 = self.node_score(kernel, query, neighbor);
                proof {
                    let next = list.subrange(0, i + 1);
                    assert(next.drop_last() =~= list.subrange(0, i as int));
                    assert(next.last() == neighbor);
                    assert(self@.nodes[neighbor as int] == self.nodes@[neighbor as int]@);
                    assert(self@.nodes[best as int] == self.nodes@[best as int]@);
                }
                if is_better(
                    score,
                    self.nodes[neighbor].id.as_str(),
                    best_score,
                    self.nodes[best].id.as_str(),
                ) {
                    best = neighbor;
                    best_score = score;
                }
                i = i + 1;
            }
            proof {
                assert(list.subrange(0, i as int) =~= list);
                lemma_closest_of(*kernel, self@, query@, current as int, list);
            }
            if best == current {
                return current;
            }
            proof {
                lemma_fewer_betters(*kernel, self@, query@, current as int, best as int);
                steps = (steps - 1) as nat;
            }
            current = best;
        }
    }

    /// Climbs through the layers from `high` down to above `low`.
    fn descend<K: Kernel>(
        &self,
        kernel: &K,
        query: &Vec<u32>,
        start: usize,
        high: usize,
        low: usize,
    ) -> (closest: usize)
        requires
            lawful(*kernel),
            self.wf(),
            start < self@.nodes.len(),
        ensures
            closest == descended(
                *kernel,
                self@,
                query@,
                start as int,
                high as int,
                low as int,
            ),
            closest < self@.nodes.len(),
    {
        let mut current: usize = start;
        let mut layer: usize = high;
        while layer > low
            invariant
                lawful(*kernel),
                self.wf(),
                current < self@.nodes.len(),
                descended(*kernel, self@, query@, start as int, high as int, low as int)
                    == descended(
                    *kernel,
                    self@,
                    query@,
                    current as int,
                    layer as int,
                    low as int,
                ),
            decreases layer,
        {
            current = self.greedy_closest(kernel, query, current, layer);
            layer = layer - 1;
        }
        current
    }

    /// The approximate `k` nearest points, found by a search of breadth `ef_search`.
    pub fn search<K: Kernel>(
        &self,
        kernel: &K,
        query: Vec<u32>,
        k: usize,
        ef_search: usize,
    ) -> (result: Result<Vec<HnswHit>>)
        requires
            lawful(*kernel),
            self.wf(),
        ensures
            match graph_query(*kernel, self@, query@, k, ef_search) {
                Ok(q) => result is Ok && views(result->Ok_0@) == graph_hits(
                    *kernel,
                    self@,
                    q,
                    k,
                    ef_search,
                ),
                Err(error) => result is Err && result->Err_0@ == error,
            },
    {
        if k == 0 {
            return Err(Error::InvalidQuery("k must be greater than zero"));
        }
        if ef_search < k {
            return Err(Error::InvalidQuery("ef_search must be at least k"));
        }
        if query.len() != self.dimension {
            return Err(
                Error::InvalidDimension { expected: self.dimension, actual: query.len() },
            );
        }
        let query = self.metric.prepare(kernel, query)?;
        let entry: usize = match self.entry_point {
            None => {
                let none: Vec<HnswHit> = Vec::new();
                assert(views(none@) =~= graph_hits(*kernel, self@, query@, k, ef_search));
                return Ok(none);
            },
            Some(entry) => entry,
        };
        let current: usize = self.descend(kernel, &query, entry, self.max_level, 0);
        let nodes = self.search_layer(kernel, &query, current, ef_search, 0);
        proof {
            assert(self@.nodes.len() == self.nodes.len());
            lemma_layer_search_nodes(*kernel, self@, query@, current as int, ef_search, 0);
        }
        let mut hits: Vec<HnswHit> = Vec::new();
        let mut i: usize = 0;
        while i < nodes.len() && i < k
            invariant
                lawful(*kernel),
                i <= nodes@.len(),
                i <= k,
                forall|j: int| 0 <= j < nodes@.len() ==> (#[trigger] nodes@[j]) < self@.nodes.len(),
                hits@.len() == i,
                forall|j: int|
                    0 <= j < i ==> (#[trigger] hits@[j])@ == node_rank(
                        *kernel,
                        self@,
                        query@,
                        nodes@[j] as int,
                    ),
            decreases nodes.len() - i,
        {
            let node: usize = nodes[i];
            assert(nodes@[i as int] == node);
            assert(self@.nodes[node as int] == self.nodes@[node as int]@);
            hits.push(
                HnswHit {
                    id: self.nodes[node].id.clone(),
                    score: self.node_score(kernel, &query, node),
                },
            );
            i = i + 1;
        }
        assert(views(hits@) =~= graph_hits(*kernel, self@, query@, k, ef_search));
        Ok(hits)
    }
}

/// The form in which a graph query is compared, or why it is refused.
pub open spec fn graph_query<K: Kernel>(
    kernel: K,
    g: GraphView,
    query: Seq<u32>,
    k: usize,
    ef_search: usize,
) -> core::result::Result<Seq<u32>, ErrorView> {
    if k == 0 {
        Err(ErrorView::InvalidQuery("k must be greater than zero"@))
    } else if ef_search < k {
        Err(ErrorView::InvalidQuery("ef_search must be at least k"@))
    } else if query.len() != g.dimension {
        Err(
            ErrorView::InvalidDimension {
                expected: g.dimension,
                actual: query.len() as usize,
            },
        )
    } else {
        prepared(kernel, g.metric, query)
    }
}

/// The results of a graph search for a prepared query.
pub open spec fn graph_hits<K: Kernel>(
    kernel: K,
    g: GraphView,
    query: Seq<u32>,
    k: usize,
    ef_search: usize,
) -> Seq<Ranked> {
    let nodes = at_most(searched(kernel, g, query, ef_search), k);
    Seq::new(nodes.len(), |i: int| node_rank(kernel, g, query, nodes[i] as int))
}

/// What a search in a layer finds are nodes.
pub proof fn lemma_layer_search_nodes<K: Kernel>(
    kernel: K,
    g: GraphView,
    query: Seq<u32>,
    entry: int,
    ef: usize,
    layer: int,
)
    requires
        valid(g),
        0 <= entry < g.nodes.len() <= usize::MAX,
    ensures
        ({
            let found = layer_search(kernel, g, query, entry, ef, layer);
            forall|j: int| 0 <= j < found.len() ==> (#[trigger] found[j]) < g.nodes.len()
        }),
{
    let p = |i: usize| i < g.nodes.len();
    let start = walk_from(kernel, g, query, entry);
    assert forall|i: usize| p(i) implies nodes_satisfy(#[trigger] links(g, i as int, layer), p) by {
        assert(node_valid(g, i as int));
        lemma_links_in_range(g, i as int, layer);
    }
    lemma_walked_satisfy(kernel, g, query, ef, layer, start, g.nodes.len(), p);
    let results = walked(kernel, g, query, ef, layer, start, g.nodes.len()).results;
    let nodes = item_nodes(results);
    assert(nodes_satisfy(nodes, p)) by {
        assert forall|i: int| 0 <= i < nodes.len() implies p(#[trigger] nodes[i]) by {
            assert(p(results[i].index));
        }
    }
    lemma_by_rank_satisfy(kernel, g, query, nodes, p);
    let found = layer_search(kernel, g, query, entry, ef, layer);
    assert forall|j: int| 0 <= j < found.len() implies (#[trigger] found[j]) < g.nodes.len() by {
        assert(p(found[j]));
    }
}

/// The FNV-1a hash of a text's bytes.
pub(crate) fn hash_text(text: &str) -> (hash: u64)
    ensures
        hash == fnv1a(encode_utf8(text@)),
{
    stable_hash(text.as_bytes())
}

/// The level of a node.
pub fn deterministic_level(id: &str, m: usize) -> (level: usize)
    requires
        m > 0,
    ensures
        level == level_of(id@, m),
        level <= MAX_LEVEL,
{
    let start: u64 = hash_text(id);
    let share: u64 = u64::MAX / (m as u64);
    let threshold: u64 = if share < 1 {
        1
    } else {
        share
    };
    let mut hash: u64 = start;
    let mut level: usize = 0;
    while level < MAX_LEVEL && hash < threshold
        invariant
            level <= MAX_LEVEL,
            run_below(start, threshold, MAX_LEVEL as nat) == level + run_below(
                hash,
                threshold,
                (MAX_LEVEL - level) as nat,
            ),
        decreases MAX_LEVEL - level,
    {
        level = level + 1;
        hash = ((hash << 17) | (hash >> 47)).wrapping_mul(0x9e37_79b9_7f4a_7c15);
    }
    level
}

/// Refuses settings with which no graph can be built.
fn validate_config(dimension: usize, config: HnswConfig) -> (result: Result<()>)
    ensures
        verdict(result) == config_verdict(dimension, config),
{
    if dimension == 0 {
        return Err(Error::InvalidConfig("dimension must be greater than zero"));
    }
    if config.m < 2 {
        return Err(Error::InvalidConfig("HNSW m must be at least 2"));
    }
    if config.ef_construction < config.m {
        return Err(Error::InvalidConfig("HNSW ef_construction must be at least m"));
    }
    Ok(())
}

impl Default for HnswConfig {
    fn default() -> (config: HnswConfig)
        ensures
            config == (HnswConfig { m: 16, ef_construction: 200 }),
    {
        HnswConfig { m: 16, ef_construction: 200 }
    }
}

impl HnswIndex {
    /// Links are only between nodes of a layer; so graphs are built, though
    /// not every graph that can be read back.
    pub closed spec fn grows(&self) -> bool {
        layered(self@)
    }

    /// Links one node to another, as far as it keeps it.
    fn link<K: Kernel>(&mut self, kernel: &K, node: usize, other: usize, layer: usize)
        requires
            lawful(*kernel),
            old(self).wf(),
            node < old(self)@.nodes.len(),
            other < old(self)@.nodes.len(),
            layer < old(self)@.nodes[node as int].neighbors.len(),
        ensures
            final(self)@ == linked(*kernel, old(self)@, node as int, other as int, layer as int),
    {
        let ghost before = self@;
        assert(before.nodes[node as int] == self.nodes@[node as int]@);
        assert(node_valid(before, node as int));
        proof {
            lemma_links_in_range(before, node as int, layer as int);
        }
        let mut list: Vec<usize> = self.nodes[node].neighbors[layer].clone();
        assert(list@ =~= links(before, node as int, layer as int));
        list.push(other);
        if list.len() > self.config.m {
            let vector = copy_vector(&self.nodes[node].vector);
            assert forall|i: int| 0 <= i < list@.len() implies #[trigger] list@[i]
                < self@.nodes.len() by {
                if i < list@.len() - 1 {
                    assert(list@[i] == links(before, node as int, layer as int)[i]);
                }
            }
            list = self.rank_nodes(kernel, &vector, &list);
            proof {
                lemma_by_rank_members(
                    *kernel,
                    before,
                    vector@,
                    links(before, node as int, layer as int).push(other),
                );
            }
            list.truncate(self.config.m);
        }
        let ghost chosen = list@;
        assert(chosen =~= kept(
            *kernel,
            before,
            node as int,
            links(before, node as int, layer as int).push(other),
        ));
        let ghost nodes = self.nodes@;
        self.nodes[node].neighbors[layer] = list;
        proof {
            let after = self.nodes@[node as int]@;
            let expected = relinked(before, node as int, layer as int, chosen);
            assert(after.neighbors =~= before.nodes[node as int].neighbors.update(
                layer as int,
                chosen,
            ));
            assert(self@.nodes =~= expected.nodes);
        }
    }
}

impl HnswIndex {
    /// Links two nodes to each other in a layer.
    fn connect<K: Kernel>(&mut self, kernel: &K, left: usize, right: usize, layer: usize)
        requires
            lawful(*kernel),
            old(self).wf(),
            old(self).grows(),
            left < old(self)@.nodes.len(),
            right < old(self)@.nodes.len(),
            left != right,
            layer < old(self)@.nodes[left as int].neighbors.len(),
            layer < old(self)@.nodes[right as int].neighbors.len(),
        ensures
            final(self)@ == connected(
                *kernel,
                old(self)@,
                left as int,
                right as int,
                layer as int,
            ),
    {
        proof {
            assert(self@.nodes.len() == self.nodes.len());
            lemma_linked(*kernel, self@, left as int, right as int, layer as int);
            let once = linked(*kernel, self@, left as int, right as int, layer as int);
            assert(once.nodes[right as int].id == self@.nodes[right as int].id);
        }
        self.link(kernel, left, right, layer);
        self.link(kernel, right, left, layer);
    }

    /// Links a new node in the layers from `top` down.
    fn link_down<K: Kernel>(
        &mut self,
        kernel: &K,
        query: &Vec<u32>,
        new: usize,
        start: usize,
        top: usize,
    )
        requires
            lawful(*kernel),
            growing(old(self)@, new as int, top as int),
            top < old(self)@.nodes[new as int].neighbors.len(),
            query@ == old(self)@.nodes[new as int].vector,
            joins(old(self)@, new as int, top as int, start),
        ensures
            final(self)@ == linked_down(
                *kernel,
                old(self)@,
                new as int,
                start as int,
                top as int,
            ),
    {
        let ghost first = self@;
        let mut current: usize = start;
        assert(node_valid(self@, new as int));
        let mut remaining: usize = top + 1;
        while remaining > 0
            invariant
                lawful(*kernel),
                remaining <= top + 1,
                growing(self@, new as int, remaining - 1),
                remaining - 1 < self@.nodes[new as int].neighbors.len(),
                query@ == self@.nodes[new as int].vector,
                joins(self@, new as int, remaining - 1, current),
                linked_down(*kernel, first, new as int, start as int, top as int) == linked_down(
                    *kernel,
                    self@,
                    new as int,
                    current as int,
                    remaining - 1,
                ),
            decreases remaining,
        {
            let layer: usize = remaining - 1;
            let ghost before = self@;
            let ef: usize = self.config.ef_construction;
            let mut chosen = self.search_layer(kernel, query, current, ef, layer);
            proof {
                lemma_layer_search_joins(
                    *kernel,
                    before,
                    query@,
                    new as int,
                    current as int,
                    ef,
                    layer as int,
                );
                lemma_at_most_joins(before, new as int, layer as int, chosen@, before.config.m);
            }
            let ghost found = chosen@;
            chosen.truncate(self.config.m);
            assert(chosen@ =~= at_most(found, before.config.m));
            let mut i: usize = 0;
            assert(chosen@.subrange(0, 0) =~= Seq::empty());
            while i < chosen.len()
                invariant
                    lawful(*kernel),
                    i <= chosen@.len(),
                    growing(before, new as int, layer as int),
                    0 <= layer < before.nodes[new as int].neighbors.len(),
                    forall|j: int|
                        0 <= j < chosen@.len() ==> joins(
                            before,
                            new as int,
                            layer as int,
                            #[trigger] chosen@[j],
                        ),
                    self@ == connected_all(
                        *kernel,
                        before,
                        new as int,
                        chosen@.subrange(0, i as int),
                        layer as int,
                    ),
                decreases chosen.len() - i,
            {
                let other: usize = chosen[i];
                proof {
                    let head = chosen@.subrange(0, i as int);
                    assert forall|j: int| 0 <= j < head.len() implies joins(
                        before,
                        new as int,
                        layer as int,
                        #[trigger] head[j],
                    ) by {
                        assert(head[j] == chosen@[j]);
                    }
                    lemma_connected_all(*kernel, before, new as int, head, layer as int);
                    assert(joins(before, new as int, layer as int, chosen@[i as int]));
                    assert(self@.nodes[new as int].id == before.nodes[new as int].id);
                    assert(self@.nodes[other as int].id == before.nodes[other as int].id);
                    let next = chosen@.subrange(0, i + 1);
                    assert(next.drop_last() =~= head);
                    assert(next.last() == other);
                }
                self.connect(kernel, new, other, layer);
                i = i + 1;
            }
            proof {
                assert(chosen@.subrange(0, i as int) =~= chosen@);
                lemma_connected_all(*kernel, before, new as int, chosen@, layer as int);
                assert(self@.nodes[new as int].id == before.nodes[new as int].id);
                let next = if chosen@.len() > 0 {
                    chosen@[0]
                } else {
                    current
                };
                assert(joins(before, new as int, layer as int, next));
                assert(self@.nodes[next as int].id == before.nodes[next as int].id);
            }
            if chosen.len() > 0 {
                current = chosen[0];
            }
            remaining = layer;
        }
    }

    /// Takes in a point whose ID is new.
    fn insert<K: Kernel>(&mut self, kernel: &K, id: String, vector: Vec<u32>) -> (result: Result<
        (),
    >)
        requires
            lawful(*kernel),
            old(self).wf(),
            old(self).grows(),
            old(self)@.nodes.len() < usize::MAX,
            id@.len() > 0,
            forall|i: int|
                0 <= i < old(self)@.nodes.len() ==> (#[trigger] old(self)@.nodes[i]).id != id@,
        ensures
            match inserted(*kernel, old(self)@, id@, vector@) {
                Ok(after) => {
                    &&& result is Ok
                    &&& final(self)@ == after
                    &&& final(self).wf()
                    &&& final(self).grows()
                    &&& after.nodes.len() == old(self)@.nodes.len() + 1
                    &&& forall|i: int|
                        0 <= i < old(self)@.nodes.len() ==> (#[trigger] after.nodes[i]).id
                            == old(self)@.nodes[i].id && after.nodes[i].vector == old(
                            self)@.nodes[i].vector
                    &&& after.nodes[old(self)@.nodes.len() as int].id == id@
                    &&& after.nodes[old(self)@.nodes.len() as int].vector == prepared(
                        *kernel,
                        old(self)@.metric,
                        vector@,
                    )->Ok_0
                    &&& after.dimension == old(self)@.dimension
                    &&& after.metric == old(self)@.metric
                    &&& after.config == old(self)@.config
                    &&& tight(old(self)@) && old(self)@.nodes.len() <= old(self)@.config.m ==> tight(
                        after,
                    )
                },
                Err(error) => result is Err && result->Err_0@ == error && final(self)@
                    == old(self)@,
            },
    {
        if vector.len() != self.dimension {
            return Err(
                Error::InvalidDimension { expected: self.dimension, actual: vector.len() },
            );
        }
        let vector = self.metric.prepare(kernel, vector)?;
        let ghost before = self@;
        let ghost name = id@;
        let level: usize = deterministic_level(id.as_str(), self.config.m);
        let new: usize = self.nodes.len();
        let query = copy_vector(&vector);
        proof {
            lemma_grown(*kernel, before, name, query@);
            lemma_with_node(before, name, query@);
            if tight(before) && before.nodes.len() <= before.config.m {
                lemma_grown_small(*kernel, before, name, query@);
            }
        }
        let mut neighbors: Vec<Vec<usize>> = Vec::new();
        while neighbors.len() < level + 1
            invariant
                neighbors@.len() <= level + 1,
                level <= MAX_LEVEL,
                forall|i: int|
                    0 <= i < neighbors@.len() ==> (#[trigger] neighbors@[i])@ =~= Seq::empty(),
            decreases level + 1 - neighbors.len(),
        {
            neighbors.push(Vec::new());
        }
        let node = Node { id, vector, neighbors };
        let ghost wider = with_node(before, name, query@);
        assert(node@.neighbors =~= wider.nodes[new as int].neighbors);
        self.nodes.push(node);
        assert(self@.nodes =~= wider.nodes);
        assert(self@ == wider);
        match self.entry_point {
            None => {
                self.entry_point = Some(new);
                self.max_level = level;
                return Ok(());
            },
            Some(entry) => {
                let high: usize = self.max_level;
                proof {
                    assert(growing(wider, new as int, high as int));
                    assert(wider.nodes[entry as int] == before.nodes[entry as int]);
                    lemma_descended_joins(
                        *kernel,
                        wider,
                        query@,
                        new as int,
                        entry as int,
                        high as int,
                        level as int,
                    );
                }
                let current: usize = self.descend(kernel, &query, entry, high, level);
                let top: usize = if level < high {
                    level
                } else {
                    high
                };
                assert(growing(wider, new as int, top as int));
                self.link_down(kernel, &query, new, current, top);
                proof {
                    lemma_linked_down(*kernel, wider, new as int, current as int, top as int);
                }
                if level > high {
                    self.entry_point = Some(new);
                    self.max_level = level;
                }
            },
        }
        Ok(())
    }

    /// Builds the graph of points.
    pub fn build<K: Kernel>(
        kernel: &K,
        dimension: usize,
        metric: Metric,
        config: HnswConfig,
        points: Vec<(String, Vec<u32>)>,
    ) -> (result: Result<HnswIndex>)
        requires
            lawful(*kernel),
        ensures
            match built(*kernel, dimension, metric, config, point_views(points@)) {
                Ok(graph) => {
                    &&& result is Ok
                    &&& result->Ok_0@ == graph
                    &&& result->Ok_0.wf()
                    &&& graph.nodes.len() == points@.len()
                    &&& forall|i: int|
                        0 <= i < graph.nodes.len() ==> (#[trigger] graph.nodes[i]).id
                            == points@[i].0@ && graph.nodes[i].vector == prepared(
                            *kernel,
                            metric,
                            points@[i].1@,
                        )->Ok_0
                    &&& points@.len() <= config.m + 1 ==> complete(graph)
                },
                Err(error) => result is Err && result->Err_0@ == error,
            },
    {
        validate_config(dimension, config)?;
        let mut index = HnswIndex {
            dimension,
            metric,
            config,
            nodes: Vec::new(),
            entry_point: None,
            max_level: 0,
        };
        let ghost empty = empty_graph(dimension, metric, config);
        let ghost all = point_views(points@);
        let mut ids = IdSet::new();
        let mut i: usize = 0;
        proof {
            assert(index@.nodes =~= Seq::empty());
            assert(index@ == empty);
            assert(all.subrange(0, 0) =~= Seq::empty());
        }
        while i < points.len()
            invariant
                lawful(*kernel),
                config_verdict(dimension, config) is Ok,
                empty == empty_graph(dimension, metric, config),
                all == point_views(points@),
                i <= points.len(),
                index.wf(),
                index.grows(),
                index@.nodes.len() == i,
                forall|j: int|
                    0 <= j < i ==> (#[trigger] index@.nodes[j]).id == points@[j].0@
                        && index@.nodes[j].vector == prepared(
                        *kernel,
                        metric,
                        points@[j].1@,
                    )->Ok_0,
                index@.dimension == dimension,
                index@.metric == metric,
                index@.config == config,
                i <= config.m + 1 ==> tight(index@),
                ids.wf(),
                forall|id: Seq<char>| #[trigger]
                    ids@.contains(id) <==> exists|j: int|
                        0 <= j < index@.nodes.len() && (#[trigger] index@.nodes[j]).id == id,
                grown_all(*kernel, empty, all.subrange(0, i as int)) == Ok::<GraphView, ErrorView>(
                    index@,
                ),
            decreases points.len() - i,
        {
            let ghost done = index@;
            let ghost next = all.subrange(0, i + 1);
            proof {
                assert(next.drop_last() =~= all.subrange(0, i as int));
                assert(next.last() == (points@[i as int].0@, points@[i as int].1@));
                if grown_all(*kernel, empty, next) is Err {
                    lemma_grown_error(*kernel, empty, all, i + 1);
                }
            }
            if points[i].0.as_str().is_empty() {
                return Err(Error::InvalidQuery("point ID must not be empty"));
            }
            let ghost known = ids@;
            if !ids.insert(points[i].0.clone()) {
                assert(exists|j: int|
                    0 <= j < done.nodes.len() && (#[trigger] done.nodes[j]).id
                        == points@[i as int].0@);
                return Err(Error::InvalidQuery("HNSW point IDs must be unique"));
            }
            proof {
                assert forall|j: int| 0 <= j < done.nodes.len() implies (
                #[trigger] done.nodes[j]).id != points@[i as int].0@ by {
                    assert(!known.contains(points@[i as int].0@));
                }
            }
            index.insert(kernel, points[i].0.clone(), copy_vector(&points[i].1))?;
            proof {
                let new = points@[i as int].0@;
                assert forall|j: int| 0 <= j < i + 1 implies (#[trigger] index@.nodes[j]).id
                    == points@[j].0@ && index@.nodes[j].vector == prepared(
                    *kernel,
                    metric,
                    points@[j].1@,
                )->Ok_0 by {
                    if j < i {
                        assert(done.nodes[j].id == points@[j].0@);
                    }
                }
                assert forall|id: Seq<char>| #[trigger]
                    ids@.contains(id) <==> exists|j: int|
                        0 <= j < index@.nodes.len() && (#[trigger] index@.nodes[j]).id == id by {
                    if known.contains(id) {
                        let j = choose|j: int|
                            0 <= j < done.nodes.len() && (#[trigger] done.nodes[j]).id == id;
                        assert(index@.nodes[j].id == id);
                    }
                    if id == new {
                        assert(index@.nodes[i as int].id == id);
                    }
                    if exists|j: int|
                        0 <= j < index@.nodes.len() && (#[trigger] index@.nodes[j]).id == id {
                        let j = choose|j: int|
                            0 <= j < index@.nodes.len() && (#[trigger] index@.nodes[j]).id == id;
                        if j < i {
                            assert(done.nodes[j].id == id);
                        }
                    }
                }
            }
            i = i + 1;
        }
        assert(all.subrange(0, i as int) =~= all);
        Ok(index)
    }
}

/// The points of a graph to be built.
pub open spec fn point_views(points: Seq<(String, Vec<u32>)>) -> Seq<(Seq<char>, Seq<u32>)> {
    Seq::new(points.len(), |i: int| (points[i].0@, points[i].1@))
}

/// What inserting a point whose ID is new makes of a graph, or why it is refused.
pub open spec fn inserted<K: Kernel>(
    kernel: K,
    g: GraphView,
    id: Seq<char>,
    vector: Seq<u32>,
) -> core::result::Result<GraphView, ErrorView> {
    if vector.len() != g.dimension {
        Err(
            ErrorView::InvalidDimension {
                expected: g.dimension,
                actual: vector.len() as usize,
            },
        )
    } else {
        match prepared(kernel, g.metric, vector) {
            Err(error) => Err(error),
            Ok(ready) => Ok(grown(kernel, g, id, ready)),
        }
    }
}

proof fn lemma_grown_error<K: Kernel>(
    kernel: K,
    g: GraphView,
    points: Seq<(Seq<char>, Seq<u32>)>,
    count: int,
)
    requires
        0 <= count <= points.len(),
        grown_all(kernel, g, points.subrange(0, count)) is Err,
    ensures
        grown_all(kernel, g, points) == grown_all(kernel, g, points.subrange(0, count)),
    decreases points.len() - count,
{
    if count == points.len() {
        assert(points.subrange(0, count) =~= points);
    } else {
        assert(points.subrange(0, count + 1).drop_last() =~= points.subrange(0, count));
        lemma_grown_error(kernel, g, points, count + 1);
    }
}

/// The IDs of a graph's nodes.
pub open spec fn graph_ids(g: GraphView) -> Set<Seq<char>> {
    Set::new(|id: Seq<char>| exists|i: int| 0 <= i < g.nodes.len() && (#[trigger] g.nodes[i]).id == id)
}

impl HnswIndex {
    /// The number of points.
    pub fn len(&self) -> (length: usize)
        ensures
            length == self@.nodes.len(),
    {
        self.nodes.len()
    }

    /// Whether there are no points.
    pub fn is_empty(&self) -> (empty: bool)
        ensures
            empty == (self@.nodes.len() == 0),
    {
        self.nodes.len() == 0
    }

    /// The number of components of a vector.
    pub fn dimension(&self) -> (dimension: usize)
        ensures
            dimension == self@.dimension,
    {
        self.dimension
    }

    /// The metric.
    pub fn metric(&self) -> (metric: Metric)
        ensures
            metric == self@.metric,
    {
        self.metric
    }

    /// The settings that the graph was built with.
    pub fn config(&self) -> (config: HnswConfig)
        ensures
            config == self@.config,
    {
        self.config
    }

    /// The IDs of the points.
    pub(crate) fn ids(&self) -> (ids: IdSet)
        ensures
            ids.wf(),
            ids@ == graph_ids(self@),
    {
        let mut ids = IdSet::new();
        let mut i: usize = 0;
        while i < self.nodes.len()
            invariant
                i <= self.nodes@.len(),
                ids.wf(),
                forall|id: Seq<char>| #[trigger]
                    ids@.contains(id) <==> exists|j: int|
                        0 <= j < i && (#[trigger] self@.nodes[j]).id == id,
            decreases self.nodes.len() - i,
        {
            let ghost before = ids@;
            ids.insert(self.nodes[i].id.clone());
            proof {
                let new = self@.nodes[i as int];
                assert(new == self.nodes@[i as int]@);
                assert forall|id: Seq<char>| #[trigger]
                    ids@.contains(id) <==> exists|j: int|
                        0 <= j < i + 1 && (#[trigger] self@.nodes[j]).id == id by {
                    if before.contains(id) {
                        let j = choose|j: int| 0 <= j < i && (#[trigger] self@.nodes[j]).id == id;
                        assert(0 <= j < i + 1);
                    }
                    if id == new.id {
                        assert(self@.nodes[i as int].id == id);
                    }
                }
            }
            i = i + 1;
        }
        assert(ids@ =~= graph_ids(self@));
        ids
    }
}

/// A graph built for a dimension and a metric has them.
pub proof fn lemma_built_shape<K: Kernel>(
    kernel: K,
    dimension: usize,
    metric: Metric,
    config: HnswConfig,
    points: Seq<(Seq<char>, Seq<u32>)>,
)
    ensures
        built(kernel, dimension, metric, config, points) matches Ok(graph) ==> graph.dimension
            == dimension && graph.metric == metric && graph.config == config,
{
    if config_verdict(dimension, config) is Ok {
        lemma_grown_all_shape(kernel, empty_graph(dimension, metric, config), points);
    }
}

proof fn lemma_grown_all_shape<K: Kernel>(
    kernel: K,
    g: GraphView,
    points: Seq<(Seq<char>, Seq<u32>)>,
)
    ensures
        grown_all(kernel, g, points) matches Ok(graph) ==> graph.dimension == g.dimension
            && graph.metric == g.metric && graph.config == g.config,
    decreases points.len(),
{
    if points.len() > 0 {
        lemma_grown_all_shape(kernel, g, points.drop_last());
        if grown_all(kernel, g, points) is Ok {
            let done = grown_all(kernel, g, points.drop_last())->Ok_0;
            let (id, vector) = points.last();
            let ready = prepared(kernel, g.metric, vector)->Ok_0;
            lemma_grown_shape(kernel, done, id, ready);
        }
    }
}

proof fn lemma_grown_shape<K: Kernel>(kernel: K, g: GraphView, id: Seq<char>, vector: Seq<u32>)
    ensures
        grown(kernel, g, id, vector).dimension == g.dimension,
        grown(kernel, g, id, vector).metric == g.metric,
        grown(kernel, g, id, vector).config == g.config,
{
    match g.entry_point {
        None => {},
        Some(entry) => {
            let level = level_of(id, g.config.m);
            let wider = with_node(g, id, vector);
            let current = descended(
                kernel,
                wider,
                vector,
                entry as int,
                g.max_level as int,
                level as int,
            );
            let top = if level < g.max_level {
                level as int
            } else {
                g.max_level as int
            };
            lemma_linked_down_shape(kernel, wider, g.nodes.len() as int, current, top);
        },
    }
}

proof fn lemma_linked_down_shape<K: Kernel>(
    kernel: K,
    g: GraphView,
    new: int,
    current: int,
    layer: int,
)
    ensures
        linked_down(kernel, g, new, current, layer).dimension == g.dimension,
        linked_down(kernel, g, new, current, layer).metric == g.metric,
        linked_down(kernel, g, new, current, layer).config == g.config,
    decreases layer + 1,
{
    if layer >= 0 {
        let chosen = at_most(
            layer_search(
                kernel,
                g,
                g.nodes[new].vector,
                current,
                g.config.ef_construction,
                layer,
            ),
            g.config.m,
        );
        lemma_connected_all_shape(kernel, g, new, chosen, layer);
        let next = if chosen.len() > 0 {
            chosen[0] as int
        } else {
            current
        };
        lemma_linked_down_shape(
            kernel,
            connected_all(kernel, g, new, chosen, layer),
            new,
            next,
            layer - 1,
        );
    }
}

proof fn lemma_connected_all_shape<K: Kernel>(
    kernel: K,
    g: GraphView,
    new: int,
    others: Seq<usize>,
    layer: int,
)
    ensures
        connected_all(kernel, g, new, others, layer).dimension == g.dimension,
        connected_all(kernel, g, new, others, layer).metric == g.metric,
        connected_all(kernel, g, new, others, layer).config == g.config,
    decreases others.len(),
{
    if others.len() > 0 {
        lemma_connected_all_shape(kernel, g, new, others.drop_last(), layer);
    }
}

} // verus!
