//! What a search without a filter gives through a graph that knows less than the
//! collection.
use crate::collection::{accepted_query, pool, ranks, views, HitView, PointView, SearchHit};
use crate::error::Result;
use crate::hnsw::breadth::law_complete_graph_gives_the_best_scores;
use crate::hnsw::laws::law_graph_results_are_ranked;
use crate::hnsw::model::{node_rank, valid, GraphView};
use crate::hnsw::small::{all_ranks, complete, law_complete_graph_is_searched_exactly};
use crate::hnsw::{graph_hits, graph_ids, graph_query};
use crate::metric::Kernel;
use crate::persistence::consistency::{
    law_changed_points_are_searched_exactly, lemma_graph_part_distinct, shown_ids,
};
use crate::persistence::{
    approximate_result, exact_result, graph_part, graph_results, graph_share, in_step, larger,
    search_result, PersistedView,
};
use crate::ranking::{
    best_of, better, descending, lemma_better_transitive, lemma_descending_distinct,
    lemma_part_stands_for_pool, Ranked,
};
use vstd::prelude::*;

verus! {

/// A graph that gives every search as many results as it asks for, as far as it has
/// nodes.
pub open spec fn generous<K: Kernel>(kernel: K, graph: GraphView) -> bool {
    forall|query: Seq<u32>, k: usize, ef: usize|
        1 <= k <= ef && k <= graph.nodes.len() ==> (#[trigger] graph_hits(
            kernel,
            graph,
            query,
            k,
            ef,
        )).len() == k
}

/// A complete graph gives every search as many results as it asks for.
pub proof fn law_complete_graphs_are_generous<K: Kernel>(kernel: K, graph: GraphView)
    requires
        valid(graph),
        complete(graph),
        graph.nodes.len() <= usize::MAX,
    ensures
        generous(kernel, graph),
{
    assert forall|query: Seq<u32>, k: usize, ef: usize|
        1 <= k <= ef && k <= graph.nodes.len() implies (#[trigger] graph_hits(
        kernel,
        graph,
        query,
        k,
        ef,
    )).len() == k by {
        law_complete_graph_gives_the_best_scores(kernel, graph, query, k, ef);
    }
}

/// The IDs of results as they are ranked.
spec fn ranked_ids(hits: Seq<Ranked>) -> Seq<Seq<char>> {
    Seq::new(hits.len(), |i: int| hits[i].id)
}

/// The results of a graph that are not hidden by changes are all there.
proof fn lemma_graph_part_holds(
    points: Map<Seq<char>, PointView>,
    dirty: Set<Seq<char>>,
    place: Seq<char>,
    hits: Seq<Ranked>,
    i: int,
)
    requires
        graph_part(points, dirty, None, place, hits) is Ok,
        0 <= i < hits.len(),
        !dirty.contains(hits[i].id),
    ensures
        ranks(graph_part(points, dirty, None, place, hits)->Ok_0).contains(hits[i]),
    decreases hits.len(),
{
    let rest = hits.drop_last();
    let done = graph_part(points, dirty, None, place, rest)->Ok_0;
    let all = graph_part(points, dirty, None, place, hits)->Ok_0;
    if i < rest.len() {
        lemma_graph_part_holds(points, dirty, place, rest, i);
        let x = choose|x: int| 0 <= x < ranks(done).len() && ranks(done)[x] == rest[i];
        assert(ranks(all)[x] == hits[i]);
    } else {
        assert(ranks(all)[all.len() - 1] == hits[i]);
    }
}

/// What the graph gives besides the hidden results is one of its results.
proof fn lemma_graph_part_given(
    points: Map<Seq<char>, PointView>,
    dirty: Set<Seq<char>>,
    place: Seq<char>,
    hits: Seq<Ranked>,
    x: int,
)
    requires
        graph_part(points, dirty, None, place, hits) is Ok,
        0 <= x < graph_part(points, dirty, None, place, hits)->Ok_0.len(),
    ensures
        hits.contains(ranks(graph_part(points, dirty, None, place, hits)->Ok_0)[x]),
        !dirty.contains(graph_part(points, dirty, None, place, hits)->Ok_0[x].id),
    decreases hits.len(),
{
    if hits.len() > 0 {
        let rest = hits.drop_last();
        let done = graph_part(points, dirty, None, place, rest)->Ok_0;
        if x < done.len() {
            lemma_graph_part_given(points, dirty, place, rest, x);
            let i = choose|i: int| 0 <= i < rest.len() && rest[i] == ranks(done)[x];
            assert(hits[i] == ranks(done)[x]);
        } else {
            assert(hits[hits.len() - 1] == hits.last());
        }
    }
}

/// Changes hide no more results of a graph than there are changes.
proof fn lemma_hidden_results(
    points: Map<Seq<char>, PointView>,
    dirty: Set<Seq<char>>,
    place: Seq<char>,
    hits: Seq<Ranked>,
)
    requires
        graph_part(points, dirty, None, place, hits) is Ok,
        dirty.finite(),
        forall|i: int, j: int|
            0 <= i < j < hits.len() ==> (#[trigger] hits[i]).id != (#[trigger] hits[j]).id,
    ensures
        graph_part(points, dirty, None, place, hits)->Ok_0.len() + dirty.len() >= hits.len(),
{
    let front = graph_part(points, dirty, None, place, hits)->Ok_0;
    lemma_graph_part_distinct(points, dirty, None, place, hits);
    let all = ranked_ids(hits);
    let shown = shown_ids(front);
    assert(all.no_duplicates()) by {
        assert forall|i: int, j: int|
            0 <= i < all.len() && 0 <= j < all.len() && i != j implies all[i] != all[j] by {
            if i < j {
                assert(hits[i].id != hits[j].id);
            } else {
                assert(hits[j].id != hits[i].id);
            }
        }
    }
    all.unique_seq_to_set();
    shown.unique_seq_to_set();
    vstd::seq_lib::seq_to_set_is_finite(all);
    vstd::seq_lib::seq_to_set_is_finite(shown);
    let covered = shown.to_set().union(dirty);
    assert(all.to_set().subset_of(covered)) by {
        assert forall|id: Seq<char>| all.to_set().contains(id) implies covered.contains(id) by {
            let i = choose|i: int| 0 <= i < all.len() && all[i] == id;
            if !dirty.contains(id) {
                lemma_graph_part_holds(points, dirty, place, hits, i);
                let x = choose|x: int| 0 <= x < ranks(front).len() && ranks(front)[x] == hits[i];
                assert(shown[x] == id);
            }
        }
    }
    vstd::set_lib::lemma_len_subset(all.to_set(), covered);
    vstd::set_lib::lemma_len_union(shown.to_set(), dirty);
}

/// What a search has to choose from: every result of the graph that is not hidden, and
/// every changed point.
spec fn choices<K: Kernel>(
    kernel: K,
    v: PersistedView,
    q: Seq<u32>,
    front: Seq<HitView>,
) -> Set<Ranked> {
    ranks(front).to_set().union(
        pool(kernel, v.collection.config.metric, v.collection.points, q, v.dirty, None),
    )
}

/// The results of a search without a filter have different IDs, each of a stored point.
proof fn lemma_results_distinct<K: Kernel>(
    kernel: K,
    v: PersistedView,
    q: Seq<u32>,
    place: Seq<char>,
    near: Seq<Ranked>,
    out: Seq<Ranked>,
    k: nat,
)
    requires
        graph_part(v.collection.points, v.dirty, None, place, near) is Ok,
        forall|i: int, j: int|
            0 <= i < j < near.len() ==> (#[trigger] near[i]).id != (#[trigger] near[j]).id,
        best_of(
            out,
            choices(
                kernel,
                v,
                q,
                graph_part(v.collection.points, v.dirty, None, place, near)->Ok_0,
            ),
            k,
        ),
    ensures
        ranked_ids(out).no_duplicates(),
        forall|i: int|
            0 <= i < out.len() ==> v.collection.points.contains_key((#[trigger] out[i]).id),
{
    let points = v.collection.points;
    let front = graph_part(points, v.dirty, None, place, near)->Ok_0;
    lemma_graph_part_distinct(points, v.dirty, None, place, near);
    lemma_descending_distinct(out);
    let ids = ranked_ids(out);
    assert forall|i: int| 0 <= i < out.len() implies points.contains_key(
        (#[trigger] out[i]).id,
    ) by {
        assert(choices(kernel, v, q, front).contains(out[i]));
        if ranks(front).contains(out[i]) {
            let x = choose|x: int| 0 <= x < ranks(front).len() && ranks(front)[x] == out[i];
            assert(points.contains_key(front[x].id));
        }
    }
    assert forall|i: int, j: int|
        0 <= i < ids.len() && 0 <= j < ids.len() && i != j implies ids[i] != ids[j] by {
        assert(out[i] != out[j]);
        assert(choices(kernel, v, q, front).contains(out[i]));
        assert(choices(kernel, v, q, front).contains(out[j]));
        if ids[i] == ids[j] {
            if ranks(front).contains(out[i]) {
                let x = choose|x: int| 0 <= x < ranks(front).len() && ranks(front)[x] == out[i];
                assert(!v.dirty.contains(front[x].id));
                let y = choose|y: int| 0 <= y < ranks(front).len() && ranks(front)[y] == out[j];
                assert(shown_ids(front)[x] == shown_ids(front)[y]);
            } else if ranks(front).contains(out[j]) {
                let y = choose|y: int| 0 <= y < ranks(front).len() && ranks(front)[y] == out[j];
                assert(!v.dirty.contains(front[y].id));
            } else {
                assert(out[i] == out[j]);
            }
        }
    }
}

/// Results that the graph was asked for, as a search without a filter asks for them.
spec fn asked_of_graph<K: Kernel>(
    kernel: K,
    v: PersistedView,
    graph: GraphView,
    query: Seq<u32>,
    k: usize,
    ef_search: usize,
) -> Seq<Ranked> {
    let share = graph_share(k, v.dirty.len(), graph.nodes.len());
    let ef = larger(ef_search, share);
    if share == 0 {
        seq![]
    } else {
        graph_hits(kernel, graph, graph_query(kernel, graph, query, share, ef)->Ok_0, share, ef)
    }
}

/// Where the results are fewer than asked for, nothing of the graph stayed unseen.
proof fn lemma_short_result_saw_all<K: Kernel>(
    kernel: K,
    v: PersistedView,
    graph: GraphView,
    place: Seq<char>,
    query: Seq<u32>,
    k: usize,
    ef_search: usize,
    out: Seq<Ranked>,
    q: Seq<u32>,
)
    requires
        in_step(v),
        v.graph == Some(graph),
        v.dirty.finite(),
        valid(graph),
        graph.nodes.len() <= usize::MAX,
        generous(kernel, graph),
        graph_results(kernel, v, graph, place, query, k, ef_search) is Ok,
        best_of(
            out,
            choices(
                kernel,
                v,
                q,
                graph_results(kernel, v, graph, place, query, k, ef_search)->Ok_0,
            ),
            k as nat,
        ),
        out.len() < k,
    ensures
        forall|id: Seq<char>| #[trigger]
            v.collection.points.contains_key(id) ==> ranked_ids(out).contains(id),
{
    let points = v.collection.points;
    let front = graph_results(kernel, v, graph, place, query, k, ef_search)->Ok_0;
    let near = asked_of_graph(kernel, v, graph, query, k, ef_search);
    let share = graph_share(k, v.dirty.len(), graph.nodes.len());
    let ef = larger(ef_search, share);
    assert(graph_part(points, v.dirty, None, place, near) == Ok::<
        Seq<HitView>,
        crate::error::ErrorView,
    >(front));
    if share > 0 {
        let inner = graph_query(kernel, graph, query, share, ef)->Ok_0;
        law_graph_results_are_ranked(kernel, graph, inner, share, ef);
        assert(near.len() == share);
    }
    lemma_hidden_results(points, v.dirty, place, near);
    lemma_graph_part_distinct(points, v.dirty, None, place, near);
    // All that there is to choose from was chosen.
    assert forall|r: Ranked| choices(kernel, v, q, front).contains(r) implies #[trigger] out.contains(
        r,
    ) by {}
    let shown = ranks(front);
    let kept = ranked_ids(out);
    assert(front.len() <= out.len()) by {
        let names = shown_ids(front);
        names.unique_seq_to_set();
        lemma_results_distinct(kernel, v, q, place, near, out, k as nat);
        kept.unique_seq_to_set();
        vstd::seq_lib::seq_to_set_is_finite(kept);
        assert(names.to_set().subset_of(kept.to_set())) by {
            assert forall|id: Seq<char>| names.to_set().contains(id) implies kept.to_set().contains(
                id,
            ) by {
                let x = choose|x: int| 0 <= x < names.len() && names[x] == id;
                assert(shown.contains(shown[x]));
                assert(out.contains(shown[x]));
                let y = choose|y: int| 0 <= y < out.len() && out[y] == shown[x];
                assert(kept[y] == id);
            }
        }
        vstd::set_lib::lemma_len_subset(names.to_set(), kept.to_set());
    }
    assert(share == graph.nodes.len());
    assert forall|id: Seq<char>| #[trigger] points.contains_key(id) implies kept.contains(id) by {
        if v.dirty.contains(id) {
            let r = Ranked {
                id,
                score: crate::metric::scored(
                    kernel,
                    v.collection.config.metric,
                    q,
                    points[id].vector,
                ),
            };
            assert(choices(kernel, v, q, front).contains(r));
            assert(out.contains(r));
            let y = choose|y: int| 0 <= y < out.len() && out[y] == r;
            assert(kept[y] == id);
        } else {
            assert(graph_ids(graph).contains(id));
            lemma_all_nodes_given(graph, near, id);
            let i = choose|i: int| 0 <= i < near.len() && (#[trigger] near[i]).id == id;
            lemma_graph_part_holds(points, v.dirty, place, near, i);
            assert(shown.contains(near[i]));
            assert(out.contains(near[i]));
            let y = choose|y: int| 0 <= y < out.len() && out[y] == near[i];
            assert(kept[y] == id);
        }
    }
}

/// As many results with different IDs of a graph as it has nodes name all of them.
proof fn lemma_all_nodes_given(graph: GraphView, near: Seq<Ranked>, id: Seq<char>)
    requires
        valid(graph),
        near.len() == graph.nodes.len(),
        graph_ids(graph).contains(id),
        forall|i: int, j: int|
            0 <= i < j < near.len() ==> (#[trigger] near[i]).id != (#[trigger] near[j]).id,
        forall|i: int| 0 <= i < near.len() ==> graph_ids(graph).contains((#[trigger] near[i]).id),
    ensures
        exists|i: int| 0 <= i < near.len() && (#[trigger] near[i]).id == id,
{
    let names = ranked_ids(near);
    let nodes = Seq::new(graph.nodes.len(), |i: int| graph.nodes[i].id);
    assert(names.no_duplicates()) by {
        assert forall|i: int, j: int|
            0 <= i < names.len() && 0 <= j < names.len() && i != j implies names[i] != names[j] by {
            if i < j {
                assert(near[i].id != near[j].id);
            } else {
                assert(near[j].id != near[i].id);
            }
        }
    }
    assert(nodes.no_duplicates()) by {
        assert forall|i: int, j: int|
            0 <= i < nodes.len() && 0 <= j < nodes.len() && i != j implies nodes[i] != nodes[j] by {
            if i < j {
                assert(graph.nodes[i].id != graph.nodes[j].id);
            } else {
                assert(graph.nodes[j].id != graph.nodes[i].id);
            }
        }
    }
    names.unique_seq_to_set();
    nodes.unique_seq_to_set();
    vstd::seq_lib::seq_to_set_is_finite(nodes);
    assert(names.to_set().subset_of(nodes.to_set())) by {
        assert forall|x: Seq<char>| names.to_set().contains(x) implies nodes.to_set().contains(x) by {
            let i = choose|i: int| 0 <= i < names.len() && names[i] == x;
            assert(graph_ids(graph).contains(near[i].id));
            let j = choose|j: int| 0 <= j < graph.nodes.len() && (#[trigger] graph.nodes[j]).id == x;
            assert(nodes[j] == x);
        }
    }
    vstd::set_lib::lemma_subset_equality(names.to_set(), nodes.to_set());
    let j = choose|j: int| 0 <= j < graph.nodes.len() && (#[trigger] graph.nodes[j]).id == id;
    assert(nodes[j] == id);
    assert(nodes.to_set().contains(id));
    assert(names.to_set().contains(id));
    let i = choose|i: int| 0 <= i < names.len() && names[i] == id;
    assert(near[i].id == id);
}

/// Points that have changed or were deleted since the graph was built never make a result
/// short: where the graph gives every search as many results as it asks for, a search
/// without a filter gives `k` results, or as many as there are points.
pub proof fn law_unfiltered_search_is_never_short<K: Kernel>(
    kernel: K,
    v: PersistedView,
    graph: GraphView,
    place: Seq<char>,
    query: Seq<u32>,
    k: usize,
    ef_search: usize,
    result: Result<Vec<SearchHit>>,
)
    requires
        in_step(v),
        v.graph == Some(graph),
        v.dirty.finite(),
        v.collection.points.dom().finite(),
        valid(graph),
        graph.nodes.len() <= usize::MAX,
        generous(kernel, graph),
        approximate_result(kernel, v, graph, place, query, k, ef_search, result),
        result is Ok,
    ensures
        result->Ok_0@.len() == if k <= v.collection.points.dom().len() {
            k as nat
        } else {
            v.collection.points.dom().len()
        },
{
    let points = v.collection.points;
    let q = accepted_query(kernel, v.collection.config, query, k)->Ok_0;
    let front = graph_results(kernel, v, graph, place, query, k, ef_search)->Ok_0;
    let out = ranks(views(result->Ok_0@));
    law_changed_points_are_searched_exactly(
        kernel,
        v,
        graph,
        place,
        query,
        k,
        ef_search,
        result,
    );
    let near = asked_of_graph(kernel, v, graph, query, k, ef_search);
    let share = graph_share(k, v.dirty.len(), graph.nodes.len());
    if share > 0 {
        let ef = larger(ef_search, share);
        law_graph_results_are_ranked(
            kernel,
            graph,
            graph_query(kernel, graph, query, share, ef)->Ok_0,
            share,
            ef,
        );
    }
    assert(best_of(out, choices(kernel, v, q, front), k as nat));
    lemma_results_distinct(kernel, v, q, place, near, out, k as nat);
    let kept = ranked_ids(out);
    kept.unique_seq_to_set();
    vstd::seq_lib::seq_to_set_is_finite(kept);
    assert(kept.to_set().subset_of(points.dom())) by {
        assert forall|id: Seq<char>| kept.to_set().contains(id) implies points.dom().contains(
            id,
        ) by {
            let i = choose|i: int| 0 <= i < kept.len() && kept[i] == id;
            assert(points.contains_key(out[i].id));
        }
    }
    vstd::set_lib::lemma_len_subset(kept.to_set(), points.dom());
    if out.len() < k {
        lemma_short_result_saw_all(
            kernel,
            v,
            graph,
            place,
            query,
            k,
            ef_search,
            out,
            q,
        );
        assert(points.dom().subset_of(kept.to_set())) by {
            assert forall|id: Seq<char>| points.dom().contains(id) implies kept.to_set().contains(
                id,
            ) by {
                assert(points.contains_key(id));
            }
        }
        vstd::set_lib::lemma_len_subset(points.dom(), kept.to_set());
    }
}

/// The graph has the vectors of the points that have not changed since it was built.
pub open spec fn faithful(v: PersistedView, graph: GraphView) -> bool {
    &&& graph.metric == v.collection.config.metric
    &&& graph.dimension == v.collection.config.dimension
    &&& forall|i: int|
        0 <= i < graph.nodes.len() && !v.dirty.contains((#[trigger] graph.nodes[i]).id)
            ==> graph.nodes[i].vector == v.collection.points[graph.nodes[i].id].vector
}

/// What is not hidden keeps the order of the graph's results.
proof fn lemma_graph_part_descends(
    points: Map<Seq<char>, PointView>,
    dirty: Set<Seq<char>>,
    place: Seq<char>,
    hits: Seq<Ranked>,
)
    requires
        graph_part(points, dirty, None, place, hits) is Ok,
        descending(hits),
    ensures
        descending(ranks(graph_part(points, dirty, None, place, hits)->Ok_0)),
    decreases hits.len(),
{
    if hits.len() > 0 {
        let rest = hits.drop_last();
        assert forall|i: int, j: int| 0 <= i < j < rest.len() implies better(
            #[trigger] rest[i],
            #[trigger] rest[j],
        ) by {
            assert(better(hits[i], hits[j]));
        }
        lemma_graph_part_descends(points, dirty, place, rest);
        let done = graph_part(points, dirty, None, place, rest)->Ok_0;
        let all = graph_part(points, dirty, None, place, hits)->Ok_0;
        let order = ranks(all);
        assert forall|i: int, j: int| 0 <= i < j < order.len() implies better(
            #[trigger] order[i],
            #[trigger] order[j],
        ) by {
            assert(order[i] == ranks(done)[i]);
            if j < done.len() {
                assert(order[j] == ranks(done)[j]);
            } else {
                lemma_graph_part_given(points, dirty, place, rest, i);
                let x = choose|x: int| 0 <= x < rest.len() && rest[x] == ranks(done)[i];
                assert(better(hits[x], hits[hits.len() - 1]));
            }
        }
    }
}

/// The unchanged points, each with its score.
spec fn unchanged<K: Kernel>(kernel: K, v: PersistedView, q: Seq<u32>) -> Set<Ranked> {
    pool(
        kernel,
        v.collection.config.metric,
        v.collection.points,
        q,
        v.collection.points.dom().difference(v.dirty),
        None,
    )
}

/// Of an unchanged point a faithful graph has a node of the same rank.
proof fn lemma_unchanged_is_a_node<K: Kernel>(
    kernel: K,
    v: PersistedView,
    graph: GraphView,
    q: Seq<u32>,
    r: Ranked,
) -> (i: int)
    requires
        in_step(v),
        v.graph == Some(graph),
        faithful(v, graph),
        unchanged(kernel, v, q).contains(r),
    ensures
        0 <= i < graph.nodes.len(),
        node_rank(kernel, graph, q, i) == r,
        all_ranks(kernel, graph, q).contains(r),
{
    assert(graph_ids(graph).contains(r.id));
    let i = choose|i: int| 0 <= i < graph.nodes.len() && (#[trigger] graph.nodes[i]).id == r.id;
    assert(node_rank(kernel, graph, q, i) == r);
    i
}

/// The first `k` of what is not hidden are the `k` best of the unchanged points.
proof fn lemma_front_is_best<K: Kernel>(
    kernel: K,
    v: PersistedView,
    graph: GraphView,
    place: Seq<char>,
    q: Seq<u32>,
    k: usize,
    share: usize,
    near: Seq<Ranked>,
)
    requires
        k > 0,
        in_step(v),
        v.graph == Some(graph),
        v.dirty.finite(),
        valid(graph),
        faithful(v, graph),
        share == graph.nodes.len() || share >= k + v.dirty.len(),
        near.len() == share,
        best_of(near, all_ranks(kernel, graph, q), share as nat),
        forall|i: int, j: int|
            0 <= i < j < near.len() ==> (#[trigger] near[i]).id != (#[trigger] near[j]).id,
        forall|i: int| 0 <= i < near.len() ==> graph_ids(graph).contains((#[trigger] near[i]).id),
        graph_part(v.collection.points, v.dirty, None, place, near) is Ok,
    ensures
        ({
            let front = ranks(graph_part(v.collection.points, v.dirty, None, place, near)->Ok_0);
            best_of(crate::hnsw::model::at_most(front, k), unchanged(kernel, v, q), k as nat)
        }),
{
    let points = v.collection.points;
    let list = graph_part(points, v.dirty, None, place, near)->Ok_0;
    let front = ranks(list);
    let part = crate::hnsw::model::at_most(front, k);
    let whole = unchanged(kernel, v, q);
    lemma_graph_part_descends(points, v.dirty, place, near);
    lemma_graph_part_distinct(points, v.dirty, None, place, near);
    lemma_hidden_results(points, v.dirty, place, near);
    assert forall|x: int| 0 <= x < part.len() implies whole.contains(#[trigger] part[x]) by {
        assert(part[x] == front[x]);
        lemma_graph_part_given(points, v.dirty, place, near, x);
        assert(points.contains_key(list[x].id));
        let i = choose|i: int| 0 <= i < near.len() && near[i] == front[x];
        assert(all_ranks(kernel, graph, q).contains(near[i]));
        let n = choose|n: int|
            0 <= n < graph.nodes.len() && near[i] == #[trigger] node_rank(kernel, graph, q, n);
        assert(graph.nodes[n].id == list[x].id);
    }
    assert forall|i: int, j: int| 0 <= i < j < part.len() implies better(
        #[trigger] part[i],
        #[trigger] part[j],
    ) by {
        assert(part[i] == front[i] && part[j] == front[j]);
    }
    assert forall|r: Ranked| #[trigger] whole.contains(r) implies part.contains(r) || (part.len()
        == k && k > 0 && better(part[k - 1], r)) by {
        let n = lemma_unchanged_is_a_node(kernel, v, graph, q, r);
        if near.contains(r) {
            let i = choose|i: int| 0 <= i < near.len() && near[i] == r;
            lemma_graph_part_holds(points, v.dirty, place, near, i);
            let x = choose|x: int| 0 <= x < front.len() && front[x] == r;
            if x < part.len() {
                assert(part[x] == r);
            } else {
                assert(part[k - 1] == front[k - 1]);
                assert(better(front[k - 1], front[x]));
            }
        } else {
            assert(near.len() == share && better(near[share - 1], r));
            if share == graph.nodes.len() {
                lemma_all_nodes_given(graph, near, r.id);
                let i = choose|i: int| 0 <= i < near.len() && (#[trigger] near[i]).id == r.id;
                assert(all_ranks(kernel, graph, q).contains(near[i]));
                let m = choose|m: int|
                    0 <= m < graph.nodes.len() && near[i] == #[trigger] node_rank(
                        kernel,
                        graph,
                        q,
                        m,
                    );
                if m < n {
                    assert(graph.nodes[m].id != graph.nodes[n].id);
                } else if n < m {
                    assert(graph.nodes[n].id != graph.nodes[m].id);
                }
                assert(near[i] == r);
            }
            assert(front.len() >= k);
            assert(part[k - 1] == front[k - 1]);
            lemma_graph_part_given(points, v.dirty, place, near, k - 1);
            let y = choose|y: int| 0 <= y < near.len() && near[y] == front[k - 1];
            if y < share - 1 {
                assert(better(near[y], near[share - 1]));
                lemma_better_transitive(near[y], near[share - 1], r);
            }
        }
    }
}

/// Over a complete graph with the vectors of the unchanged points, a search without a
/// filter that is as broad as the graph is exact: its results are the `k` best of all
/// points that the collection holds, whatever has changed since the graph was built.
pub proof fn law_unfiltered_search_is_exact<K: Kernel>(
    kernel: K,
    v: PersistedView,
    graph: GraphView,
    place: Seq<char>,
    query: Seq<u32>,
    k: usize,
    ef_search: usize,
    result: Result<Vec<SearchHit>>,
)
    requires
        in_step(v),
        v.graph == Some(graph),
        v.dirty.finite(),
        valid(graph),
        graph.nodes.len() <= usize::MAX,
        complete(graph),
        faithful(v, graph),
        ef_search >= graph.nodes.len(),
        approximate_result(kernel, v, graph, place, query, k, ef_search, result),
        result is Ok,
    ensures
        ({
            let q = accepted_query(kernel, v.collection.config, query, k)->Ok_0;
            best_of(
                ranks(views(result->Ok_0@)),
                pool(
                    kernel,
                    v.collection.config.metric,
                    v.collection.points,
                    q,
                    v.collection.points.dom(),
                    None,
                ),
                k as nat,
            )
        }),
{
    let points = v.collection.points;
    let metric = v.collection.config.metric;
    let q = accepted_query(kernel, v.collection.config, query, k)->Ok_0;
    let front = graph_results(kernel, v, graph, place, query, k, ef_search)->Ok_0;
    let out = ranks(views(result->Ok_0@));
    let changed = pool(kernel, metric, points, q, v.dirty, None);
    let all = pool(kernel, metric, points, q, points.dom(), None);
    law_changed_points_are_searched_exactly(
        kernel,
        v,
        graph,
        place,
        query,
        k,
        ef_search,
        result,
    );
    let near = asked_of_graph(kernel, v, graph, query, k, ef_search);
    let share = graph_share(k, v.dirty.len(), graph.nodes.len());
    let ef = larger(ef_search, share);
    let gathered = choices(kernel, v, q, front);
    assert(best_of(out, gathered, k as nat));
    if share > 0 {
        assert(graph_query(kernel, graph, query, share, ef)->Ok_0 == q);
        law_graph_results_are_ranked(kernel, graph, q, share, ef);
        law_complete_graph_is_searched_exactly(kernel, graph, q, share, ef);
        law_complete_graph_gives_the_best_scores(kernel, graph, q, share, ef);
    } else {
        assert(all_ranks(kernel, graph, q) =~= Set::empty());
    }
    lemma_front_is_best(kernel, v, graph, place, q, k, share, near);
    let part = crate::hnsw::model::at_most(ranks(front), k);
    lemma_graph_part_distinct(points, v.dirty, None, place, near);
    assert forall|x: int| 0 <= x < part.len() implies gathered.contains(#[trigger] part[x]) by {
        assert(ranks(front).contains(ranks(front)[x]));
    }
    assert forall|x: int| 0 <= x < out.len() implies all.contains(#[trigger] out[x]) by {
        assert(gathered.contains(out[x]));
        if ranks(front).contains(out[x]) {
            let y = choose|y: int| 0 <= y < ranks(front).len() && ranks(front)[y] == out[x];
            lemma_graph_part_given(points, v.dirty, place, near, y);
            assert(points.contains_key(front[y].id));
            let i = choose|i: int| 0 <= i < near.len() && near[i] == ranks(front)[y];
            assert(all_ranks(kernel, graph, q).contains(near[i]));
            let n = choose|n: int|
                0 <= n < graph.nodes.len() && near[i] == #[trigger] node_rank(kernel, graph, q, n);
            assert(graph.nodes[n].id == front[y].id);
        }
    }
    assert forall|r: Ranked| #[trigger] all.contains(r) implies out.contains(r) || (out.len() == k
        && k > 0 && better(out[k - 1], r)) by {
        if v.dirty.contains(r.id) {
            assert(changed.contains(r));
            assert(gathered.contains(r));
        } else {
            assert(unchanged(kernel, v, q).contains(r));
            lemma_part_stands_for_pool(
                out,
                gathered,
                part,
                unchanged(kernel, v, q),
                k as nat,
                r,
            );
        }
    }
}

/// How many results a search without a filter gives of a persistent collection: `k`, or
/// as many as it holds points, whether it has a graph or not.
pub proof fn law_search_gives_as_many_as_asked<K: Kernel>(
    kernel: K,
    v: PersistedView,
    query: Seq<u32>,
    k: usize,
    ef_search: usize,
    result: Result<Vec<SearchHit>>,
)
    requires
        in_step(v),
        v.dirty.finite(),
        v.collection.points.dom().finite(),
        v.graph matches Some(graph) ==> valid(graph) && graph.nodes.len() <= usize::MAX && generous(
            kernel,
            graph,
        ),
        search_result(kernel, v, query, k, None, ef_search, result),
        result is Ok,
    ensures
        result->Ok_0@.len() == if k <= v.collection.points.dom().len() {
            k as nat
        } else {
            v.collection.points.dom().len()
        },
{
    match v.graph {
        Some(graph) => {
            law_unfiltered_search_is_never_short(
                kernel,
                v,
                graph,
                "its segment"@,
                query,
                k,
                ef_search,
                result,
            );
        },
        None => {
            lemma_exact_is_never_short(kernel, v, query, k, result);
        },
    }
}

/// An exact search without a filter gives `k` results, or as many as there are points.
pub(crate) proof fn lemma_exact_is_never_short<K: Kernel>(
    kernel: K,
    v: PersistedView,
    query: Seq<u32>,
    k: usize,
    result: Result<Vec<SearchHit>>,
)
    requires
        v.collection.points.dom().finite(),
        exact_result(kernel, v, query, k, v.collection.points.dom(), None, result),
        result is Ok,
    ensures
        result->Ok_0@.len() == if k <= v.collection.points.dom().len() {
            k as nat
        } else {
            v.collection.points.dom().len()
        },
{
    let points = v.collection.points;
    let metric = v.collection.config.metric;
    let q = accepted_query(kernel, v.collection.config, query, k)->Ok_0;
    let all = pool(kernel, metric, points, q, points.dom(), None);
    let out = ranks(views(result->Ok_0@));
    let kept = ranked_ids(out);
    lemma_descending_distinct(out);
    assert(kept.no_duplicates()) by {
        assert forall|i: int, j: int|
            0 <= i < kept.len() && 0 <= j < kept.len() && i != j implies kept[i] != kept[j] by {
            assert(all.contains(out[i]) && all.contains(out[j]));
            assert(out[i] != out[j]);
        }
    }
    kept.unique_seq_to_set();
    vstd::seq_lib::seq_to_set_is_finite(kept);
    assert(kept.to_set().subset_of(points.dom())) by {
        assert forall|id: Seq<char>| kept.to_set().contains(id) implies points.dom().contains(
            id,
        ) by {
            let i = choose|i: int| 0 <= i < kept.len() && kept[i] == id;
            assert(all.contains(out[i]));
        }
    }
    vstd::set_lib::lemma_len_subset(kept.to_set(), points.dom());
    if out.len() < k {
        assert(points.dom().subset_of(kept.to_set())) by {
            assert forall|id: Seq<char>| points.dom().contains(id) implies kept.to_set().contains(
                id,
            ) by {
                let r = Ranked {
                    id,
                    score: crate::metric::scored(kernel, metric, q, points[id].vector),
                };
                assert(all.contains(r));
                let i = choose|i: int| 0 <= i < out.len() && out[i] == r;
                assert(kept[i] == id);
            }
        }
        vstd::set_lib::lemma_len_subset(points.dom(), kept.to_set());
    }
}

} // verus!
