//! What a search with a filter gives of a shard, whichever way it takes.
use crate::collection::{
    accepted_query, describe, found, listing, pool, prepared_batch, ranks, views, HitView,
    PointView, SearchHit,
};
use crate::error::Result;
use crate::filter::Filter;
use crate::hits::{law_merge_keeps_the_best, one_rank_each, rank_set};
use crate::hnsw::breadth::law_complete_graph_gives_the_best_scores;
use crate::hnsw::laws::{law_graph_results_are_ranked, law_graph_results_show_their_scores};
use crate::hnsw::model::{node_rank, valid, GraphView};
use crate::hnsw::small::{all_ranks, complete, law_complete_graph_is_searched_exactly};
use crate::hnsw::{graph_hits, graph_ids, graph_query};
use crate::metric::{lawful, Kernel};
use crate::persistence::consistency::{
    lemma_deleted_beside, lemma_prepared_ids, lemma_written_beside,
};
use crate::persistence::fidelity::{lemma_built_is_faithful, lemma_stays_faithful, steady};
use crate::persistence::unfiltered::faithful;
use crate::persistence::{
    completed, graph_part, in_step, larger, put_together, PersistedView,
};
use crate::raft_state_machine::laws::law_reindexed_is_in_step;
use crate::raft_state_machine::model::{
    after_record, carried_out, indexed, reindexed, shard_graph_config, AppliedPayloadView,
    AppliedView, ShardView,
};
use crate::raft_state_machine::search::{
    broad_result, doubled, first_width, is_narrow, refreshed, reindex_due, shard_place,
    shard_result, shard_search, topped_up, unchanged_candidates, widened,
};
use crate::raft_storage::{CommandView, ResponseView};
use crate::ranking::{
    best_of, better, descending, lemma_better_transitive, lemma_part_stands_for_pool, Ranked,
};
use crate::text::{lemma_text_irreflexive, text_less};
use vstd::prelude::*;

verus! {

/// The unchanged points that a filter admits.
pub open spec fn admitted_unchanged(v: PersistedView, filter: Filter) -> Set<Seq<char>> {
    Set::new(
        |id: Seq<char>|
            v.collection.points.contains_key(id) && !v.dirty.contains(id) && filter.holds(
                v.collection.points[id].metadata,
            ),
    )
}

/// The points that a filter admits, each with its score.
pub open spec fn admitted_pool<K: Kernel>(
    kernel: K,
    v: PersistedView,
    query: Seq<u32>,
    filter: Filter,
) -> Set<Ranked> {
    pool(
        kernel,
        v.collection.config.metric,
        v.collection.points,
        query,
        v.collection.points.dom(),
        Some(&filter),
    )
}

proof fn lemma_unchanged_candidates(v: PersistedView, filter: Filter)
    requires
        in_step(v),
        v.catalog is Some,
    ensures
        unchanged_candidates(v, v.catalog->0, filter) == admitted_unchanged(v, filter),
{
    let catalog = v.catalog->0;
    assert forall|id: Seq<char>| unchanged_candidates(v, catalog, filter).contains(id)
        == admitted_unchanged(v, filter).contains(id) by {
        if !v.dirty.contains(id) {
            assert(catalog.contains_key(id) == v.collection.points.contains_key(id));
        }
    }
    assert(unchanged_candidates(v, catalog, filter) =~= admitted_unchanged(v, filter));
}

/// A filter that admits few of the unchanged points is searched exactly: at most 256 of
/// them, or at most sixteen times as many as are asked for, or less than one in four. So
/// is every filter where there is no graph. The results are the `k` best of all points
/// that the filter admits, with their metadata and commits.
pub proof fn law_narrow_filters_are_searched_exactly<K: Kernel>(
    kernel: K,
    v: PersistedView,
    query: Seq<u32>,
    k: usize,
    filter: Filter,
    ef_search: usize,
    result: Result<Vec<SearchHit>>,
)
    requires
        in_step(v),
        shard_result(kernel, v, query, k, Some(&filter), ef_search, result),
        result is Ok,
        v.graph matches Some(graph) ==> {
            let few = admitted_unchanged(v, filter).len();
            v.catalog is None || few <= 256 || few <= 16 * k || 4 * few < graph.nodes.len()
        },
    ensures
        ({
            let q = accepted_query(kernel, v.collection.config, query, k)->Ok_0;
            &&& best_of(
                ranks(views(result->Ok_0@)),
                admitted_pool(kernel, v, q, filter),
                k as nat,
            )
            &&& describe(views(result->Ok_0@), v.collection.points)
        }),
{
    if v.graph is Some && v.catalog is Some {
        let q = accepted_query(kernel, v.collection.config, query, k)->Ok_0;
        lemma_unchanged_candidates(v, filter);
        let ids = admitted_unchanged(v, filter).union(v.dirty);
        let some = pool(
            kernel,
            v.collection.config.metric,
            v.collection.points,
            q,
            ids,
            Some(&filter),
        );
        assert(some =~= admitted_pool(kernel, v, q, filter));
    }
}

/// What the graph's results leave under a filter: the unchanged ones that it admits, all
/// of them, in their order.
proof fn lemma_filtered_part(
    points: Map<Seq<char>, PointView>,
    dirty: Set<Seq<char>>,
    filter: Filter,
    place: Seq<char>,
    hits: Seq<Ranked>,
)
    requires
        graph_part(points, dirty, Some(&filter), place, hits) is Ok,
        descending(hits),
    ensures
        ({
            let part = graph_part(points, dirty, Some(&filter), place, hits)->Ok_0;
            &&& descending(ranks(part))
            &&& forall|x: int|
                0 <= x < part.len() ==> {
                    &&& hits.contains(#[trigger] ranks(part)[x])
                    &&& !dirty.contains(part[x].id)
                    &&& points.contains_key(part[x].id)
                    &&& filter.holds(points[part[x].id].metadata)
                }
            &&& forall|i: int|
                0 <= i < hits.len() && !dirty.contains((#[trigger] hits[i]).id) && filter.holds(
                    points[hits[i].id].metadata,
                ) ==> ranks(part).contains(hits[i])
        }),
    decreases hits.len(),
{
    let part = graph_part(points, dirty, Some(&filter), place, hits)->Ok_0;
    if hits.len() > 0 {
        let rest = hits.drop_last();
        assert forall|i: int, j: int| 0 <= i < j < rest.len() implies better(
            #[trigger] rest[i],
            #[trigger] rest[j],
        ) by {
            assert(better(hits[i], hits[j]));
        }
        lemma_filtered_part(points, dirty, filter, place, rest);
        let done = graph_part(points, dirty, Some(&filter), place, rest)->Ok_0;
        let end = hits[hits.len() - 1];
        assert forall|x: int| 0 <= x < part.len() implies {
            &&& hits.contains(#[trigger] ranks(part)[x])
            &&& !dirty.contains(part[x].id)
            &&& points.contains_key(part[x].id)
            &&& filter.holds(points[part[x].id].metadata)
        } by {
            if x < done.len() {
                assert(ranks(part)[x] == ranks(done)[x]);
                let i = choose|i: int| 0 <= i < rest.len() && rest[i] == ranks(done)[x];
                assert(hits[i] == ranks(part)[x]);
            } else {
                assert(ranks(part)[x] == end);
            }
        }
        assert forall|i: int, j: int| 0 <= i < j < part.len() implies better(
            #[trigger] ranks(part)[i],
            #[trigger] ranks(part)[j],
        ) by {
            assert(ranks(part)[i] == ranks(done)[i]);
            if j < done.len() {
                assert(ranks(part)[j] == ranks(done)[j]);
            } else {
                let x = choose|x: int| 0 <= x < rest.len() && rest[x] == ranks(done)[i];
                assert(better(hits[x], end));
            }
        }
        assert forall|i: int|
            0 <= i < hits.len() && !dirty.contains((#[trigger] hits[i]).id) && filter.holds(
                points[hits[i].id].metadata,
            ) implies ranks(part).contains(hits[i]) by {
            if i < rest.len() {
                assert(rest[i] == hits[i]);
                let x = choose|x: int| 0 <= x < ranks(done).len() && ranks(done)[x] == rest[i];
                assert(ranks(part)[x] == hits[i]);
            } else {
                assert(ranks(part)[part.len() - 1] == hits[i]);
            }
        }
    }
}

/// The unchanged points that a filter admits, each with its score.
spec fn unchanged_pool<K: Kernel>(
    kernel: K,
    v: PersistedView,
    q: Seq<u32>,
    filter: Filter,
) -> Set<Ranked> {
    pool(
        kernel,
        v.collection.config.metric,
        v.collection.points,
        q,
        admitted_unchanged(v, filter),
        Some(&filter),
    )
}

/// What a faithful graph gives of the points that a filter admits has the scores of the
/// points; where the graph is complete and the search as broad as it, and there is enough
/// of it, it holds the `k` best.
proof fn lemma_widened<K: Kernel>(
    kernel: K,
    v: PersistedView,
    graph: GraphView,
    query: Seq<u32>,
    k: usize,
    filter: Filter,
    ef_search: usize,
    width: usize,
    q: Seq<u32>,
)
    requires
        in_step(v),
        v.graph == Some(graph),
        valid(graph),
        graph.nodes.len() <= usize::MAX,
        faithful(v, graph),
        width <= graph.nodes.len(),
        accepted_query(kernel, v.collection.config, query, k) == Ok::<
            Seq<u32>,
            crate::error::ErrorView,
        >(q),
        widened(kernel, v, graph, query, k, filter, ef_search, width) is Ok,
    ensures
        ({
            let given = widened(kernel, v, graph, query, k, filter, ef_search, width)->Ok_0;
            &&& forall|x: int|
                0 <= x < given.len() ==> unchanged_pool(kernel, v, q, filter).contains(
                    #[trigger] ranks(given)[x],
                )
            &&& complete(graph) && ef_search >= graph.nodes.len() && given.len() >= k ==> best_of(
                crate::hnsw::model::at_most(ranks(given), k),
                unchanged_pool(kernel, v, q, filter),
                k as nat,
            )
        }),
    decreases graph.nodes.len() - width,
{
    if width > 0 {
        let ef = larger(ef_search, width);
        assert(graph_query(kernel, graph, query, width, ef)->Ok_0 == q);
        let near = graph_hits(kernel, graph, q, width, ef);
        let points = v.collection.points;
        let whole = unchanged_pool(kernel, v, q, filter);
        law_graph_results_are_ranked(kernel, graph, q, width, ef);
        law_graph_results_show_their_scores(kernel, graph, q, width, ef);
        lemma_filtered_part(points, v.dirty, filter, shard_place(), near);
        let hits = graph_part(points, v.dirty, Some(&filter), shard_place(), near)->Ok_0;
        assert forall|x: int| 0 <= x < hits.len() implies whole.contains(
            #[trigger] ranks(hits)[x],
        ) by {
            let i = choose|i: int| 0 <= i < near.len() && near[i] == ranks(hits)[x];
            let n = choose|n: int|
                {
                    &&& 0 <= n < graph.nodes.len()
                    &&& (#[trigger] graph.nodes[n]).id == near[i].id
                    &&& near[i].score == crate::metric::scored(
                        kernel,
                        graph.metric,
                        q,
                        graph.nodes[n].vector,
                    )
                };
            assert(!v.dirty.contains(hits[x].id));
            assert(graph.nodes[n].id == hits[x].id);
        }
        if hits.len() >= k || width >= graph.nodes.len() {
            if complete(graph) && ef_search >= graph.nodes.len() && hits.len() >= k {
                law_complete_graph_is_searched_exactly(kernel, graph, q, width, ef);
                law_complete_graph_gives_the_best_scores(kernel, graph, q, width, ef);
                lemma_first_are_best(kernel, v, graph, q, k, filter, width, near, hits);
            }
        } else {
            lemma_widened(
                kernel,
                v,
                graph,
                query,
                k,
                filter,
                ef_search,
                doubled(width, graph.nodes.len()),
                q,
            );
        }
    }
}

proof fn lemma_first_are_best<K: Kernel>(
    kernel: K,
    v: PersistedView,
    graph: GraphView,
    q: Seq<u32>,
    k: usize,
    filter: Filter,
    width: usize,
    near: Seq<Ranked>,
    hits: Seq<HitView>,
)
    requires
        0 < k <= hits.len(),
        in_step(v),
        v.graph == Some(graph),
        faithful(v, graph),
        near.len() == width,
        best_of(near, all_ranks(kernel, graph, q), width as nat),
        descending(ranks(hits)),
        forall|x: int|
            0 <= x < hits.len() ==> unchanged_pool(kernel, v, q, filter).contains(
                #[trigger] ranks(hits)[x],
            ) && near.contains(ranks(hits)[x]),
        forall|i: int|
            0 <= i < near.len() && !v.dirty.contains((#[trigger] near[i]).id) && filter.holds(
                v.collection.points[near[i].id].metadata,
            ) ==> ranks(hits).contains(near[i]),
    ensures
        best_of(
            crate::hnsw::model::at_most(ranks(hits), k),
            unchanged_pool(kernel, v, q, filter),
            k as nat,
        ),
{
    let front = ranks(hits);
    let part = crate::hnsw::model::at_most(front, k);
    let whole = unchanged_pool(kernel, v, q, filter);
    assert forall|x: int| 0 <= x < part.len() implies whole.contains(#[trigger] part[x]) by {
        assert(part[x] == front[x]);
    }
    assert forall|i: int, j: int| 0 <= i < j < part.len() implies better(
        #[trigger] part[i],
        #[trigger] part[j],
    ) by {
        assert(part[i] == front[i] && part[j] == front[j]);
    }
    assert forall|r: Ranked| #[trigger] whole.contains(r) implies part.contains(r) || (part.len()
        == k && k > 0 && better(part[k - 1], r)) by {
        assert(graph_ids(graph).contains(r.id));
        let n = choose|n: int| 0 <= n < graph.nodes.len() && (#[trigger] graph.nodes[n]).id == r.id;
        assert(node_rank(kernel, graph, q, n) == r);
        assert(all_ranks(kernel, graph, q).contains(r));
        if near.contains(r) {
            let i = choose|i: int| 0 <= i < near.len() && near[i] == r;
            assert(front.contains(near[i]));
            let x = choose|x: int| 0 <= x < front.len() && front[x] == r;
            if x < part.len() {
                assert(part[x] == r);
            } else {
                assert(part[k - 1] == front[k - 1]);
                assert(better(front[k - 1], front[x]));
            }
        } else {
            assert(better(near[width - 1], r));
            assert(part[k - 1] == front[k - 1]);
            assert(near.contains(ranks(hits)[k - 1]));
            let y = choose|y: int| 0 <= y < near.len() && near[y] == front[k - 1];
            if y < width - 1 {
                assert(better(near[y], near[width - 1]));
                lemma_better_transitive(near[y], near[width - 1], r);
            }
        }
    }
}

/// What a search with a broad filter puts before the changed points, and what it makes of
/// both.
proof fn lemma_broad<K: Kernel>(
    kernel: K,
    v: PersistedView,
    graph: GraphView,
    query: Seq<u32>,
    k: usize,
    filter: Filter,
    ef_search: usize,
    result: Result<Vec<SearchHit>>,
    q: Seq<u32>,
) -> (front: Seq<HitView>)
    requires
        in_step(v),
        v.graph == Some(graph),
        v.catalog is Some,
        valid(graph),
        graph.nodes.len() <= usize::MAX,
        faithful(v, graph),
        accepted_query(kernel, v.collection.config, query, k) == Ok::<
            Seq<u32>,
            crate::error::ErrorView,
        >(q),
        broad_result(
            kernel,
            v,
            graph,
            unchanged_candidates(v, v.catalog->0, filter),
            query,
            k,
            filter,
            ef_search,
            result,
        ),
        result is Ok,
    ensures
        forall|x: int|
            0 <= x < front.len() ==> unchanged_pool(kernel, v, q, filter).contains(
                #[trigger] ranks(front)[x],
            ),
        best_of(
            ranks(views(result->Ok_0@)),
            ranks(front).to_set().union(
                pool(
                    kernel,
                    v.collection.config.metric,
                    v.collection.points,
                    q,
                    v.dirty,
                    Some(&filter),
                ),
            ),
            k as nat,
        ),
        complete(graph) && ef_search >= graph.nodes.len() ==> exists|part: Seq<Ranked>|
            {
                &&& #[trigger] best_of(part, unchanged_pool(kernel, v, q, filter), k as nat)
                &&& forall|x: int|
                    0 <= x < part.len() ==> ranks(front).contains(#[trigger] part[x])
            },
{
    let points = v.collection.points;
    let metric = v.collection.config.metric;
    let candidates = unchanged_candidates(v, v.catalog->0, filter);
    let merged = result->Ok_0@;
    let width = first_width(k, ef_search, v.dirty.len(), graph.nodes.len());
    let given = widened(kernel, v, graph, query, k, filter, ef_search, width)->Ok_0;
    lemma_unchanged_candidates(v, filter);
    lemma_widened(kernel, v, graph, query, k, filter, ef_search, width, q);
    let front = choose|front: Seq<HitView>| #[trigger]
        topped_up(kernel, v, candidates, q, k, filter, given, front) && completed(
            kernel,
            v,
            q,
            k,
            Some(&filter),
            front,
            merged,
        );
    let whole = unchanged_pool(kernel, v, q, filter);
    if given.len() < k {
        let more = choose|more: Seq<HitView>| #[trigger]
            found(
                kernel,
                metric,
                points,
                q,
                candidates,
                Some(&filter),
                k as nat,
                more,
            ) && front == given + more;
        assert forall|x: int| 0 <= x < front.len() implies whole.contains(
            #[trigger] ranks(front)[x],
        ) by {
            if x < given.len() {
                assert(ranks(front)[x] == ranks(given)[x]);
            } else {
                assert(ranks(front)[x] == ranks(more)[x - given.len()]);
            }
        }
        assert forall|x: int| 0 <= x < ranks(more).len() implies ranks(front).contains(
            #[trigger] ranks(more)[x],
        ) by {
            assert(ranks(front)[given.len() + x] == ranks(more)[x]);
        }
        assert(best_of(ranks(more), whole, k as nat));
    } else {
        let part = crate::hnsw::model::at_most(ranks(given), k);
        assert forall|x: int| 0 <= x < part.len() implies ranks(front).contains(
            #[trigger] part[x],
        ) by {
            assert(part[x] == ranks(front)[x]);
        }
        if complete(graph) && ef_search >= graph.nodes.len() {
            assert(best_of(part, whole, k as nat));
        }
    }
    lemma_put_together(kernel, v, q, k, filter, front, merged);
    front
}

proof fn lemma_put_together<K: Kernel>(
    kernel: K,
    v: PersistedView,
    q: Seq<u32>,
    k: usize,
    filter: Filter,
    front: Seq<HitView>,
    merged: Seq<SearchHit>,
)
    requires
        k > 0,
        completed(kernel, v, q, k, Some(&filter), front, merged),
        forall|x: int|
            0 <= x < front.len() ==> unchanged_pool(kernel, v, q, filter).contains(
                #[trigger] ranks(front)[x],
            ),
    ensures
        best_of(
            ranks(views(merged)),
            ranks(front).to_set().union(
                pool(
                    kernel,
                    v.collection.config.metric,
                    v.collection.points,
                    q,
                    v.dirty,
                    Some(&filter),
                ),
            ),
            k as nat,
        ),
{
    let points = v.collection.points;
    let metric = v.collection.config.metric;
    let changed = pool(kernel, metric, points, q, v.dirty, Some(&filter));
    let whole = ranks(front).to_set().union(changed);
    let (hits, back) = choose|hits: Seq<SearchHit>, back: Seq<HitView>| #[trigger]
        put_together(kernel, v, q, k, Some(&filter), front, hits, back, merged);
    let shown = views(hits);
    let tail = ranks(back);
    assert(shown == front + back && shown.len() == hits.len());
    let all = admitted_pool(kernel, v, q, filter);
    assert forall|i: int| 0 <= i < hits.len() implies all.contains(
        (#[trigger] hits[i])@.rank(),
    ) && whole.contains(hits[i]@.rank()) by {
        assert(shown[i] == hits[i]@);
        if i < front.len() {
            assert(ranks(front)[i] == hits[i]@.rank());
            assert(ranks(front).contains(hits[i]@.rank()));
        } else {
            assert(tail[i - front.len()] == hits[i]@.rank());
        }
    }
    assert(one_rank_each(hits));
    law_merge_keeps_the_best(hits, k, merged);
    let gathered = rank_set(hits);
    let out = ranks(views(merged));
    assert forall|x: int| 0 <= x < out.len() implies whole.contains(#[trigger] out[x]) by {
        assert(gathered.contains(out[x]));
    }
    assert forall|r: Ranked| #[trigger] whole.contains(r) implies out.contains(r) || (out.len() == k
        && k > 0 && better(out[k - 1], r)) by {
        if ranks(front).to_set().contains(r) {
            let i = choose|i: int| 0 <= i < ranks(front).len() && ranks(front)[i] == r;
            assert(shown[i] == front[i]);
            assert(hits[i]@.rank() == r);
            assert(gathered.contains(r));
        } else {
            assert forall|x: int| 0 <= x < tail.len() implies gathered.contains(
                #[trigger] tail[x],
            ) by {
                assert(shown[front.len() + x] == back[x]);
                assert(hits[front.len() + x]@.rank() == tail[x]);
            }
            lemma_part_stands_for_pool(out, gathered, tail, changed, k as nat, r);
        }
    }
}

/// Whichever way a search with a filter takes, its results carry the scores of their
/// points, the best first, and no point that has changed since the graph was built is
/// overlooked: where the filter admits it, it is among the results, or there are `k`
/// better ones.
pub proof fn law_filtered_search_overlooks_no_change<K: Kernel>(
    kernel: K,
    v: PersistedView,
    query: Seq<u32>,
    k: usize,
    filter: Filter,
    ef_search: usize,
    result: Result<Vec<SearchHit>>,
)
    requires
        in_step(v),
        v.graph matches Some(graph) ==> valid(graph) && graph.nodes.len() <= usize::MAX && faithful(
            v,
            graph,
        ),
        shard_result(kernel, v, query, k, Some(&filter), ef_search, result),
        result is Ok,
    ensures
        ({
            let q = accepted_query(kernel, v.collection.config, query, k)->Ok_0;
            let all = admitted_pool(kernel, v, q, filter);
            let out = ranks(views(result->Ok_0@));
            &&& descending(out)
            &&& forall|x: int| 0 <= x < out.len() ==> all.contains(#[trigger] out[x])
            &&& forall|r: Ranked| #[trigger]
                all.contains(r) && v.dirty.contains(r.id) ==> out.contains(r) || (out.len() == k
                    && better(out[k - 1], r))
        }),
{
    let q = accepted_query(kernel, v.collection.config, query, k)->Ok_0;
    let all = admitted_pool(kernel, v, q, filter);
    let out = ranks(views(result->Ok_0@));
    let broad = v.graph is Some && v.catalog is Some && !is_narrow(
        unchanged_candidates(v, v.catalog->0, filter).len(),
        k,
        v.graph->0.nodes.len(),
    );
    if v.catalog is Some {
        lemma_unchanged_candidates(v, filter);
    }
    if broad {
        let front = lemma_broad(
            kernel,
            v,
            v.graph->0,
            query,
            k,
            filter,
            ef_search,
            result,
            q,
        );
        let changed = pool(
            kernel,
            v.collection.config.metric,
            v.collection.points,
            q,
            v.dirty,
            Some(&filter),
        );
        let gathered = ranks(front).to_set().union(changed);
        assert forall|x: int| 0 <= x < out.len() implies all.contains(#[trigger] out[x]) by {
            assert(gathered.contains(out[x]));
            if ranks(front).contains(out[x]) {
                let y = choose|y: int| 0 <= y < ranks(front).len() && ranks(front)[y] == out[x];
                assert(unchanged_pool(kernel, v, q, filter).contains(ranks(front)[y]));
            }
        }
        assert forall|r: Ranked| #[trigger]
            all.contains(r) && v.dirty.contains(r.id) implies out.contains(r) || (out.len() == k
            && better(out[k - 1], r)) by {
            assert(changed.contains(r));
            assert(gathered.contains(r));
        }
    } else {
        law_narrow_filters_are_searched_exactly(
            kernel,
            v,
            query,
            k,
            filter,
            ef_search,
            result,
        );
    }
}

/// Over a complete graph with the vectors of the unchanged points, a search with a filter
/// that is as broad as the graph is exact, whichever way it takes: its results are the `k`
/// best of all points that the filter admits.
pub proof fn law_filtered_shard_search_is_exact<K: Kernel>(
    kernel: K,
    v: PersistedView,
    query: Seq<u32>,
    k: usize,
    filter: Filter,
    ef_search: usize,
    result: Result<Vec<SearchHit>>,
)
    requires
        in_step(v),
        v.graph matches Some(graph) ==> {
            &&& valid(graph)
            &&& graph.nodes.len() <= usize::MAX
            &&& faithful(v, graph)
            &&& complete(graph)
            &&& ef_search >= graph.nodes.len()
        },
        shard_result(kernel, v, query, k, Some(&filter), ef_search, result),
        result is Ok,
    ensures
        ({
            let q = accepted_query(kernel, v.collection.config, query, k)->Ok_0;
            best_of(ranks(views(result->Ok_0@)), admitted_pool(kernel, v, q, filter), k as nat)
        }),
{
    let q = accepted_query(kernel, v.collection.config, query, k)->Ok_0;
    let all = admitted_pool(kernel, v, q, filter);
    let out = ranks(views(result->Ok_0@));
    law_filtered_search_overlooks_no_change(kernel, v, query, k, filter, ef_search, result);
    if v.catalog is Some {
        lemma_unchanged_candidates(v, filter);
    }
    let broad = v.graph is Some && v.catalog is Some && !is_narrow(
        unchanged_candidates(v, v.catalog->0, filter).len(),
        k,
        v.graph->0.nodes.len(),
    );
    if broad {
        let front = lemma_broad(
            kernel,
            v,
            v.graph->0,
            query,
            k,
            filter,
            ef_search,
            result,
            q,
        );
        let changed = pool(
            kernel,
            v.collection.config.metric,
            v.collection.points,
            q,
            v.dirty,
            Some(&filter),
        );
        let gathered = ranks(front).to_set().union(changed);
        let whole = unchanged_pool(kernel, v, q, filter);
        let part = choose|part: Seq<Ranked>|
            {
                &&& #[trigger] best_of(part, whole, k as nat)
                &&& forall|x: int|
                    0 <= x < part.len() ==> ranks(front).contains(#[trigger] part[x])
            };
        assert forall|x: int| 0 <= x < part.len() implies gathered.contains(#[trigger] part[x]) by {
            assert(ranks(front).contains(part[x]));
        }
        assert forall|r: Ranked| #[trigger] all.contains(r) implies out.contains(r) || (out.len()
            == k && k > 0 && better(out[k - 1], r)) by {
            if !v.dirty.contains(r.id) {
                assert(whole.contains(r));
                lemma_part_stands_for_pool(out, gathered, part, whole, k as nat, r);
            }
        }
    } else {
        law_narrow_filters_are_searched_exactly(
            kernel,
            v,
            query,
            k,
            filter,
            ef_search,
            result,
        );
    }
}

/// The graph that a shard builds anew has the vectors of the points that it holds.
pub proof fn law_reindexed_graphs_are_faithful<K: Kernel>(
    kernel: K,
    shard: ShardView,
    list: Seq<PointView>,
)
    requires
        lawful(kernel),
        list.len() <= usize::MAX,
        listing(shard.data.collection.points, list),
        steady(kernel, shard.data.collection),
        indexed(kernel, shard.data.collection.config, list) is Ok,
    ensures
        ({
            let (graph, catalog) = indexed(kernel, shard.data.collection.config, list)->Ok_0;
            faithful(reindexed(shard, graph, catalog).data, graph)
        }),
{
    let (graph, catalog) = indexed(kernel, shard.data.collection.config, list)->Ok_0;
    lemma_built_is_faithful(
        kernel,
        reindexed(shard, graph, catalog).data,
        shard_graph_config(),
        list,
        graph,
    );
}

/// What a shard applies leaves its graph faithful: the points whose vectors the graph does
/// not have count as changed.
pub proof fn law_records_leave_the_graph_faithful<K: Kernel>(
    kernel: K,
    shard: ShardView,
    graph: GraphView,
    record: AppliedView,
)
    requires
        in_step(shard.data),
        shard.data.graph == Some(graph),
        faithful(shard.data, graph),
    ensures
        after_record(kernel, shard, record).0.data.graph == Some(graph),
        faithful(after_record(kernel, shard, record).0.data, graph),
{
    if let AppliedPayloadView::Command { command, response } = record.payload {
        if let ResponseView::Applied { sequence } = response {
            let v = shard.data;
            let (data, fault) = carried_out(kernel, v, command, sequence);
            match command {
                CommandView::Upsert { points, .. } => {
                    if let Ok(batch) = prepared_batch(kernel, v.collection.config, points, sequence) {
                        lemma_prepared_ids(kernel, v.collection.config, points, sequence);
                        lemma_written_beside(v.collection.points, batch);
                    }
                    lemma_stays_faithful(v, data, graph);
                },
                CommandView::Delete { ids, .. } => {
                    lemma_deleted_beside(v.collection.points, ids);
                    lemma_stays_faithful(v, data, graph);
                },
            }
        }
    }
}

/// A search changes nothing of what a shard holds; it builds a new graph where one is due,
/// and is then answered from it. A breadth below what is asked for is refused.
pub proof fn law_searches_change_no_point<K: Kernel>(
    kernel: K,
    before: ShardView,
    after: ShardView,
    query: Seq<u32>,
    k: usize,
    filter: Option<&Filter>,
    ef_search: usize,
    result: Result<Vec<SearchHit>>,
)
    requires
        lawful(kernel),
        in_step(before.data),
        before.data.collection.points.dom().finite(),
        before.data.collection.points.len() <= usize::MAX,
        shard_search(kernel, before, after, query, k, filter, ef_search, result),
    ensures
        after.data.collection == before.data.collection,
        after.last_applied == before.last_applied,
        after.membership == before.membership,
        after.settled == before.settled,
        after.snapshot == before.snapshot,
        in_step(after.data),
        ef_search < k ==> result is Err,
        result is Ok ==> shard_result(kernel, after.data, query, k, filter, ef_search, result),
        result is Ok && before.data.dirty.len() >= 256 && before.data.graph is None
            ==> after.data.graph is Some && after.data.dirty == Set::<Seq<char>>::empty(),
{
    if ef_search >= k {
        let outcome = choose|outcome: Result<()>| #[trigger]
            refreshed(kernel, before, after, outcome) && match outcome {
                Err(error) => result is Err && result->Err_0@ == error@,
                Ok(_) => shard_result(kernel, after.data, query, k, filter, ef_search, result),
            };
        let data = before.data;
        if reindex_due(data.graph is Some, data.dirty.len(), data.collection.points.len()) {
            let list = choose|list: Seq<PointView>| #[trigger]
                listing(data.collection.points, list) && match indexed(
                    kernel,
                    data.collection.config,
                    list,
                ) {
                    Ok((graph, catalog)) => outcome is Ok && after == reindexed(
                        before,
                        graph,
                        catalog,
                    ),
                    Err(error) => after == before && outcome is Err && outcome->Err_0@ == error,
                };
            if indexed(kernel, data.collection.config, list) is Ok {
                lemma_listing_length(data.collection.points, list);
                law_reindexed_is_in_step(kernel, before, list);
            }
        }
    }
}

/// A listing is no longer than there are points.
proof fn lemma_listing_length(points: Map<Seq<char>, PointView>, list: Seq<PointView>)
    requires
        listing(points, list),
        points.dom().finite(),
    ensures
        list.len() <= points.len(),
{
    let ids = Seq::new(list.len(), |i: int| list[i].id);
    assert(ids.no_duplicates()) by {
        assert forall|i: int, j: int|
            0 <= i < ids.len() && 0 <= j < ids.len() && i != j implies ids[i] != ids[j] by {
            if i < j {
                assert(text_less(list[i].id, list[j].id));
            } else {
                assert(text_less(list[j].id, list[i].id));
            }
            lemma_text_irreflexive(list[i].id);
        }
    }
    ids.unique_seq_to_set();
    assert(ids.to_set().subset_of(points.dom())) by {
        assert forall|id: Seq<char>| ids.to_set().contains(id) implies points.dom().contains(id) by {
            let i = choose|i: int| 0 <= i < ids.len() && ids[i] == id;
            assert(points.contains_key(list[i].id));
        }
    }
    vstd::set_lib::lemma_len_subset(ids.to_set(), points.dom());
}

} // verus!
