//! Why searches through a segment see what the collection holds.
use crate::collection::{
    acceptable, accepted_query, describe, erased, law_deletions_erase,
    law_prepared_batches_are_written, lemma_prepared_each, wrote, law_deleted_points_are_gone, law_listing_is_unique,
    law_other_points_are_untouched, pool, prepared_batch, prepared_point, prepared_points, ranks, restored, views, with_points,
    without_points, CollectionConfig, CollectionView, HitView, PointView, SearchHit, UpsertView,
};
use crate::error::{ErrorView, Result};
use crate::filter::Filter;
use crate::hits::{distinct_ids, law_merge_keeps_the_best, rank_set};
use crate::hnsw::laws::law_graph_results_are_ranked;
use crate::hnsw::model::{valid, GraphView};
use crate::hnsw::{graph_hits, graph_ids, graph_query};
use crate::metadata_index::{catalog_of, matching};
use crate::metric::Kernel;
use crate::persistence::flush::{
    flushed, publication, published, snapshot_of, PreparedView, PublicationView, SnapshotView,
};
use crate::persistence::segment::{
    encoded_manifest, matched, parse_segment, point_ids, segment_name, Manifest,
};
use crate::persistence::wal::{ids_of, recovered, replayed};
use crate::persistence::{
    approximate_result, delete_commit, filter_candidates, graph_part, graph_results, graph_share,
    in_step, larger, opened, put_together, started, upsert_commit, written_ids, PersistedView,
    StoredSegment,
};
use crate::ranking::{better, best_of, lemma_better_total, lemma_part_stands_for_pool, Ranked};
use crate::text::{lemma_text_irreflexive, text_less};
use vstd::prelude::*;

verus! {

/// The points outside of a set of IDs are the same.
pub open spec fn same_beside(
    a: Map<Seq<char>, PointView>,
    b: Map<Seq<char>, PointView>,
    ids: Set<Seq<char>>,
) -> bool {
    forall|id: Seq<char>|
        !ids.contains(id) ==> {
            &&& #[trigger] a.contains_key(id) == b.contains_key(id)
            &&& a.contains_key(id) ==> a[id] == b[id]
        }
}

/// Prepared points keep the IDs of the points that they come from.
pub(crate) proof fn lemma_prepared_ids<K: Kernel>(
    kernel: K,
    config: CollectionConfig,
    points: Seq<UpsertView>,
    sequence: u64,
)
    requires
        prepared_points(kernel, config, points, sequence) is Ok,
    ensures
        written_ids(prepared_points(kernel, config, points, sequence)->Ok_0) == ids_of(points),
    decreases points.len(),
{
    let done = prepared_points(kernel, config, points, sequence)->Ok_0;
    if points.len() == 0 {
        assert(written_ids(done) =~= ids_of(points));
    } else {
        let rest = points.drop_last();
        lemma_prepared_ids(kernel, config, rest, sequence);
        let earlier = prepared_points(kernel, config, rest, sequence)->Ok_0;
        let last = prepared_point(kernel, config, points.last(), sequence)->Ok_0;
        assert(written_ids(done) =~= written_ids(earlier).push(last.id));
        assert(ids_of(points) =~= ids_of(rest).push(points.last().id));
    }
}

/// A batch changes only the points that it writes.
pub(crate) proof fn lemma_written_beside(points: Map<Seq<char>, PointView>, batch: Seq<PointView>)
    ensures
        same_beside(with_points(points, batch), points, written_ids(batch).to_set()),
{
    let ids = written_ids(batch).to_set();
    let after = with_points(points, batch);
    assert forall|id: Seq<char>| !ids.contains(id) implies {
        &&& #[trigger] after.contains_key(id) == points.contains_key(id)
        &&& after.contains_key(id) ==> after[id] == points[id]
    } by {
        assert forall|j: int| 0 <= j < batch.len() implies (#[trigger] batch[j]).id != id by {
            assert(written_ids(batch)[j] == batch[j].id);
        }
        law_other_points_are_untouched(points, batch, id);
    }
}

/// A deletion changes only the points that it names.
pub(crate) proof fn lemma_deleted_beside(points: Map<Seq<char>, PointView>, ids: Seq<Seq<char>>)
    ensures
        same_beside(without_points(points, ids), points, ids.to_set()),
{
    let after = without_points(points, ids);
    assert forall|id: Seq<char>| !ids.to_set().contains(id) implies {
        &&& #[trigger] after.contains_key(id) == points.contains_key(id)
        &&& after.contains_key(id) ==> after[id] == points[id]
    } by {
        law_deleted_points_are_gone(points, ids, id);
    }
}

/// A record changes only the points that it is said to have changed.
proof fn lemma_replayed_beside<K: Kernel>(kernel: K, c: CollectionView, payload: Seq<u8>)
    requires
        replayed(kernel, c, payload) is Ok,
    ensures
        ({
            let replay = replayed(kernel, c, payload)->Ok_0;
            same_beside(replay.collection.points, c.points, replay.changed.to_set())
        }),
{
    let replay = replayed(kernel, c, payload)->Ok_0;
    let (operation, after_operation) = crate::bytes::number(
        crate::bytes::Format::Record,
        payload,
        0,
        1,
    )->Ok_0;
    let (sequence, next) = crate::bytes::number(
        crate::bytes::Format::Record,
        payload,
        after_operation,
        8,
    )->Ok_0;
    if sequence <= c.sequence {
    } else if operation == 1 {
        let (count, start) = crate::persistence::record::parse_count(payload, next)->Ok_0;
        let (points, end) = crate::bytes::repeated(
            crate::persistence::wal::point_step(payload, c.config.dimension),
            start,
            count,
        )->Ok_0;
        let batch = prepared_batch(kernel, c.config, points, sequence as u64)->Ok_0;
        lemma_prepared_ids(kernel, c.config, points, sequence as u64);
        lemma_written_beside(c.points, batch);
    } else {
        lemma_deleted_beside(c.points, replay.changed);
    }
}

/// A log changes only the points that it marks as changed.
proof fn lemma_recovered_beside<K: Kernel>(
    kernel: K,
    c: CollectionView,
    dirty: Set<Seq<char>>,
    log: Seq<u8>,
    at: int,
)
    requires
        recovered(kernel, c, dirty, log, at) is Ok,
    ensures
        ({
            let recovery = recovered(kernel, c, dirty, log, at)->Ok_0;
            &&& dirty.subset_of(recovery.dirty)
            &&& same_beside(recovery.collection.points, c.points, recovery.dirty)
        }),
    decreases log.len() - at,
{
    let recovery = recovered(kernel, c, dirty, log, at)->Ok_0;
    let rest = log.len() - at;
    if at >= 0 && rest >= 8 {
        let length = crate::bytes::le_value(log.subrange(at + 4, at + 8)) as int;
        if rest >= 12 + length {
            let payload = log.subrange(at + 8, at + 8 + length);
            let replay = replayed(kernel, c, payload)->Ok_0;
            let marked = dirty.union(replay.changed.to_set());
            lemma_replayed_beside(kernel, c, payload);
            lemma_recovered_beside(
                kernel,
                replay.collection,
                marked,
                log,
                at + 12 + length,
            );
            assert(dirty.subset_of(marked));
            assert(replay.changed.to_set().subset_of(marked));
            assert forall|id: Seq<char>| !recovery.dirty.contains(id) implies {
                &&& #[trigger] recovery.collection.points.contains_key(id)
                    == c.points.contains_key(id)
                &&& recovery.collection.points.contains_key(id)
                    ==> recovery.collection.points[id] == c.points[id]
            } by {
                assert(!marked.contains(id));
                assert(!replay.changed.to_set().contains(id));
                assert(replay.collection.points.contains_key(id) == c.points.contains_key(id));
            }
        }
    }
}

/// The points of a segment and its metadata, by ID.
pub(crate) proof fn lemma_catalog(points: Seq<PointView>, count: int)
    requires
        0 <= count <= points.len(),
        forall|i: int, j: int|
            0 <= i < j < points.len() ==> (#[trigger] points[i]).id != (#[trigger] points[j]).id,
    ensures
        ({
            let catalog = catalog_of(points, count);
            let stored = with_points(Map::empty(), points.subrange(0, count));
            forall|id: Seq<char>| #[trigger]
                catalog.contains_key(id) == stored.contains_key(id) && (catalog.contains_key(id)
                    ==> catalog[id] == stored[id].metadata) && (catalog.contains_key(id)
                    <==> exists|i: int| 0 <= i < count && (#[trigger] points[i]).id == id)
        }),
    decreases count,
{
    let catalog = catalog_of(points, count);
    let stored = with_points(Map::empty(), points.subrange(0, count));
    if count > 0 {
        lemma_catalog(points, count - 1);
        let earlier = catalog_of(points, count - 1);
        let head = points.subrange(0, count - 1);
        assert(points.subrange(0, count).drop_last() =~= head);
        let last = points[count - 1];
        assert forall|id: Seq<char>| #[trigger]
            catalog.contains_key(id) == stored.contains_key(id) && (catalog.contains_key(id)
                ==> catalog[id] == stored[id].metadata) && (catalog.contains_key(id)
                <==> exists|i: int| 0 <= i < count && (#[trigger] points[i]).id == id) by {
            assert(earlier.contains_key(id) <==> exists|i: int|
                0 <= i < count - 1 && (#[trigger] points[i]).id == id);
            if id == last.id {
                assert(points[count - 1].id == id);
            } else if earlier.contains_key(id) {
                let i = choose|i: int| 0 <= i < count - 1 && (#[trigger] points[i]).id == id;
                assert(0 <= i < count);
            }
        }
    }
}

/// A collection that was just opened is in step with its segment.
pub proof fn law_open_is_in_step<K: Kernel>(
    kernel: K,
    config: CollectionConfig,
    segment: Option<StoredSegment>,
    log: Seq<u8>,
)
    requires
        opened(kernel, config, segment, log) is Ok,
    ensures
        in_step(opened(kernel, config, segment, log)->Ok_0.0),
{
    let v = opened(kernel, config, segment, log)->Ok_0.0;
    let start = started(config, segment)->Ok_0;
    lemma_recovered_beside(kernel, start.collection, start.dirty, log, 0);
    match segment {
        None => {},
        Some(stored) => {
            let decoded = parse_segment(stored.bytes@)->Ok_0;
            reveal(crate::persistence::segment::parse_contents);
            let points = decoded.points;
            assert(restored(points, stored.sequence) is Ok);
            lemma_catalog(points, points.len() as int);
            assert(points.subrange(0, points.len() as int) =~= points);
            let catalog = v.catalog->0;
            let graph = v.graph->0;
            assert(matched(decoded) is Ok);
            assert(point_ids(points) == graph_ids(graph));
            assert forall|id: Seq<char>| !v.dirty.contains(id) implies {
                &&& #[trigger] catalog.contains_key(id) == v.collection.points.contains_key(id)
                &&& catalog.contains_key(id) ==> catalog[id] == v.collection.points[id].metadata
            } by {
                assert(start.collection.points.contains_key(id)
                    == v.collection.points.contains_key(id));
            }
            assert forall|id: Seq<char>| !v.dirty.contains(id) implies #[trigger] graph_ids(
                graph,
            ).contains(id) == v.collection.points.contains_key(id) by {
                assert(point_ids(points).contains(id) == catalog.contains_key(id));
            }
        },
    }
}

/// A batch leaves a collection in step with its segment.
pub proof fn law_upserts_stay_in_step<K: Kernel>(
    kernel: K,
    v: PersistedView,
    batch: Seq<UpsertView>,
)
    requires
        in_step(v),
        upsert_commit(kernel, v, batch) is Ok,
    ensures
        in_step(upsert_commit(kernel, v, batch)->Ok_0.after),
{
    let after = upsert_commit(kernel, v, batch)->Ok_0.after;
    let sequence = (v.collection.sequence + 1) as u64;
    let points = prepared_batch(kernel, v.collection.config, batch, sequence)->Ok_0;
    lemma_written_beside(v.collection.points, points);
    lemma_stays_in_step(v, after);
}

/// A deletion leaves a collection in step with its segment.
pub proof fn law_deletions_stay_in_step(v: PersistedView, ids: Seq<Seq<char>>)
    requires
        in_step(v),
        delete_commit(v, ids) is Ok,
    ensures
        in_step(delete_commit(v, ids)->Ok_0.after),
{
    let after = delete_commit(v, ids)->Ok_0.after;
    lemma_deleted_beside(v.collection.points, ids);
    lemma_stays_in_step(v, after);
}

pub(crate) proof fn lemma_stays_in_step(v: PersistedView, after: PersistedView)
    requires
        in_step(v),
        after.graph == v.graph,
        after.catalog == v.catalog,
        v.dirty.subset_of(after.dirty),
        same_beside(after.collection.points, v.collection.points, after.dirty),
    ensures
        in_step(after),
{
    if let Some(catalog) = after.catalog {
        assert forall|id: Seq<char>| !after.dirty.contains(id) implies {
            &&& #[trigger] catalog.contains_key(id) == after.collection.points.contains_key(id)
            &&& catalog.contains_key(id) ==> catalog[id] == after.collection.points[id].metadata
        } by {
            assert(!v.dirty.contains(id));
            assert(after.collection.points.contains_key(id)
                == v.collection.points.contains_key(id));
        }
    }
    if let Some(graph) = after.graph {
        assert forall|id: Seq<char>| !after.dirty.contains(id) implies #[trigger] graph_ids(
            graph,
        ).contains(id) == after.collection.points.contains_key(id) by {
            assert(!v.dirty.contains(id));
            assert(after.collection.points.contains_key(id)
                == v.collection.points.contains_key(id));
        }
    }
}

/// A filtered search of a collection in step is exact: looking only at the
/// candidates of the metadata index and at the changed points finds what looking
/// at every point finds.
pub proof fn law_filtered_search_is_exact<K: Kernel>(
    kernel: K,
    v: PersistedView,
    query: Seq<u32>,
    filter: &Filter,
)
    requires
        in_step(v),
    ensures
        pool(
            kernel,
            v.collection.config.metric,
            v.collection.points,
            query,
            filter_candidates(v, *filter),
            Some(filter),
        ) == pool(
            kernel,
            v.collection.config.metric,
            v.collection.points,
            query,
            v.collection.points.dom(),
            Some(filter),
        ),
{
    let points = v.collection.points;
    let metric = v.collection.config.metric;
    let some = pool(kernel, metric, points, query, filter_candidates(v, *filter), Some(filter));
    let all = pool(kernel, metric, points, query, points.dom(), Some(filter));
    assert forall|r: Ranked| some.contains(r) <==> all.contains(r) by {
        if all.contains(r) && !v.dirty.contains(r.id) {
            if let Some(catalog) = v.catalog {
                assert(catalog.contains_key(r.id) == points.contains_key(r.id));
                assert(matching(catalog, *filter).contains(r.id));
            }
        }
    }
    assert(some =~= all);
}

/// In a collection in step no result of its graph is without a point.
pub proof fn law_graph_results_have_points(
    v: PersistedView,
    graph: GraphView,
    filter: Option<&Filter>,
    place: Seq<char>,
    hits: Seq<Ranked>,
)
    requires
        in_step(v),
        v.graph == Some(graph),
        forall|i: int| 0 <= i < hits.len() ==> graph_ids(graph).contains((#[trigger] hits[i]).id),
    ensures
        graph_part(v.collection.points, v.dirty, filter, place, hits) is Ok,
    decreases hits.len(),
{
    if hits.len() > 0 {
        let rest = hits.drop_last();
        assert forall|i: int| 0 <= i < rest.len() implies graph_ids(graph).contains(
            (#[trigger] rest[i]).id,
        ) by {
            assert(graph_ids(graph).contains(hits[i].id));
        }
        law_graph_results_have_points(v, graph, filter, place, rest);
        assert(graph_ids(graph).contains(hits[hits.len() - 1].id));
    }
}

/// A collection whose segment of everything was published is in step with it,
/// with nothing left to replay.
pub proof fn law_flush_is_in_step(v: PersistedView, snapshot: SnapshotView, prepared: PreparedView)
    requires
        snapshot_of(v, snapshot),
        prepared.sequence == snapshot.sequence,
        prepared.catalog == catalog_of(snapshot.points, snapshot.points.len() as int),
        graph_ids(prepared.graph) == point_ids(snapshot.points),
    ensures
        in_step(published(v, prepared)),
        published(v, prepared).dirty == Set::<Seq<char>>::empty(),
{
    let after = published(v, prepared);
    let list = snapshot.points;
    assert forall|i: int, j: int| 0 <= i < j < list.len() implies (#[trigger] list[i]).id != (
    #[trigger] list[j]).id by {
        assert(text_less(list[i].id, list[j].id));
        lemma_text_irreflexive(list[i].id);
    }
    lemma_catalog(list, list.len() as int);
    assert(list.subrange(0, list.len() as int) =~= list);
    let catalog = prepared.catalog;
    let points = v.collection.points;
    assert forall|id: Seq<char>| !after.dirty.contains(id) implies {
        &&& #[trigger] catalog.contains_key(id) == points.contains_key(id)
        &&& catalog.contains_key(id) ==> catalog[id] == points[id].metadata
    } by {
        if points.contains_key(id) {
            let i = choose|i: int| 0 <= i < list.len() && (#[trigger] list[i]).id == id;
            assert(catalog.contains_key(id));
        }
        if catalog.contains_key(id) {
            let i = choose|i: int| 0 <= i < list.len() && (#[trigger] list[i]).id == id;
            assert(points.contains_key(list[i].id));
            lemma_listed(list, i);
        }
    }
    assert forall|id: Seq<char>| !after.dirty.contains(id) implies #[trigger] graph_ids(
        prepared.graph,
    ).contains(id) == points.contains_key(id) by {
        assert(point_ids(list).contains(id) == catalog.contains_key(id));
    }
}

/// A flush leaves nothing to do: it publishes everything up to the last commit, empties
/// the log and leaves the points as they are, with a graph of them and none of them
/// pending. A second flush with no commit between gives the same sequence: it makes the
/// same segment, retires none, and leaves the collection as the first did.
pub proof fn law_flush_is_idempotent<K: Kernel>(
    kernel: K,
    v: PersistedView,
    snapshot: SnapshotView,
    prepared: PreparedView,
    previous: Option<Manifest>,
    again: SnapshotView,
    manifest: Manifest,
)
    requires
        snapshot_of(v, snapshot),
        flushed(kernel, snapshot) == Ok::<PreparedView, ErrorView>(prepared),
        previous matches Some(older) ==> older.sequence <= v.collection.sequence,
        snapshot_of(published(v, prepared), again),
        manifest.sequence == prepared.sequence,
        manifest.segment@ == segment_name(prepared.sequence),
    ensures
        ({
            let after = published(v, prepared);
            let sequence = v.collection.sequence;
            &&& prepared.sequence == sequence
            &&& publication(sequence, prepared.sequence, previous) matches PublicationView::Write {
                empty_log,
                ..
            } && empty_log
            &&& after.collection == v.collection
            &&& after.dirty == Set::<Seq<char>>::empty()
            &&& after.graph is Some && after.catalog is Some
            &&& flushed(kernel, again) == Ok::<PreparedView, ErrorView>(prepared)
            &&& publication(sequence, prepared.sequence, Some(manifest))
                == (PublicationView::Write {
                segment: segment_name(sequence),
                manifest: encoded_manifest(sequence, segment_name(sequence))->Ok_0,
                empty_log: true,
                retire: None,
            })
            &&& published(after, prepared) == after
        }),
{
    law_listing_is_unique(v.collection.points, snapshot.points, again.points);
    assert(again == snapshot);
}

/// In a listing without repeated IDs every point stands under its ID.
pub(crate) proof fn lemma_listed(list: Seq<PointView>, i: int)
    requires
        0 <= i < list.len(),
        forall|a: int, b: int|
            0 <= a < b < list.len() ==> (#[trigger] list[a]).id != (#[trigger] list[b]).id,
    ensures
        with_points(Map::empty(), list)[list[i].id] == list[i],
{
    assert forall|j: int| i < j < list.len() implies (#[trigger] list[j]).id != list[i].id by {
        assert(list[i].id != list[j].id);
    }
    crate::collection::law_written_points_are_read_back(Map::empty(), list, i);
}

/// The IDs of results.
pub open spec fn shown_ids(hits: Seq<HitView>) -> Seq<Seq<char>> {
    Seq::new(hits.len(), |i: int| hits[i].id)
}

/// What the graph gives has no ID twice.
pub(crate) proof fn lemma_graph_part_distinct(
    points: Map<Seq<char>, PointView>,
    dirty: Set<Seq<char>>,
    filter: Option<&Filter>,
    place: Seq<char>,
    hits: Seq<Ranked>,
)
    requires
        graph_part(points, dirty, filter, place, hits) is Ok,
        forall|i: int, j: int|
            0 <= i < j < hits.len() ==> (#[trigger] hits[i]).id != (#[trigger] hits[j]).id,
    ensures
        forall|x: int|
            0 <= x < graph_part(points, dirty, filter, place, hits)->Ok_0.len() ==> {
                &&& !dirty.contains(
                    (#[trigger] graph_part(points, dirty, filter, place, hits)->Ok_0[x]).id,
                )
                &&& points.contains_key(graph_part(points, dirty, filter, place, hits)->Ok_0[x].id)
            },
        describe(graph_part(points, dirty, filter, place, hits)->Ok_0, points),
        shown_ids(
            graph_part(points, dirty, filter, place, hits)->Ok_0,
        ).no_duplicates(),
        forall|x: int|
            0 <= x < graph_part(points, dirty, filter, place, hits)->Ok_0.len()
                ==> exists|i: int|
                0 <= i < hits.len() && hits[i].id == (#[trigger] graph_part(
                    points,
                    dirty,
                    filter,
                    place,
                    hits,
                )->Ok_0[x]).id,
    decreases hits.len(),
{
    if hits.len() > 0 {
        let rest = hits.drop_last();
        assert forall|i: int, j: int| 0 <= i < j < rest.len() implies (#[trigger] rest[i]).id != (
        #[trigger] rest[j]).id by {
            assert(hits[i].id != hits[j].id);
        }
        lemma_graph_part_distinct(points, dirty, filter, place, rest);
        let done = graph_part(points, dirty, filter, place, rest)->Ok_0;
        let all = graph_part(points, dirty, filter, place, hits)->Ok_0;
        let last = hits.len() - 1;
        assert forall|x: int| 0 <= x < all.len() implies exists|i: int|
            0 <= i < hits.len() && hits[i].id == (#[trigger] all[x]).id by {
            if x < done.len() {
                assert(all[x] == done[x]);
                let i = choose|i: int| 0 <= i < rest.len() && rest[i].id == done[x].id;
                assert(hits[i].id == all[x].id);
            } else {
                assert(hits[last].id == all[x].id);
            }
        }
        let ids = shown_ids(all);
        assert forall|x: int, y: int| 0 <= x < ids.len() && 0 <= y < ids.len() && x != y implies ids[x]
            != ids[y] by {
            if x < done.len() && y < done.len() {
                assert(ids[x] == shown_ids(done)[x] && ids[y] == shown_ids(done)[y]);
            } else {
                let low = if x < y {
                    x
                } else {
                    y
                };
                assert(all[low] == done[low]);
                let i = choose|i: int| 0 <= i < rest.len() && rest[i].id == done[low].id;
                assert(hits[i].id != hits[last].id);
            }
        }
    }
}

/// An unfiltered search is exact in what has changed: its results are the `k` best
/// of what the graph gives of the unchanged points and of all changed points, each
/// with the metadata and the commit of its point.
pub proof fn law_changed_points_are_searched_exactly<K: Kernel>(
    kernel: K,
    v: PersistedView,
    graph: GraphView,
    place: Seq<char>,
    query: Seq<u32>,
    k: usize,
    ef_search: usize,
    result: Result<Vec<SearchHit>>,
)
    requires
        valid(graph),
        graph.nodes.len() <= usize::MAX,
        approximate_result(kernel, v, graph, place, query, k, ef_search, result),
        result is Ok,
    ensures
        ({
            let q = accepted_query(kernel, v.collection.config, query, k)->Ok_0;
            let front = graph_results(kernel, v, graph, place, query, k, ef_search)->Ok_0;
            let changed = pool(
                kernel,
                v.collection.config.metric,
                v.collection.points,
                q,
                v.dirty,
                None,
            );
            &&& best_of(
                ranks(views(result->Ok_0@)),
                ranks(front).to_set().union(changed),
                k as nat,
            )
            &&& describe(views(result->Ok_0@), v.collection.points)
        }),
{
    let points = v.collection.points;
    let metric = v.collection.config.metric;
    let merged = result->Ok_0@;
    let q = accepted_query(kernel, v.collection.config, query, k)->Ok_0;
    let front = graph_results(kernel, v, graph, place, query, k, ef_search)->Ok_0;
    let changed = pool(kernel, metric, points, q, v.dirty, None);
    let whole = ranks(front).to_set().union(changed);
    let share = graph_share(k, v.dirty.len(), graph.nodes.len());
    if share > 0 {
        let ef = larger(ef_search, share);
        let near = graph_hits(
            kernel,
            graph,
            graph_query(kernel, graph, query, share, ef)->Ok_0,
            share,
            ef,
        );
        law_graph_results_are_ranked(
            kernel,
            graph,
            graph_query(kernel, graph, query, share, ef)->Ok_0,
            share,
            ef,
        );
        lemma_graph_part_distinct(points, v.dirty, None, place, near);
    }
    let (hits, back) = choose|hits: Seq<SearchHit>, back: Seq<HitView>| #[trigger]
        put_together(kernel, v, q, k, None, front, hits, back, merged);
    let shown = views(hits);
    let tail = ranks(back);
    assert(shown == front + back && shown.len() == hits.len());
    assert(distinct_ids(hits)) by {
        assert forall|i: int, j: int| 0 <= i < j < hits.len() implies (#[trigger] hits[i]).id@ != (
        #[trigger] hits[j]).id@ by {
            assert(shown[i] == hits[i]@ && shown[j] == hits[j]@);
            if j < front.len() {
                assert(shown_ids(front)[i] != shown_ids(front)[j]);
            } else if i < front.len() {
                assert(!v.dirty.contains(front[i].id));
                assert(changed.contains(tail[j - front.len()]));
            } else {
                let x = i - front.len();
                let y = j - front.len();
                assert(changed.contains(tail[x]) && changed.contains(tail[y]));
                assert(better(tail[x], tail[y]));
                lemma_better_total(tail[x], tail[y]);
            }
        }
    }
    law_merge_keeps_the_best(hits, k, merged);
    let gathered = rank_set(hits);
    let out = ranks(views(merged));
    assert forall|x: int| 0 <= x < out.len() implies whole.contains(#[trigger] out[x]) by {
        assert(gathered.contains(out[x]));
        let i = choose|i: int| 0 <= i < hits.len() && (#[trigger] hits[i])@.rank() == out[x];
        assert(shown[i] == hits[i]@);
        if i < front.len() {
            assert(ranks(front)[i] == out[x]);
            assert(ranks(front).contains(out[x]));
        } else {
            assert(tail[i - front.len()] == out[x]);
        }
    }
    assert forall|r: Ranked| #[trigger] whole.contains(r) implies out.contains(r) || (out.len() == k
        && k > 0 && better(out[k - 1], r)) by {
        if ranks(front).to_set().contains(r) {
            let i = choose|i: int| 0 <= i < ranks(front).len() && ranks(front)[i] == r;
            assert(shown[i] == front[i]);
            assert(hits[i]@.rank() == r);
            assert(gathered.contains(r));
        } else {
            assert forall|x: int| 0 <= x < tail.len() implies gathered.contains(
                #[trigger] tail[x],
            ) by {
                assert(shown[front.len() + x] == back[x]);
                assert(hits[front.len() + x]@.rank() == tail[x]);
            }
            lemma_part_stands_for_pool(out, gathered, tail, changed, k as nat, r);
        }
    }
    let list = views(merged);
    assert forall|i: int| 0 <= i < list.len() implies points.contains_key((#[trigger] list[i]).id)
        && list[i].metadata == points[list[i].id].metadata && list[i].sequence
        == points[list[i].id].sequence by {
        assert(hits.contains(merged[i]));
        let x = choose|x: int| 0 <= x < hits.len() && hits[x] == merged[i];
        assert(shown[x] == list[i]);
        if x < front.len() {
            assert(front[x] == list[i]);
        } else {
            assert(back[x - front.len()] == list[i]);
        }
    }
}

/// What a persistent collection makes of a batch: one commit that writes it, of
/// acceptable points only. Every ID of it counts as changed since the segment, beside
/// those that did; the segment stays.
pub proof fn law_upserts_write_their_batch<K: Kernel>(
    kernel: K,
    v: PersistedView,
    batch: Seq<UpsertView>,
)
    requires
        upsert_commit(kernel, v, batch) is Ok,
    ensures
        ({
            let after = upsert_commit(kernel, v, batch)->Ok_0.after;
            &&& batch.len() > 0
            &&& forall|i: int|
                0 <= i < batch.len() ==> acceptable(v.collection.config, #[trigger] batch[i])
            &&& wrote(kernel, v.collection, batch, after.collection)
            &&& forall|id: Seq<char>| #[trigger]
                after.dirty.contains(id) <==> v.dirty.contains(id) || exists|i: int|
                    0 <= i < batch.len() && (#[trigger] batch[i]).id == id
            &&& after.graph == v.graph && after.catalog == v.catalog
        }),
{
    let after = upsert_commit(kernel, v, batch)->Ok_0.after;
    let sequence = (v.collection.sequence + 1) as u64;
    let points = prepared_batch(kernel, v.collection.config, batch, sequence)->Ok_0;
    law_prepared_batches_are_written(kernel, v.collection, batch);
    lemma_prepared_each(kernel, v.collection.config, batch, sequence);
    let ids = written_ids(points);
    assert forall|id: Seq<char>| #[trigger]
        after.dirty.contains(id) <==> v.dirty.contains(id) || exists|i: int|
            0 <= i < batch.len() && (#[trigger] batch[i]).id == id by {
        if ids.to_set().contains(id) {
            let i = choose|i: int| 0 <= i < ids.len() && ids[i] == id;
            assert(prepared_point(kernel, v.collection.config, batch[i], sequence) is Ok);
            assert(batch[i].id == id);
        }
        if exists|i: int| 0 <= i < batch.len() && (#[trigger] batch[i]).id == id {
            let i = choose|i: int| 0 <= i < batch.len() && (#[trigger] batch[i]).id == id;
            assert(prepared_point(kernel, v.collection.config, batch[i], sequence) is Ok);
            assert(ids[i] == id);
        }
    }
}

/// What a persistent collection makes of a deletion: one commit that deletes every ID of
/// it and no other. Every ID of it counts as changed since the segment; the segment
/// stays.
pub proof fn law_deletions_erase_their_ids(v: PersistedView, ids: Seq<Seq<char>>)
    requires
        delete_commit(v, ids) is Ok,
    ensures
        ({
            let after = delete_commit(v, ids)->Ok_0.after;
            &&& ids.len() > 0
            &&& forall|i: int| 0 <= i < ids.len() ==> (#[trigger] ids[i]).len() > 0
            &&& erased(v.collection, ids, after.collection)
            &&& forall|id: Seq<char>| #[trigger]
                after.dirty.contains(id) <==> v.dirty.contains(id) || ids.contains(id)
            &&& after.graph == v.graph && after.catalog == v.catalog
        }),
{
    law_deletions_erase(v.collection, ids);
}

/// A result of the graph that has not changed and yet has no point is damage, and is never
/// passed over.
pub proof fn law_missing_points_are_corruption(
    points: Map<Seq<char>, PointView>,
    dirty: Set<Seq<char>>,
    filter: Option<&Filter>,
    place: Seq<char>,
    hits: Seq<Ranked>,
    i: int,
)
    requires
        0 <= i < hits.len(),
        !dirty.contains(hits[i].id),
        !points.contains_key(hits[i].id),
    ensures
        graph_part(points, dirty, filter, place, hits) is Err,
        graph_part(points, dirty, filter, place, hits)->Err_0 is CorruptStorage,
    decreases hits.len(),
{
    let rest = hits.drop_last();
    if i < rest.len() {
        law_missing_points_are_corruption(points, dirty, filter, place, rest, i);
    } else if graph_part(points, dirty, filter, place, rest) is Err {
        lemma_only_corruption(points, dirty, filter, place, rest);
    }
}

proof fn lemma_only_corruption(
    points: Map<Seq<char>, PointView>,
    dirty: Set<Seq<char>>,
    filter: Option<&Filter>,
    place: Seq<char>,
    hits: Seq<Ranked>,
)
    ensures
        graph_part(points, dirty, filter, place, hits) matches Err(error)
            ==> error is CorruptStorage,
    decreases hits.len(),
{
    if hits.len() > 0 {
        lemma_only_corruption(points, dirty, filter, place, hits.drop_last());
    }
}

} // verus!
