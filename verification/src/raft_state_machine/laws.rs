//! What holds of every replicated shard.
use crate::collection::{
    acceptable, accepted_query, erased, found, law_deletions_erase,
    law_prepared_batches_are_written, wrote, listing, pool, prepared_batch, ranks, views, with_points,
    CollectionConfig, CollectionView, HitView, PointView, SearchHit,
};
use crate::error::{ErrorView, Result};
use crate::filter::Filter;
use crate::hits::{hit_ids, lemma_merge_contains, lemma_merge_keeps_ids, merge_of};
use crate::hnsw::laws::{law_built_graph_holds_its_points, law_graph_results_are_ranked};
use crate::hnsw::model::{valid, GraphView};
use crate::hnsw::{graph_hits, graph_ids, graph_query};
use crate::metric::{lawful, scored, Kernel, Metric};
use crate::persistence::consistency::{
    lemma_catalog, lemma_deleted_beside, lemma_graph_part_distinct, lemma_listed,
    lemma_prepared_ids, lemma_stays_in_step, lemma_written_beside, shown_ids,
};
use crate::persistence::flush::graph_points;
use crate::persistence::{
    completed, exact_result, graph_part, in_step, larger, put_together, PersistedView,
};
use crate::persistence::segment::point_ids;
use crate::persistence::unfiltered::{
    generous, law_unfiltered_search_is_never_short, lemma_exact_is_never_short,
};
use crate::raft_state_machine::model::{
    adopted, after_record, carried_out, empty_shard, indexed, is_old, prepared_payload, record_of,
    reindexed, reopened, replayed_records, shard_graph_config, taken, AppliedPayloadView,
    AppliedView, ShardView, SnapshotMetaView, StateSnapshotView, StoredSnapshotView,
};
use crate::raft_state_machine::run;
use crate::raft_state_machine::snapshot::{installed, snapshot_outcome};
use crate::raft_state_machine::search::{
    doubled, first_width, is_narrow, shard_place, shard_result, topped_up, unchanged_candidates,
    widened,
};
use crate::ranking::{better, lemma_better_total, Ranked};
use crate::raft_storage::{CommandView, EntryView, LogId, PayloadView, ResponseView};
use crate::text::{lemma_text_irreflexive, text_less};
use vstd::prelude::*;

verus! {

/// A request that was settled before is told what it was told then, and applying
/// its entry again changes nothing but how far the log is applied.
pub proof fn law_settled_requests_change_nothing<K: Kernel>(
    kernel: K,
    shard: ShardView,
    log_id: LogId,
    command: CommandView,
)
    requires
        shard.settled.contains_key(command.identity()),
    ensures
        ({
            let entry = EntryView { log_id, payload: PayloadView::Normal(command) };
            &&& prepared_payload(kernel, shard, entry).1 == shard.settled[command.identity()]
            &&& after_record(kernel, shard, record_of(kernel, shard, entry)) == (
                ShardView { last_applied: Some(log_id), ..shard },
                None::<ErrorView>,
            )
        }),
{
}

/// Applying the entry of a command settles its request with the response that its
/// client is told.
pub proof fn law_applied_commands_are_settled<K: Kernel>(
    kernel: K,
    shard: ShardView,
    log_id: LogId,
    command: CommandView,
)
    ensures
        ({
            let entry = EntryView { log_id, payload: PayloadView::Normal(command) };
            let (after, fault) = after_record(kernel, shard, record_of(kernel, shard, entry));
            let told = prepared_payload(kernel, shard, entry).1;
            &&& fault is None
            &&& after.settled.contains_key(command.identity())
            &&& after.settled[command.identity()] == told
        }),
{
    let entry = EntryView { log_id, payload: PayloadView::Normal(command) };
    law_prepared_records_apply(kernel, shard, entry);
}

/// A record that was prepared for a shard applies to it without fault.
pub proof fn law_prepared_records_apply<K: Kernel>(kernel: K, shard: ShardView, entry: EntryView)
    ensures
        after_record(kernel, shard, record_of(kernel, shard, entry)).1 is None,
        after_record(kernel, shard, record_of(kernel, shard, entry)).0.last_applied == Some(
            entry.log_id,
        ),
{
}

/// Every commit of a shard has the sequence behind that of the commit before, and
/// what is not a commit leaves the points as they are.
pub proof fn law_sequences_are_consecutive<K: Kernel>(
    kernel: K,
    shard: ShardView,
    entry: EntryView,
)
    ensures
        ({
            let after = after_record(kernel, shard, record_of(kernel, shard, entry)).0;
            let was = shard.data.collection;
            let now = after.data.collection;
            now == was || now.sequence == was.sequence + 1
        }),
{
}

/// No point is newer than the last commit.
pub open spec fn current(c: CollectionView) -> bool {
    forall|id: Seq<char>| #[trigger]
        c.points.contains_key(id) ==> c.points[id].sequence <= c.sequence
}

proof fn lemma_prepared_sequences<K: Kernel>(
    kernel: K,
    config: CollectionConfig,
    points: Seq<crate::collection::UpsertView>,
    sequence: u64,
)
    requires
        crate::collection::prepared_points(kernel, config, points, sequence) is Ok,
    ensures
        ({
            let batch = crate::collection::prepared_points(kernel, config, points, sequence)->Ok_0;
            forall|i: int| 0 <= i < batch.len() ==> (#[trigger] batch[i]).sequence == sequence
        }),
    decreases points.len(),
{
    if points.len() > 0 {
        lemma_prepared_sequences(kernel, config, points.drop_last(), sequence);
    }
}

proof fn lemma_written_current(
    points: Map<Seq<char>, PointView>,
    batch: Seq<PointView>,
    sequence: u64,
)
    requires
        forall|id: Seq<char>| #[trigger]
            points.contains_key(id) ==> points[id].sequence <= sequence,
        forall|i: int| 0 <= i < batch.len() ==> (#[trigger] batch[i]).sequence <= sequence,
    ensures
        forall|id: Seq<char>| #[trigger]
            with_points(points, batch).contains_key(id) ==> with_points(points, batch)[id].sequence
                <= sequence,
    decreases batch.len(),
{
    if batch.len() > 0 {
        let rest = batch.drop_last();
        assert forall|i: int| 0 <= i < rest.len() implies (#[trigger] rest[i]).sequence
            <= sequence by {
            assert(batch[i].sequence <= sequence);
        }
        lemma_written_current(points, rest, sequence);
        assert(batch[batch.len() - 1].sequence <= sequence);
        let before = with_points(points, rest);
        let after = with_points(points, batch);
        assert forall|id: Seq<char>| #[trigger] after.contains_key(id) implies after[id].sequence
            <= sequence by {
            if id != batch.last().id {
                assert(before.contains_key(id));
            }
        }
    }
}

/// Applying an entry keeps every point no newer than the last commit.
pub proof fn law_points_are_no_newer<K: Kernel>(kernel: K, shard: ShardView, entry: EntryView)
    requires
        current(shard.data.collection),
    ensures
        current(
            after_record(kernel, shard, record_of(kernel, shard, entry)).0.data.collection,
        ),
{
    if let PayloadView::Normal(command) = entry.payload {
        let c = shard.data.collection;
        if !shard.settled.contains_key(command.identity()) && c.sequence < u64::MAX {
            let sequence = (c.sequence + 1) as u64;
            match command {
                CommandView::Upsert { points, .. } => {
                    if let Ok(batch) = prepared_batch(kernel, c.config, points, sequence) {
                        lemma_prepared_sequences(kernel, c.config, points, sequence);
                        lemma_written_current(c.points, batch, sequence);
                    }
                },
                CommandView::Delete { ids, .. } => {
                    let after = crate::collection::without_points(c.points, ids);
                    assert forall|id: Seq<char>| #[trigger] after.contains_key(id) implies after[id].sequence
                        <= sequence by {
                        crate::collection::law_deleted_points_are_gone(c.points, ids, id);
                    }
                },
            }
        }
    }
}

/// A record leaves a shard in step with its graph and metadata index.
pub proof fn law_records_stay_in_step<K: Kernel>(kernel: K, shard: ShardView, record: AppliedView)
    requires
        in_step(shard.data),
    ensures
        in_step(after_record(kernel, shard, record).0.data),
{
    if let AppliedPayloadView::Command { command, response } = record.payload {
        if let ResponseView::Applied { sequence } = response {
            let v = shard.data;
            let (data, fault) = carried_out(kernel, v, command, sequence);
            match command {
                CommandView::Upsert { points, .. } => {
                    if let Ok(batch) = prepared_batch(kernel, v.collection.config, points, sequence) {
                        lemma_prepared_ids(kernel, v.collection.config, points, sequence);
                        lemma_written_beside(v.collection.points, batch);
                    }
                    lemma_stays_in_step(v, data);
                },
                CommandView::Delete { ids, .. } => {
                    lemma_deleted_beside(v.collection.points, ids);
                    lemma_stays_in_step(v, data);
                },
            }
        }
    }
}

/// Entries leave a shard in step with its graph and metadata index, however far they
/// are applied.
pub proof fn law_runs_stay_in_step<K: Kernel>(
    kernel: K,
    before: ShardView,
    entries: Seq<EntryView>,
    journaled: Seq<Result<()>>,
)
    requires
        in_step(before.data),
    ensures
        in_step(run(kernel, before, entries, journaled).0.data),
    decreases entries.len(),
{
    if entries.len() > 0 {
        let rest = entries.drop_last();
        law_runs_stay_in_step(kernel, before, rest, journaled);
        let now = run(kernel, before, rest, journaled).0;
        law_records_stay_in_step(kernel, now, record_of(kernel, now, entries.last()));
    }
}

/// A shard whose sequence entries have not moved holds the points that it held: a
/// graph that was built of them in the meantime is a graph of what it holds.
pub proof fn law_unmoved_sequence_keeps_the_points<K: Kernel>(
    kernel: K,
    before: ShardView,
    entries: Seq<EntryView>,
    journaled: Seq<Result<()>>,
)
    ensures
        ({
            let was = before.data.collection;
            let now = run(kernel, before, entries, journaled).0.data.collection;
            &&& was.sequence <= now.sequence
            &&& was.sequence == now.sequence ==> now == was
        }),
    decreases entries.len(),
{
    if entries.len() > 0 {
        let rest = entries.drop_last();
        law_unmoved_sequence_keeps_the_points(kernel, before, rest, journaled);
        let now = run(kernel, before, rest, journaled).0;
        law_sequences_are_consecutive(kernel, now, entries.last());
    }
}

/// The graph of points holds exactly their IDs, none of them twice.
proof fn lemma_indexed_ids<K: Kernel>(kernel: K, config: CollectionConfig, list: Seq<PointView>)
    requires
        lawful(kernel),
        list.len() <= usize::MAX,
        indexed(kernel, config, list) is Ok,
    ensures
        graph_ids(indexed(kernel, config, list)->Ok_0.0) == point_ids(list),
        forall|i: int, j: int|
            0 <= i < j < list.len() ==> (#[trigger] list[i]).id != (#[trigger] list[j]).id,
{
    let graph = indexed(kernel, config, list)->Ok_0.0;
    let pairs = graph_points(list);
    law_built_graph_holds_its_points(
        kernel,
        config.dimension,
        config.metric,
        shard_graph_config(),
        pairs,
    );
    assert forall|i: int| 0 <= i < list.len() implies (#[trigger] graph.nodes[i]).id
        == list[i].id by {
        assert(pairs[i].0 == list[i].id);
    }
    assert forall|i: int, j: int| 0 <= i < j < list.len() implies (#[trigger] list[i]).id != (
    #[trigger] list[j]).id by {
        assert(graph.nodes[i].id != graph.nodes[j].id);
    }
    assert forall|id: Seq<char>| #[trigger]
        graph_ids(graph).contains(id) == point_ids(list).contains(id) by {
        if graph_ids(graph).contains(id) {
            let i = choose|i: int| 0 <= i < graph.nodes.len() && (#[trigger] graph.nodes[i]).id == id;
            assert(list[i].id == id);
        }
        if point_ids(list).contains(id) {
            let i = choose|i: int| 0 <= i < list.len() && (#[trigger] list[i]).id == id;
            assert(graph.nodes[i].id == id);
        }
    }
    assert(graph_ids(graph) =~= point_ids(list));
}

/// Points are in step with the graph and the metadata index that were built of them.
proof fn lemma_built_in_step<K: Kernel>(
    kernel: K,
    collection: CollectionView,
    list: Seq<PointView>,
)
    requires
        lawful(kernel),
        list.len() <= usize::MAX,
        indexed(kernel, collection.config, list) is Ok,
        collection.points == with_points(Map::empty(), list),
    ensures
        ({
            let (graph, catalog) = indexed(kernel, collection.config, list)->Ok_0;
            in_step(
                PersistedView {
                    collection,
                    dirty: Set::empty(),
                    graph: Some(graph),
                    catalog: Some(catalog),
                },
            )
        }),
{
    let (graph, catalog) = indexed(kernel, collection.config, list)->Ok_0;
    lemma_indexed_ids(kernel, collection.config, list);
    lemma_catalog(list, list.len() as int);
    assert(list.subrange(0, list.len() as int) =~= list);
    assert forall|id: Seq<char>| #[trigger]
        graph_ids(graph).contains(id) == collection.points.contains_key(id) by {
        assert(point_ids(list).contains(id) == catalog.contains_key(id));
    }
}

/// A shard with a graph and a metadata index of everything is in step with them.
pub proof fn law_reindexed_is_in_step<K: Kernel>(kernel: K, shard: ShardView, list: Seq<PointView>)
    requires
        lawful(kernel),
        list.len() <= usize::MAX,
        listing(shard.data.collection.points, list),
        indexed(kernel, shard.data.collection.config, list) is Ok,
    ensures
        ({
            let (graph, catalog) = indexed(kernel, shard.data.collection.config, list)->Ok_0;
            in_step(reindexed(shard, graph, catalog).data)
        }),
{
    lemma_listing_restores(shard.data.collection.points, list);
    lemma_built_in_step(kernel, shard.data.collection, list);
}

/// A shard that takes over a snapshot is in step with the graph and the metadata
/// index that it builds of it.
pub proof fn law_adopted_is_in_step<K: Kernel>(
    kernel: K,
    state: StateSnapshotView,
    stored: StoredSnapshotView,
)
    requires
        lawful(kernel),
        state.points.len() <= usize::MAX,
        adopted(kernel, state, stored) is Ok,
    ensures
        in_step(adopted(kernel, state, stored)->Ok_0.data),
{
    lemma_built_in_step(
        kernel,
        adopted(kernel, state, stored)->Ok_0.data.collection,
        state.points,
    );
}

proof fn lemma_replayed_in_step<K: Kernel>(kernel: K, start: ShardView, records: Seq<AppliedView>)
    requires
        in_step(start.data),
        replayed_records(kernel, start, records) is Ok,
    ensures
        in_step(replayed_records(kernel, start, records)->Ok_0.data),
    decreases records.len(),
{
    if records.len() > 0 {
        let rest = records.drop_last();
        lemma_replayed_in_step(kernel, start, rest);
        law_records_stay_in_step(
            kernel,
            replayed_records(kernel, start, rest)->Ok_0,
            records.last(),
        );
    }
}

/// A shard that was opened from its snapshot and its journal is in step with its
/// graph and metadata index.
pub proof fn law_reopened_is_in_step<K: Kernel>(
    kernel: K,
    config: CollectionConfig,
    snapshot: Option<(StoredSnapshotView, StateSnapshotView)>,
    records: Seq<AppliedView>,
)
    requires
        lawful(kernel),
        snapshot matches Some((_, state)) ==> state.points.len() <= usize::MAX,
        reopened(kernel, config, snapshot, records) is Ok,
    ensures
        in_step(reopened(kernel, config, snapshot, records)->Ok_0.data),
{
    match snapshot {
        None => {
            lemma_replayed_in_step(kernel, empty_shard(config), records);
        },
        Some((stored, state)) => {
            law_adopted_is_in_step(kernel, state, stored);
            lemma_replayed_in_step(kernel, adopted(kernel, state, stored)->Ok_0, records);
        },
    }
}

/// Listed points, put under their IDs, are the points that were listed.
proof fn lemma_listing_restores(points: Map<Seq<char>, PointView>, list: Seq<PointView>)
    requires
        listing(points, list),
    ensures
        with_points(Map::empty(), list) == points,
{
    let again = with_points(Map::empty(), list);
    assert forall|i: int, j: int| 0 <= i < j < list.len() implies (#[trigger] list[i]).id != (
    #[trigger] list[j]).id by {
        assert(text_less(list[i].id, list[j].id));
        lemma_text_irreflexive(list[i].id);
    }
    lemma_catalog(list, list.len() as int);
    assert(list.subrange(0, list.len() as int) =~= list);
    let catalog = crate::metadata_index::catalog_of(list, list.len() as int);
    assert forall|id: Seq<char>|
        #![trigger again.contains_key(id)]
        #![trigger points.contains_key(id)]
        again.contains_key(id) == points.contains_key(id) && (points.contains_key(id) ==> again[id]
            == points[id]) by {
        assert(catalog.contains_key(id) == again.contains_key(id));
        if points.contains_key(id) {
            let i = choose|i: int| 0 <= i < list.len() && (#[trigger] list[i]).id == id;
            assert(catalog.contains_key(id));
            lemma_listed(list, i);
            assert(points[list[i].id] == list[i]);
        }
        if again.contains_key(id) {
            let i = choose|i: int| 0 <= i < list.len() && (#[trigger] list[i]).id == id;
            assert(points.contains_key(list[i].id));
        }
    }
    assert(again =~= points);
}

/// A shard that takes over a snapshot of another holds what the other held: the
/// same points at the same sequence, the same members, the same settled requests,
/// as far along the log.
pub proof fn law_snapshot_carries_the_state<K: Kernel>(
    kernel: K,
    shard: ShardView,
    state: StateSnapshotView,
    stored: StoredSnapshotView,
)
    requires
        taken(shard, state),
        current(shard.data.collection),
        indexed(kernel, state.config, state.points) is Ok,
    ensures
        adopted(kernel, state, stored) is Ok,
        ({
            let after = adopted(kernel, state, stored)->Ok_0;
            &&& after.data.collection == shard.data.collection
            &&& after.data.dirty == Set::<Seq<char>>::empty()
            &&& after.last_applied == shard.last_applied
            &&& after.membership == shard.membership
            &&& after.settled == shard.settled
        }),
{
    let list = state.points;
    let points = shard.data.collection.points;
    lemma_listing_restores(points, list);
    assert forall|i: int| 0 <= i < list.len() implies (#[trigger] list[i]).sequence
        <= state.collection_sequence by {
        assert(points.contains_key(list[i].id));
    }
    assert forall|i: int, j: int| 0 <= i < j < list.len() implies (#[trigger] list[i]).id != (
    #[trigger] list[j]).id by {
        assert(text_less(list[i].id, list[j].id));
        lemma_text_irreflexive(list[i].id);
    }
}

/// The records that the journal is handed while entries are applied.
pub open spec fn journal_of<K: Kernel>(
    kernel: K,
    before: ShardView,
    entries: Seq<EntryView>,
) -> Seq<AppliedView> {
    Seq::new(
        entries.len(),
        |i: int|
            record_of(
                kernel,
                run(kernel, before, entries.subrange(0, i), all_taken(entries.len())).0,
                entries[i],
            ),
    )
}

/// The answers of a journal that takes everything.
pub open spec fn all_taken(count: nat) -> Seq<Result<()>> {
    Seq::new(count, |i: int| Ok(()))
}

/// What survives a crash: replaying the records that the journal took gives the
/// shard as it was when they were applied.
pub proof fn law_applied_entries_survive<K: Kernel>(
    kernel: K,
    start: ShardView,
    entries: Seq<EntryView>,
)
    requires
        forall|i: int, j: int|
            0 <= i < j < entries.len() ==> (#[trigger] entries[i]).log_id.index < (
            #[trigger] entries[j]).log_id.index,
        start.last_applied matches Some(applied) ==> forall|i: int|
            0 <= i < entries.len() ==> applied.index < (#[trigger] entries[i]).log_id.index,
    ensures
        run(kernel, start, entries, all_taken(entries.len())).2 is None,
        replayed_records(kernel, start, journal_of(kernel, start, entries)) == Ok::<
            ShardView,
            ErrorView,
        >(run(kernel, start, entries, all_taken(entries.len())).0),
        entries.len() > 0 ==> run(
            kernel,
            start,
            entries,
            all_taken(entries.len()),
        ).0.last_applied == Some(entries.last().log_id),
    decreases entries.len(),
{
    let taken_all = all_taken(entries.len());
    let records = journal_of(kernel, start, entries);
    if entries.len() > 0 {
        let rest = entries.drop_last();
        let last = entries.last();
        let shorter = all_taken(rest.len());
        assert forall|i: int, j: int| 0 <= i < j < rest.len() implies (
        #[trigger] rest[i]).log_id.index < (#[trigger] rest[j]).log_id.index by {
            assert(entries[i].log_id.index < entries[j].log_id.index);
        }
        if let Some(applied) = start.last_applied {
            assert forall|i: int| 0 <= i < rest.len() implies applied.index < (
            #[trigger] rest[i]).log_id.index by {
                assert(applied.index < entries[i].log_id.index);
            }
        }
        law_applied_entries_survive(kernel, start, rest);
        crate::raft_state_machine::lemma_run_prefix(kernel, start, rest, shorter, taken_all);
        let now = run(kernel, start, rest, taken_all).0;
        law_prepared_records_apply(kernel, now, last);
        assert(records.drop_last() =~= journal_of(kernel, start, rest)) by {
            assert forall|i: int| 0 <= i < rest.len() implies records[i] == journal_of(
                kernel,
                start,
                rest,
            )[i] by {
                assert(entries.subrange(0, i) =~= rest.subrange(0, i));
                crate::raft_state_machine::lemma_run_prefix(
                    kernel,
                    start,
                    rest.subrange(0, i),
                    shorter,
                    taken_all,
                );
            }
        }
        assert(entries.subrange(0, entries.len() - 1) =~= rest);
        assert(records.last() == record_of(kernel, now, last));
        assert(!is_old(now.last_applied, records.last())) by {
            if rest.len() > 0 {
                assert(entries[entries.len() - 2].log_id.index < entries[entries.len()
                    - 1].log_id.index);
                assert(rest.last() == entries[entries.len() - 2]);
            } else if let Some(applied) = start.last_applied {
                assert(applied.index < entries[0].log_id.index);
            }
        }
    }
}

/// Every result is a stored point that a filter admits, as it is stored.
pub open spec fn all_admitted(
    points: Map<Seq<char>, PointView>,
    filter: Filter,
    hits: Seq<HitView>,
) -> bool {
    forall|i: int|
        0 <= i < hits.len() ==> {
            &&& points.contains_key((#[trigger] hits[i]).id)
            &&& filter.holds(points[hits[i].id].metadata)
            &&& hits[i].metadata == points[hits[i].id].metadata
            &&& hits[i].sequence == points[hits[i].id].sequence
        }
}

proof fn lemma_found_admitted<K: Kernel>(
    kernel: K,
    metric: Metric,
    points: Map<Seq<char>, PointView>,
    query: Seq<u32>,
    ids: Set<Seq<char>>,
    filter: Filter,
    k: nat,
    hits: Seq<HitView>,
)
    requires
        found(kernel, metric, points, query, ids, Some(&filter), k, hits),
    ensures
        all_admitted(points, filter, hits),
        hits.len() <= k,
{
    let all = pool(kernel, metric, points, query, ids, Some(&filter));
    assert forall|i: int| 0 <= i < hits.len() implies {
        &&& points.contains_key((#[trigger] hits[i]).id)
        &&& filter.holds(points[hits[i].id].metadata)
        &&& hits[i].metadata == points[hits[i].id].metadata
        &&& hits[i].sequence == points[hits[i].id].sequence
    } by {
        assert(all.contains(ranks(hits)[i]));
    }
}

proof fn lemma_graph_part_admitted(
    points: Map<Seq<char>, PointView>,
    dirty: Set<Seq<char>>,
    filter: Filter,
    place: Seq<char>,
    hits: Seq<Ranked>,
)
    requires
        graph_part(points, dirty, Some(&filter), place, hits) is Ok,
    ensures
        all_admitted(points, filter, graph_part(points, dirty, Some(&filter), place, hits)->Ok_0),
    decreases hits.len(),
{
    if hits.len() > 0 {
        lemma_graph_part_admitted(points, dirty, filter, place, hits.drop_last());
    }
}

proof fn lemma_widened_admitted<K: Kernel>(
    kernel: K,
    v: PersistedView,
    graph: GraphView,
    query: Seq<u32>,
    k: usize,
    filter: Filter,
    ef_search: usize,
    width: usize,
)
    requires
        graph.nodes.len() <= usize::MAX,
        width <= graph.nodes.len(),
        widened(kernel, v, graph, query, k, filter, ef_search, width) is Ok,
    ensures
        all_admitted(
            v.collection.points,
            filter,
            widened(kernel, v, graph, query, k, filter, ef_search, width)->Ok_0,
        ),
    decreases graph.nodes.len() - width,
{
    if width > 0 {
        let ef = larger(ef_search, width);
        let q = graph_query(kernel, graph, query, width, ef)->Ok_0;
        let near = graph_hits(kernel, graph, q, width, ef);
        let points = v.collection.points;
        lemma_graph_part_admitted(points, v.dirty, filter, shard_place(), near);
        let hits = graph_part(points, v.dirty, Some(&filter), shard_place(), near)->Ok_0;
        if hits.len() < k && width < graph.nodes.len() {
            lemma_widened_admitted(
                kernel,
                v,
                graph,
                query,
                k,
                filter,
                ef_search,
                doubled(width, graph.nodes.len()),
            );
        }
    }
}

/// A filtered search of a shard gives at most `k` results, and every one of them is
/// a stored point that the filter admits, whichever way the search took.
pub proof fn law_filtered_results_meet_the_filter<K: Kernel>(
    kernel: K,
    v: PersistedView,
    query: Seq<u32>,
    k: usize,
    filter: Filter,
    ef_search: usize,
    result: Result<Vec<SearchHit>>,
)
    requires
        v.graph matches Some(graph) ==> graph.nodes.len() <= usize::MAX,
        shard_result(kernel, v, query, k, Some(&filter), ef_search, result),
        result is Ok,
    ensures
        all_admitted(v.collection.points, filter, views(result->Ok_0@)),
        result->Ok_0@.len() <= k,
{
    let points = v.collection.points;
    let metric = v.collection.config.metric;
    let merged = result->Ok_0@;
    let accepted = accepted_query(kernel, v.collection.config, query, k);
    let broad = v.graph is Some && v.catalog is Some && !is_narrow(
        unchanged_candidates(v, v.catalog->0, filter).len(),
        k,
        v.graph->0.nodes.len(),
    );
    if !broad {
        let ids = if v.graph is None || v.catalog is None {
            points.dom()
        } else {
            unchanged_candidates(v, v.catalog->0, filter).union(v.dirty)
        };
        assert(exact_result(kernel, v, query, k, ids, Some(&filter), result));
        lemma_found_admitted(
            kernel,
            metric,
            points,
            accepted->Ok_0,
            ids,
            filter,
            k as nat,
            views(merged),
        );
    } else {
        let graph = v.graph->0;
        let candidates = unchanged_candidates(v, v.catalog->0, filter);
        let q = accepted->Ok_0;
        let width = first_width(k, ef_search, v.dirty.len(), graph.nodes.len());
        lemma_widened_admitted(kernel, v, graph, query, k, filter, ef_search, width);
        let given = widened(kernel, v, graph, query, k, filter, ef_search, width)->Ok_0;
        let front = choose|front: Seq<HitView>| #[trigger]
            topped_up(kernel, v, candidates, q, k, filter, given, front) && completed(
                kernel,
                v,
                q,
                k,
                Some(&filter),
                front,
                merged,
            );
        assert(all_admitted(points, filter, front)) by {
            if given.len() < k {
                let more = choose|more: Seq<HitView>| #[trigger]
                    found(
                        kernel,
                        metric,
                        points,
                        q,
                        candidates,
                        Some(&filter),
                        k as nat,
                        more,
                    ) && front == given + more;
                lemma_found_admitted(
                    kernel,
                    metric,
                    points,
                    q,
                    candidates,
                    filter,
                    k as nat,
                    more,
                );
                assert forall|i: int| 0 <= i < front.len() implies {
                    &&& points.contains_key((#[trigger] front[i]).id)
                    &&& filter.holds(points[front[i].id].metadata)
                    &&& front[i].metadata == points[front[i].id].metadata
                    &&& front[i].sequence == points[front[i].id].sequence
                } by {
                    if i < given.len() {
                        assert(front[i] == given[i]);
                    } else {
                        assert(front[i] == more[i - given.len()]);
                    }
                }
            }
        }
        let (hits, back) = choose|hits: Seq<SearchHit>, back: Seq<HitView>| #[trigger]
            put_together(kernel, v, q, k, Some(&filter), front, hits, back, merged);
        lemma_found_admitted(kernel, metric, points, q, v.dirty, filter, k as nat, back);
        lemma_merge_contains(hits, k, merged);
        let shown = views(merged);
        assert forall|i: int| 0 <= i < shown.len() implies {
            &&& points.contains_key((#[trigger] shown[i]).id)
            &&& filter.holds(points[shown[i].id].metadata)
            &&& shown[i].metadata == points[shown[i].id].metadata
            &&& shown[i].sequence == points[shown[i].id].sequence
        } by {
            assert(hits.contains(merged[i]));
            let x = choose|x: int| 0 <= x < hits.len() && hits[x] == merged[i];
            assert(views(hits)[x] == shown[i]);
            assert(views(hits).len() == (front + back).len());
            assert((front + back)[x] == shown[i]);
            if x < front.len() {
                assert(front[x] == shown[i]);
            } else {
                assert(back[x - front.len()] == shown[i]);
            }
        }
    }
}

/// Every point that the filter admits is among the results.
pub open spec fn all_shown(
    points: Map<Seq<char>, PointView>,
    filter: Filter,
    ids: Seq<Seq<char>>,
) -> bool {
    forall|id: Seq<char>| #[trigger]
        points.contains_key(id) && filter.holds(points[id].metadata) ==> ids.contains(id)
}

proof fn lemma_widened_distinct<K: Kernel>(
    kernel: K,
    v: PersistedView,
    graph: GraphView,
    query: Seq<u32>,
    k: usize,
    filter: Filter,
    ef_search: usize,
    width: usize,
)
    requires
        valid(graph),
        graph.nodes.len() <= usize::MAX,
        width <= graph.nodes.len(),
        widened(kernel, v, graph, query, k, filter, ef_search, width) is Ok,
    ensures
        shown_ids(
            widened(kernel, v, graph, query, k, filter, ef_search, width)->Ok_0,
        ).no_duplicates(),
    decreases graph.nodes.len() - width,
{
    if width > 0 {
        let ef = larger(ef_search, width);
        let q = graph_query(kernel, graph, query, width, ef)->Ok_0;
        let near = graph_hits(kernel, graph, q, width, ef);
        let points = v.collection.points;
        law_graph_results_are_ranked(kernel, graph, q, width, ef);
        lemma_graph_part_distinct(points, v.dirty, Some(&filter), shard_place(), near);
        let hits = graph_part(points, v.dirty, Some(&filter), shard_place(), near)->Ok_0;
        if hits.len() < k && width < graph.nodes.len() {
            lemma_widened_distinct(
                kernel,
                v,
                graph,
                query,
                k,
                filter,
                ef_search,
                doubled(width, graph.nodes.len()),
            );
        }
    }
}

/// The best of some points have no ID twice, and where they are fewer than `k` they
/// are all that the filter admits.
proof fn lemma_found_complete<K: Kernel>(
    kernel: K,
    metric: Metric,
    points: Map<Seq<char>, PointView>,
    query: Seq<u32>,
    ids: Set<Seq<char>>,
    filter: Filter,
    k: nat,
    hits: Seq<HitView>,
)
    requires
        found(kernel, metric, points, query, ids, Some(&filter), k, hits),
    ensures
        shown_ids(hits).no_duplicates(),
        hits.len() < k ==> forall|id: Seq<char>| #[trigger]
            ids.contains(id) && points.contains_key(id) && filter.holds(points[id].metadata)
                ==> shown_ids(hits).contains(id),
{
    let all = pool(kernel, metric, points, query, ids, Some(&filter));
    let list = ranks(hits);
    let shown = shown_ids(hits);
    assert forall|x: int, y: int| 0 <= x < shown.len() && 0 <= y < shown.len() && x != y implies shown[x]
        != shown[y] by {
        let (low, high) = if x < y {
            (x, y)
        } else {
            (y, x)
        };
        assert(better(list[low], list[high]));
        assert(all.contains(list[low]) && all.contains(list[high]));
        lemma_better_total(list[low], list[high]);
    }
    if hits.len() < k {
        assert forall|id: Seq<char>| #[trigger]
            ids.contains(id) && points.contains_key(id) && filter.holds(
                points[id].metadata,
            ) implies shown.contains(id) by {
            let r = Ranked { score: scored(kernel, metric, query, points[id].vector), id };
            assert(all.contains(r));
            assert(list.contains(r));
            let i = choose|i: int| 0 <= i < list.len() && list[i] == r;
            assert(shown[i] == id);
        }
    }
}

/// Where merging leaves fewer than `k` results, every ID of a part is among them.
proof fn lemma_part_kept(
    hits: Seq<SearchHit>,
    k: usize,
    merged: Seq<SearchHit>,
    part: Seq<HitView>,
    offset: int,
)
    requires
        merge_of(hits, k, merged),
        merged.len() < k,
        0 <= offset,
        offset + part.len() <= hits.len(),
        forall|i: int| 0 <= i < part.len() ==> views(hits)[offset + i] == #[trigger] part[i],
        shown_ids(part).no_duplicates(),
    ensures
        part.len() <= merged.len(),
        forall|i: int| 0 <= i < part.len() ==> hit_ids(merged).contains((#[trigger] part[i]).id),
{
    let names = shown_ids(part);
    assert forall|i: int| 0 <= i < names.len() implies hit_ids(hits).contains(
        #[trigger] names[i],
    ) by {
        assert(views(hits)[offset + i] == part[i]);
        assert(hit_ids(hits)[offset + i] == names[i]);
    }
    lemma_merge_keeps_ids(hits, k, merged, names);
    assert forall|i: int| 0 <= i < part.len() implies hit_ids(merged).contains(
        (#[trigger] part[i]).id,
    ) by {
        assert(views(hits)[offset + i] == part[i]);
        assert(hit_ids(merged).contains(hits[offset + i].id@));
    }
}

/// A filtered search of a shard never comes up short: where it gives fewer than `k`
/// results, every stored point that the filter admits is among them.
pub proof fn law_filtered_search_is_never_short<K: Kernel>(
    kernel: K,
    v: PersistedView,
    query: Seq<u32>,
    k: usize,
    filter: Filter,
    ef_search: usize,
    result: Result<Vec<SearchHit>>,
)
    requires
        in_step(v),
        v.graph matches Some(graph) ==> valid(graph) && graph.nodes.len() <= usize::MAX,
        shard_result(kernel, v, query, k, Some(&filter), ef_search, result),
        result is Ok,
        result->Ok_0@.len() < k,
    ensures
        all_shown(v.collection.points, filter, hit_ids(result->Ok_0@)),
{
    let points = v.collection.points;
    let metric = v.collection.config.metric;
    let merged = result->Ok_0@;
    let accepted = accepted_query(kernel, v.collection.config, query, k);
    let q = accepted->Ok_0;
    let candidates = unchanged_candidates(v, v.catalog->0, filter);
    let broad = v.graph is Some && v.catalog is Some && !is_narrow(
        candidates.len(),
        k,
        v.graph->0.nodes.len(),
    );
    assert(shown_ids(views(merged)) =~= hit_ids(merged));
    if !broad {
        let ids = if v.graph is None || v.catalog is None {
            points.dom()
        } else {
            candidates.union(v.dirty)
        };
        assert(exact_result(kernel, v, query, k, ids, Some(&filter), result));
        lemma_found_complete(
            kernel,
            metric,
            points,
            q,
            ids,
            filter,
            k as nat,
            views(merged),
        );
        assert forall|id: Seq<char>| #[trigger]
            points.contains_key(id) && filter.holds(points[id].metadata) implies hit_ids(
            merged,
        ).contains(id) by {
            if v.graph is Some && v.catalog is Some && !v.dirty.contains(id) {
                assert(v.catalog->0.contains_key(id));
            }
            assert(ids.contains(id));
        }
    } else {
        let graph = v.graph->0;
        let width = first_width(k, ef_search, v.dirty.len(), graph.nodes.len());
        lemma_widened_distinct(kernel, v, graph, query, k, filter, ef_search, width);
        let given = widened(kernel, v, graph, query, k, filter, ef_search, width)->Ok_0;
        let front = choose|front: Seq<HitView>| #[trigger]
            topped_up(kernel, v, candidates, q, k, filter, given, front) && completed(
                kernel,
                v,
                q,
                k,
                Some(&filter),
                front,
                merged,
            );
        let (hits, back) = choose|hits: Seq<SearchHit>, back: Seq<HitView>| #[trigger]
            put_together(kernel, v, q, k, Some(&filter), front, hits, back, merged);
        lemma_found_complete(kernel, metric, points, q, v.dirty, filter, k as nat, back);
        assert(views(hits) == front + back);
        assert(views(hits).len() == hits.len());
        lemma_part_kept(hits, k, merged, back, front.len() as int);
        if given.len() >= k {
            lemma_part_kept(hits, k, merged, given, 0);
        }
        let more = choose|more: Seq<HitView>| #[trigger]
            found(
                kernel,
                metric,
                points,
                q,
                candidates,
                Some(&filter),
                k as nat,
                more,
            ) && front == given + more;
        lemma_found_complete(kernel, metric, points, q, candidates, filter, k as nat, more);
        lemma_part_kept(hits, k, merged, more, given.len() as int);
        assert forall|id: Seq<char>| #[trigger]
            points.contains_key(id) && filter.holds(points[id].metadata) implies hit_ids(
            merged,
        ).contains(id) by {
            if v.dirty.contains(id) {
                let i = choose|i: int| 0 <= i < back.len() && shown_ids(back)[i] == id;
                assert(hit_ids(merged).contains(back[i].id));
            } else {
                assert(v.catalog->0.contains_key(id));
                assert(candidates.contains(id));
                let i = choose|i: int| 0 <= i < more.len() && shown_ids(more)[i] == id;
                assert(hit_ids(merged).contains(more[i].id));
            }
        }
    }
}

/// A command that a shard takes: a write of acceptable points, at least one, or a
/// deletion of IDs, at least one and none of them empty.
pub open spec fn takes(config: CollectionConfig, command: CommandView) -> bool {
    match command {
        CommandView::Upsert { points, .. } => points.len() > 0 && forall|i: int|
            0 <= i < points.len() ==> acceptable(config, #[trigger] points[i]),
        CommandView::Delete { ids, .. } => ids.len() > 0 && forall|i: int|
            0 <= i < ids.len() ==> (#[trigger] ids[i]).len() > 0,
    }
}

/// What a shard makes of a command that was not settled before. A command that it takes
/// is applied as one commit at the next sequence, and its client is told so: after a
/// write every point of it is read back and all others are as they were, after a deletion
/// every ID of it is gone and all others are as they were. A command that it does not
/// take is rejected and changes no point.
pub proof fn law_applied_commands_do_what_they_say<K: Kernel>(
    kernel: K,
    shard: ShardView,
    log_id: LogId,
    command: CommandView,
)
    requires
        !shard.settled.contains_key(command.identity()),
    ensures
        ({
            let entry = EntryView { log_id, payload: PayloadView::Normal(command) };
            let (after, fault) = after_record(kernel, shard, record_of(kernel, shard, entry));
            let told = prepared_payload(kernel, shard, entry).1;
            let was = shard.data.collection;
            let now = after.data.collection;
            &&& fault is None
            &&& told is Applied <==> was.sequence < u64::MAX && takes(was.config, command)
            &&& match told {
                ResponseView::Rejected { .. } => after.data == shard.data,
                ResponseView::Applied { sequence } => sequence == now.sequence && match command {
                    CommandView::Upsert { points, .. } => wrote(kernel, was, points, now),
                    CommandView::Delete { ids, .. } => erased(was, ids, now),
                },
            }
        }),
{
    let was = shard.data.collection;
    if was.sequence < u64::MAX {
        match command {
            CommandView::Upsert { points, .. } => {
                law_prepared_batches_are_written(kernel, was, points);
            },
            CommandView::Delete { ids, .. } => {
                law_deletions_erase(was, ids);
            },
        }
    }
}

/// What a shard makes of entries that carry no command: nothing happens to its points and
/// its settled requests. A change of members leaves exactly those members, set by the
/// entry.
pub proof fn law_other_entries_leave_the_points<K: Kernel>(
    kernel: K,
    shard: ShardView,
    entry: EntryView,
)
    requires
        !(entry.payload is Normal),
    ensures
        ({
            let (after, fault) = after_record(kernel, shard, record_of(kernel, shard, entry));
            &&& fault is None
            &&& after.data == shard.data
            &&& after.settled == shard.settled
            &&& after.snapshot == shard.snapshot
            &&& after.last_applied == Some(entry.log_id)
            &&& prepared_payload(kernel, shard, entry).1 == (ResponseView::Applied {
                sequence: shard.data.collection.sequence,
            })
            &&& match entry.payload {
                PayloadView::Membership(members) => after.membership.membership == members
                    && after.membership.log_id == Some(entry.log_id),
                _ => after.membership == shard.membership,
            }
        }),
{
}

/// How many results a search without a filter gives of a shard: `k`, or as many as it
/// holds points, whatever has changed since its graph was built.
pub proof fn law_shard_search_gives_as_many_as_asked<K: Kernel>(
    kernel: K,
    v: PersistedView,
    query: Seq<u32>,
    k: usize,
    ef_search: usize,
    result: Result<Vec<SearchHit>>,
)
    requires
        in_step(v),
        v.dirty.finite(),
        v.collection.points.dom().finite(),
        v.graph matches Some(graph) ==> valid(graph) && graph.nodes.len() <= usize::MAX && generous(
            kernel,
            graph,
        ),
        shard_result(kernel, v, query, k, None, ef_search, result),
        result is Ok,
    ensures
        result->Ok_0@.len() == if k <= v.collection.points.dom().len() {
            k as nat
        } else {
            v.collection.points.dom().len()
        },
{
    match v.graph {
        Some(graph) => {
            law_unfiltered_search_is_never_short(
                kernel,
                v,
                graph,
                shard_place(),
                query,
                k,
                ef_search,
                result,
            );
        },
        None => {
            lemma_exact_is_never_short(kernel, v, query, k, result);
        },
    }
}

/// Records that a shard already has are passed over, however many of them its journal
/// still holds: a journal that was not emptied after a snapshot was taken over makes of it
/// what the newer records alone make of it.
pub proof fn law_old_records_are_passed_over<K: Kernel>(
    kernel: K,
    start: ShardView,
    old_ones: Seq<AppliedView>,
    newer: Seq<AppliedView>,
)
    requires
        start.last_applied is Some,
        forall|i: int|
            0 <= i < old_ones.len() ==> (#[trigger] old_ones[i]).log_id.index
                <= start.last_applied->0.index,
    ensures
        replayed_records(kernel, start, old_ones + newer) == replayed_records(kernel, start, newer),
    decreases newer.len(), old_ones.len(),
{
    let records = old_ones + newer;
    if newer.len() > 0 {
        assert(records.drop_last() =~= old_ones + newer.drop_last());
        assert(records.last() == newer.last());
        law_old_records_are_passed_over(kernel, start, old_ones, newer.drop_last());
    } else if old_ones.len() > 0 {
        let rest = old_ones.drop_last();
        assert forall|i: int| 0 <= i < rest.len() implies (#[trigger] rest[i]).log_id.index
            <= start.last_applied->0.index by {
            assert(old_ones[i].log_id.index <= start.last_applied->0.index);
        }
        law_old_records_are_passed_over(kernel, start, rest, newer);
        assert(records =~= old_ones);
        assert(rest + newer =~= rest);
        assert(records.last() == old_ones[old_ones.len() - 1]);
    } else {
        assert(records =~= newer);
    }
}

/// A shard that installs a snapshot of another has what the other had when it was taken,
/// whatever it had before itself: its own points, members and settled requests are gone.
/// A snapshot of points of another shape is refused.
pub proof fn law_installed_snapshots_replace_the_state<K: Kernel>(
    kernel: K,
    before: ShardView,
    other: ShardView,
    state: StateSnapshotView,
    stored: StoredSnapshotView,
)
    requires
        taken(other, state),
        current(other.data.collection),
        indexed(kernel, state.config, state.points) is Ok,
    ensures
        ({
            let result = installed(kernel, before, state, stored, Ok(()), Ok(()));
            &&& result is Ok <==> before.data.collection.config == other.data.collection.config
            &&& result matches Ok(after) ==> {
                &&& after.data.collection == other.data.collection
                &&& after.last_applied == other.last_applied
                &&& after.membership == other.membership
                &&& after.settled == other.settled
                &&& after.snapshot == Some(stored)
            }
        }),
{
    law_snapshot_carries_the_state(kernel, other, state, stored);
}

/// The first part of a run that came through came through as well.
proof fn lemma_run_comes_through<K: Kernel>(
    kernel: K,
    before: ShardView,
    entries: Seq<EntryView>,
    journaled: Seq<Result<()>>,
    count: int,
)
    requires
        0 <= count <= entries.len(),
        run(kernel, before, entries, journaled).2 is None,
    ensures
        ({
            let part = run(kernel, before, entries.subrange(0, count), journaled);
            &&& part.2 is None
            &&& part.1.len() == count
            &&& part.1 == run(kernel, before, entries, journaled).1.subrange(0, count)
            &&& run(kernel, before, entries, journaled).1.len() == entries.len()
        }),
    decreases entries.len(),
{
    let whole = run(kernel, before, entries, journaled).1;
    if entries.len() > 0 {
        let rest = entries.drop_last();
        let front = run(kernel, before, rest, journaled).1;
        lemma_run_comes_through(kernel, before, rest, journaled, rest.len() as int);
        assert(rest.subrange(0, rest.len() as int) =~= rest);
        if count == entries.len() {
            assert(entries.subrange(0, count) =~= entries);
            assert(whole.subrange(0, count) =~= whole);
        } else {
            lemma_run_comes_through(kernel, before, rest, journaled, count);
            assert(entries.subrange(0, count) =~= rest.subrange(0, count));
            assert(whole.subrange(0, count) =~= front.subrange(0, count));
        }
    } else {
        assert(entries.subrange(0, count) =~= entries);
        assert(whole.subrange(0, count) =~= whole);
    }
}

/// Every entry of a run that comes through is answered, in its place: the client of a
/// command is told what is then recorded as the answer to its request.
pub proof fn law_every_entry_is_answered<K: Kernel>(
    kernel: K,
    before: ShardView,
    entries: Seq<EntryView>,
    journaled: Seq<Result<()>>,
    i: int,
)
    requires
        run(kernel, before, entries, journaled).2 is None,
        0 <= i < entries.len(),
    ensures
        run(kernel, before, entries, journaled).1.len() == entries.len(),
        ({
            let then = run(kernel, before, entries.subrange(0, i + 1), journaled).0;
            let told = run(kernel, before, entries, journaled).1[i];
            &&& then.last_applied == Some(entries[i].log_id)
            &&& entries[i].payload matches PayloadView::Normal(command)
                ==> then.settled.contains_key(command.identity()) && then.settled[command.identity()]
                == told
        }),
{
    lemma_run_comes_through(kernel, before, entries, journaled, i + 1);
    lemma_run_comes_through(kernel, before, entries, journaled, i);
    let part = entries.subrange(0, i + 1);
    assert(part.drop_last() =~= entries.subrange(0, i));
    assert(part.last() == entries[i]);
    let now = run(kernel, before, entries.subrange(0, i), journaled).0;
    law_prepared_records_apply(kernel, now, entries[i]);
    let answers = run(kernel, before, part, journaled).1;
    assert(answers[i] == run(kernel, before, entries, journaled).1[i]);
    if let PayloadView::Normal(command) = entries[i].payload {
        let entry = EntryView {
            log_id: entries[i].log_id,
            payload: PayloadView::Normal(command),
        };
        assert(entry == entries[i]);
        law_applied_commands_are_settled(kernel, now, entries[i].log_id, command);
    }
}

/// A run stops where the journal does: the entry whose record the journal did not take,
/// and all entries behind it, change nothing, and the journal's failure is told.
pub proof fn law_runs_stop_where_the_journal_does<K: Kernel>(
    kernel: K,
    before: ShardView,
    entries: Seq<EntryView>,
    journaled: Seq<Result<()>>,
    stop: int,
)
    requires
        0 <= stop < entries.len(),
        journaled[stop] is Err,
        forall|i: int| 0 <= i < stop ==> (#[trigger] journaled[i]) is Ok,
    ensures
        ({
            let part = run(kernel, before, entries.subrange(0, stop), journaled);
            let whole = run(kernel, before, entries, journaled);
            &&& part.2 is None
            &&& whole.0 == part.0
            &&& whole.1 == part.1
            &&& whole.2 == Some(journaled[stop]->Err_0@)
        }),
    decreases entries.len(),
{
    let rest = entries.drop_last();
    if stop < rest.len() {
        law_runs_stop_where_the_journal_does(kernel, before, rest, journaled, stop);
        assert(rest.subrange(0, stop) =~= entries.subrange(0, stop));
    } else {
        assert(entries.subrange(0, stop) =~= rest);
        lemma_taken_run(kernel, before, rest, journaled);
    }
}

proof fn lemma_taken_run<K: Kernel>(
    kernel: K,
    before: ShardView,
    entries: Seq<EntryView>,
    journaled: Seq<Result<()>>,
)
    requires
        forall|i: int| 0 <= i < entries.len() ==> (#[trigger] journaled[i]) is Ok,
    ensures
        run(kernel, before, entries, journaled).2 is None,
    decreases entries.len(),
{
    if entries.len() > 0 {
        let rest = entries.drop_last();
        lemma_taken_run(kernel, before, rest, journaled);
        let now = run(kernel, before, rest, journaled).0;
        assert(journaled[entries.len() - 1] is Ok);
        law_prepared_records_apply(kernel, now, entries.last());
    }
}

/// Taking a snapshot changes nothing of what a shard holds; it keeps the bytes that were
/// written, and starts over with a graph of everything.
pub proof fn law_snapshots_change_no_point<K: Kernel>(
    kernel: K,
    before: ShardView,
    state: StateSnapshotView,
    meta: SnapshotMetaView,
    data: Vec<u8>,
    sum: u32,
    after: ShardView,
)
    requires
        snapshot_outcome(kernel, before, state, meta, Ok((data, sum))) == Ok::<
            ShardView,
            ErrorView,
        >(after),
    ensures
        after.data.collection == before.data.collection,
        after.data.dirty == Set::<Seq<char>>::empty(),
        after.data.graph is Some,
        after.last_applied == before.last_applied,
        after.membership == before.membership,
        after.settled == before.settled,
        after.snapshot is Some,
        after.snapshot->0.meta == meta,
        after.snapshot->0.data == data@,
        after.snapshot->0.checksum == Some(sum),
{
}

} // verus!
