//! Why a collection is what its files say, after any number of commits and flushes.
use crate::bytes::{lemma_byte_ranges, lemma_le_value_bound, number, stands_at, Format};
use crate::collection::{
    law_snapshots_are_restored, with_points, without_points, CollectionConfig, CollectionView,
    PointView, UpsertView,
};
use crate::error::ErrorView;
use crate::metadata::ascending;
use crate::metric::{Kernel, Metric};
use crate::persistence::flush::{
    flushed, indexed, published, snapshot_of, PreparedView, SnapshotView,
};
use crate::persistence::laws::{
    all_loggable, history, history_ids, history_log, law_deletions_are_logged_commits,
    law_logged_commit_is_replayed, law_restated_history_is_alike, law_segment_survives,
    law_upserts_are_logged_commits, lemma_history_read, lemma_torn_frame, lemma_whole_frame,
    loggable, mutated, record_of, restated, restated_all, restated_points, touched, Mutation,
};
use crate::persistence::reopening::lemma_flush_readable;
use crate::persistence::segment::SegmentView;
use crate::persistence::wal::{frame, recovered, replayed, Recovery, MAX_FRAME_BYTES};
use crate::persistence::{
    delete_commit, loaded, opened, started, upsert_commit, PersistedView, StoredSegment,
};
use vstd::prelude::*;

verus! {

/// What is on disk: the segment that the manifest names, with its sequence, and the
/// log.
pub struct DiskView {
    pub segment: Option<(u64, Seq<u8>)>,
    pub log: Seq<u8>,
}

/// What the segment on disk gives a collection to start from.
pub open spec fn start_of(
    config: CollectionConfig,
    segment: Option<(u64, Seq<u8>)>,
) -> core::result::Result<PersistedView, ErrorView> {
    match segment {
        Some((sequence, bytes)) if config.dimension > 0 => loaded(config, sequence, bytes),
        _ => started(config, None),
    }
}

/// The collection that the files hold, and the length of the log up to its last whole
/// frame.
pub open spec fn reopened<K: Kernel>(
    kernel: K,
    config: CollectionConfig,
    disk: DiskView,
) -> core::result::Result<(PersistedView, int), ErrorView> {
    match start_of(config, disk.segment) {
        Err(error) => Err(error),
        Ok(start) => match recovered(kernel, start.collection, start.dirty, disk.log, 0) {
            Err(error) => Err(error),
            Ok(recovery) => Ok(
                (
                    PersistedView {
                        collection: recovery.collection,
                        dirty: recovery.dirty,
                        ..start
                    },
                    recovery.valid_length,
                ),
            ),
        },
    }
}

/// Opening a collection reads what its files hold.
pub proof fn law_open_reads_the_disk<K: Kernel>(
    kernel: K,
    config: CollectionConfig,
    segment: Option<StoredSegment>,
    disk: DiskView,
)
    requires
        match segment {
            None => disk.segment is None,
            Some(stored) => disk.segment == Some((stored.sequence, stored.bytes@)),
        },
    ensures
        opened(kernel, config, segment, disk.log) == reopened(kernel, config, disk),
{
}

/// The same commits, the same live IDs, and for each of them the same metadata and
/// sequence.
pub open spec fn same_points(a: CollectionView, b: CollectionView) -> bool {
    &&& a.config == b.config
    &&& a.sequence == b.sequence
    &&& same_entries(a.points, b.points)
}

/// The same IDs, each with the same metadata and sequence.
pub open spec fn same_entries(
    a: Map<Seq<char>, PointView>,
    b: Map<Seq<char>, PointView>,
) -> bool {
    &&& forall|id: Seq<char>| #[trigger] a.contains_key(id) == b.contains_key(id)
    &&& forall|id: Seq<char>| #[trigger]
        a.contains_key(id) ==> b[id] == (PointView { vector: b[id].vector, ..a[id] })
}

/// The files hold a collection: opening them gives its commits, its points and its
/// graph, and reads the log to its end.
pub open spec fn durable<K: Kernel>(kernel: K, disk: DiskView, v: PersistedView) -> bool {
    match reopened(kernel, v.collection.config, disk) {
        Err(_) => false,
        Ok((w, length)) => {
            &&& length == disk.log.len()
            &&& same_points(v.collection, w.collection)
            &&& w.graph == v.graph
            &&& w.catalog == v.catalog
            &&& w.dirty.subset_of(v.dirty)
        },
    }
}

/// An empty disk holds an empty collection.
pub proof fn law_new_collection_is_durable<K: Kernel>(kernel: K, config: CollectionConfig)
    requires
        config.dimension > 0,
    ensures
        started(config, None) is Ok,
        durable(
            kernel,
            DiskView { segment: None, log: seq![] },
            started(config, None)->Ok_0,
        ),
{
}

/// A collection that was opened is what the files hold.
pub proof fn law_reopened_collection_is_durable<K: Kernel>(
    kernel: K,
    disk: DiskView,
    v: PersistedView,
)
    requires
        durable(kernel, disk, v),
    ensures
        durable(kernel, disk, reopened(kernel, v.collection.config, disk)->Ok_0.0),
{
    let w = reopened(kernel, v.collection.config, disk)->Ok_0.0;
    assert(same_points(w.collection, w.collection));
}

/// What is behind a log that is read to its end is read from there on.
proof fn lemma_log_extends<K: Kernel>(
    kernel: K,
    c: CollectionView,
    dirty: Set<Seq<char>>,
    log: Seq<u8>,
    more: Seq<u8>,
    at: int,
)
    requires
        0 <= at <= log.len(),
        recovered(kernel, c, dirty, log, at) is Ok,
        recovered(kernel, c, dirty, log, at)->Ok_0.valid_length == log.len(),
    ensures
        ({
            let end = recovered(kernel, c, dirty, log, at)->Ok_0;
            recovered(kernel, c, dirty, log + more, at) == recovered(
                kernel,
                end.collection,
                end.dirty,
                log + more,
                log.len() as int,
            )
        }),
    decreases log.len() - at,
{
    let whole = log + more;
    let rest = log.len() - at;
    if rest >= 8 {
        assert(whole.subrange(at, at + 4) =~= log.subrange(at, at + 4));
        assert(whole.subrange(at + 4, at + 8) =~= log.subrange(at + 4, at + 8));
        let length = crate::bytes::le_value(log.subrange(at + 4, at + 8)) as int;
        assert(rest >= 12 + length);
        let payload = log.subrange(at + 8, at + 8 + length);
        assert(whole.subrange(at + 8, at + 8 + length) =~= payload);
        assert(whole.subrange(at + 8 + length, at + 12 + length) =~= log.subrange(
            at + 8 + length,
            at + 12 + length,
        ));
        let replay = replayed(kernel, c, payload)->Ok_0;
        lemma_log_extends(
            kernel,
            replay.collection,
            dirty.union(replay.changed.to_set()),
            log,
            more,
            at + 12 + length,
        );
    }
}

/// Reading a log never goes back in the commits.
proof fn lemma_sequence_grows<K: Kernel>(
    kernel: K,
    c: CollectionView,
    dirty: Set<Seq<char>>,
    log: Seq<u8>,
    at: int,
)
    requires
        recovered(kernel, c, dirty, log, at) is Ok,
    ensures
        c.sequence <= recovered(kernel, c, dirty, log, at)->Ok_0.collection.sequence,
    decreases log.len() - at,
{
    let rest = log.len() - at;
    if at >= 0 && rest >= 8 {
        let length = crate::bytes::le_value(log.subrange(at + 4, at + 8)) as int;
        if rest >= 12 + length {
            let payload = log.subrange(at + 8, at + 8 + length);
            let replay = replayed(kernel, c, payload)->Ok_0;
            lemma_replay_sequence(kernel, c, payload);
            lemma_sequence_grows(
                kernel,
                replay.collection,
                dirty.union(replay.changed.to_set()),
                log,
                at + 12 + length,
            );
        }
    }
}

/// A record that was read is of a commit that the collection then has.
proof fn lemma_replay_sequence<K: Kernel>(kernel: K, c: CollectionView, payload: Seq<u8>)
    requires
        replayed(kernel, c, payload) is Ok,
    ensures
        ({
            let operation = number(Format::Record, payload, 0, 1);
            let sequence = number(Format::Record, payload, operation->Ok_0.1, 8);
            let after = replayed(kernel, c, payload)->Ok_0.collection.sequence;
            &&& operation is Ok
            &&& sequence is Ok
            &&& c.sequence <= after
            &&& sequence->Ok_0.0 <= after
        }),
{
    let operation = number(Format::Record, payload, 0, 1)->Ok_0;
    lemma_byte_ranges();
    lemma_le_value_bound(payload.subrange(operation.1, operation.1 + 8));
}

/// A collection that has all the commits of a log takes nothing from it.
proof fn lemma_old_log_is_ignored<K: Kernel>(
    kernel: K,
    c: CollectionView,
    before: Set<Seq<char>>,
    log: Seq<u8>,
    more: Seq<u8>,
    at: int,
    held: CollectionView,
    dirty: Set<Seq<char>>,
)
    requires
        0 <= at <= log.len(),
        recovered(kernel, c, before, log, at) is Ok,
        recovered(kernel, c, before, log, at)->Ok_0.valid_length == log.len(),
        recovered(kernel, c, before, log, at)->Ok_0.collection.sequence <= held.sequence,
    ensures
        recovered(kernel, held, dirty, log + more, at) == recovered(
            kernel,
            held,
            dirty,
            log + more,
            log.len() as int,
        ),
    decreases log.len() - at,
{
    let whole = log + more;
    let rest = log.len() - at;
    if rest >= 8 {
        assert(whole.subrange(at, at + 4) =~= log.subrange(at, at + 4));
        assert(whole.subrange(at + 4, at + 8) =~= log.subrange(at + 4, at + 8));
        let length = crate::bytes::le_value(log.subrange(at + 4, at + 8)) as int;
        assert(rest >= 12 + length);
        let payload = log.subrange(at + 8, at + 8 + length);
        assert(whole.subrange(at + 8, at + 8 + length) =~= payload);
        assert(whole.subrange(at + 8 + length, at + 12 + length) =~= log.subrange(
            at + 8 + length,
            at + 12 + length,
        ));
        let replay = replayed(kernel, c, payload)->Ok_0;
        let next = at + 12 + length;
        let grown = before.union(replay.changed.to_set());
        lemma_replay_sequence(kernel, c, payload);
        lemma_sequence_grows(kernel, replay.collection, grown, log, next);
        let again = replayed(kernel, held, payload)->Ok_0;
        assert(again.collection == held);
        assert(dirty.union(again.changed.to_set()) =~= dirty);
        lemma_old_log_is_ignored(
            kernel,
            replay.collection,
            grown,
            log,
            more,
            next,
            held,
            dirty,
        );
    }
}

proof fn lemma_same_with<K: Kernel>(
    kernel: K,
    metric: Metric,
    a: Map<Seq<char>, PointView>,
    b: Map<Seq<char>, PointView>,
    points: Seq<PointView>,
)
    requires
        same_entries(a, b),
    ensures
        same_entries(
            with_points(a, points),
            with_points(b, restated_points(kernel, metric, points)),
        ),
    decreases points.len(),
{
    if points.len() > 0 {
        let rest = points.drop_last();
        let all = restated_points(kernel, metric, points);
        lemma_same_with(kernel, metric, a, b, rest);
        assert(all.drop_last() =~= restated_points(kernel, metric, rest));
        let x = with_points(a, points);
        let y = with_points(b, all);
        let front = with_points(a, rest);
        let other = with_points(b, restated_points(kernel, metric, rest));
        assert forall|id: Seq<char>| #[trigger] x.contains_key(id) == y.contains_key(id) by {
            assert(front.contains_key(id) == other.contains_key(id));
        }
        assert forall|id: Seq<char>| #[trigger] x.contains_key(id) implies y[id] == (PointView {
            vector: y[id].vector,
            ..x[id]
        }) by {
            if id != points.last().id {
                assert(front.contains_key(id));
            }
        }
    }
}

proof fn lemma_same_without(
    a: Map<Seq<char>, PointView>,
    b: Map<Seq<char>, PointView>,
    ids: Seq<Seq<char>>,
)
    requires
        same_entries(a, b),
    ensures
        same_entries(without_points(a, ids), without_points(b, ids)),
    decreases ids.len(),
{
    if ids.len() > 0 {
        let rest = ids.drop_last();
        lemma_same_without(a, b, rest);
        let x = without_points(a, ids);
        let y = without_points(b, ids);
        let front = without_points(a, rest);
        let other = without_points(b, rest);
        assert forall|id: Seq<char>| #[trigger] x.contains_key(id) == y.contains_key(id) by {
            assert(front.contains_key(id) == other.contains_key(id));
        }
        assert forall|id: Seq<char>| #[trigger] x.contains_key(id) implies y[id] == (PointView {
            vector: y[id].vector,
            ..x[id]
        }) by {
            assert(front.contains_key(id));
        }
    }
}

/// A commit whose frame is in the log is held by the files.
proof fn lemma_commit_is_durable<K: Kernel>(
    kernel: K,
    disk: DiskView,
    v: PersistedView,
    mutation: Mutation,
    after: PersistedView,
)
    requires
        durable(kernel, disk, v),
        loggable(v.collection, mutation),
        after.collection == mutated(v.collection, mutation),
        after.dirty == v.dirty.union(touched(mutation).to_set()),
        after.graph == v.graph,
        after.catalog == v.catalog,
    ensures
        durable(
            kernel,
            DiskView {
                log: disk.log + frame(record_of(v.collection, mutation)->Ok_0),
                ..disk
            },
            after,
        ),
{
    let config = v.collection.config;
    let start = start_of(config, disk.segment)->Ok_0;
    let w = reopened(kernel, config, disk)->Ok_0.0;
    let payload = record_of(v.collection, mutation)->Ok_0;
    let more = frame(payload);
    let log = disk.log + more;
    lemma_log_extends(kernel, start.collection, start.dirty, disk.log, more, 0);
    assert(record_of(w.collection, mutation) == record_of(v.collection, mutation));
    assert(loggable(w.collection, mutation));
    law_logged_commit_is_replayed(kernel, w.collection, mutation);
    assert(log.subrange(disk.log.len() as int, log.len() as int) =~= more);
    assert(stands_at(log, disk.log.len() as int, more));
    lemma_whole_frame(kernel, w.collection, w.dirty, log, disk.log.len() as int, payload);
    let next = mutated(w.collection, restated(kernel, config.metric, mutation));
    match mutation {
        Mutation::Write(points) => {
            lemma_same_with(
                kernel,
                config.metric,
                v.collection.points,
                w.collection.points,
                points,
            );
        },
        Mutation::Remove(ids) => {
            lemma_same_without(v.collection.points, w.collection.points, ids);
        },
    }
    assert(same_points(after.collection, next));
}

/// An acknowledged batch is held by the files: with its frame in the log, opening them
/// gives the collection with the batch.
pub proof fn law_upserts_are_durable<K: Kernel>(
    kernel: K,
    disk: DiskView,
    v: PersistedView,
    batch: Seq<UpsertView>,
)
    requires
        durable(kernel, disk, v),
        upsert_commit(kernel, v, batch) is Ok,
        forall|i: int| 0 <= i < batch.len() ==> ascending((#[trigger] batch[i]).metadata),
    ensures
        ({
            let commit = upsert_commit(kernel, v, batch)->Ok_0;
            durable(kernel, DiskView { log: disk.log + commit.frame, ..disk }, commit.after)
        }),
{
    law_upserts_are_logged_commits(kernel, v, batch);
    let sequence = (v.collection.sequence + 1) as u64;
    let points = crate::collection::prepared_batch(
        kernel,
        v.collection.config,
        batch,
        sequence,
    )->Ok_0;
    let after = upsert_commit(kernel, v, batch)->Ok_0.after;
    lemma_commit_is_durable(kernel, disk, v, Mutation::Write(points), after);
}

/// An acknowledged deletion is held by the files.
pub proof fn law_deletions_are_durable<K: Kernel>(
    kernel: K,
    disk: DiskView,
    v: PersistedView,
    ids: Seq<Seq<char>>,
)
    requires
        durable(kernel, disk, v),
        delete_commit(v, ids) is Ok,
    ensures
        ({
            let commit = delete_commit(v, ids)->Ok_0;
            durable(kernel, DiskView { log: disk.log + commit.frame, ..disk }, commit.after)
        }),
{
    law_deletions_are_logged_commits(v, ids);
    let after = delete_commit(v, ids)->Ok_0.after;
    lemma_commit_is_durable(kernel, disk, v, Mutation::Remove(ids), after);
}

/// A frame that was cut short behind the log changes nothing of what the files hold: it
/// is found where the log ends and is to be cut off.
pub proof fn law_torn_frames_are_cut_off<K: Kernel>(
    kernel: K,
    disk: DiskView,
    v: PersistedView,
    payload: Seq<u8>,
    cut: int,
)
    requires
        durable(kernel, disk, v),
        payload.len() <= MAX_FRAME_BYTES,
        0 <= cut < frame(payload).len(),
    ensures
        reopened(
            kernel,
            v.collection.config,
            DiskView { log: disk.log + frame(payload).subrange(0, cut), ..disk },
        ) == reopened(kernel, v.collection.config, disk),
{
    let config = v.collection.config;
    let start = start_of(config, disk.segment)->Ok_0;
    let w = reopened(kernel, config, disk)->Ok_0.0;
    let torn = frame(payload).subrange(0, cut);
    let log = disk.log + torn;
    lemma_log_extends(kernel, start.collection, start.dirty, disk.log, torn, 0);
    assert(log.subrange(disk.log.len() as int, log.len() as int) =~= torn);
    lemma_torn_frame(kernel, w.collection, w.dirty, log, disk.log.len() as int, payload);
}

/// What the segment of a flush gives a collection to start from is the collection.
proof fn lemma_segment_holds<K: Kernel>(
    kernel: K,
    v: PersistedView,
    s: SnapshotView,
    p: PreparedView,
)
    requires
        v.collection.valid(),
        v.collection.no_newer(),
        snapshot_of(v, s),
        flushed(kernel, s) == Ok::<PreparedView, ErrorView>(p),
        indexed(s, p),
        p.bytes.len() <= usize::MAX,
    ensures
        start_of(v.collection.config, Some((p.sequence, p.bytes))) == Ok::<
            PersistedView,
            ErrorView,
        >(
            PersistedView {
                collection: v.collection,
                dirty: Set::empty(),
                graph: Some(p.graph),
                catalog: Some(p.catalog),
            },
        ),
{
    let segment = SegmentView {
        config: s.config,
        sequence: s.sequence,
        points: s.points,
        graph: p.graph,
    };
    lemma_flush_readable(kernel, v, s, p);
    law_segment_survives(segment);
    law_snapshots_are_restored(v.collection, s.points);
}

/// A flushed collection is held by the files, whether or not the log has been emptied
/// behind the new manifest.
pub proof fn law_flushes_are_durable<K: Kernel>(
    kernel: K,
    disk: DiskView,
    v: PersistedView,
    s: SnapshotView,
    p: PreparedView,
)
    requires
        durable(kernel, disk, v),
        v.collection.valid(),
        v.collection.no_newer(),
        snapshot_of(v, s),
        flushed(kernel, s) == Ok::<PreparedView, ErrorView>(p),
        indexed(s, p),
        p.bytes.len() <= usize::MAX,
    ensures
        durable(
            kernel,
            DiskView { segment: Some((p.sequence, p.bytes)), log: seq![] },
            published(v, p),
        ),
        durable(
            kernel,
            DiskView { segment: Some((p.sequence, p.bytes)), log: disk.log },
            published(v, p),
        ),
{
    assert(disk.log + history_log(v.collection, seq![]) =~= disk.log);
    law_overlapped_flushes_are_durable(kernel, disk, v, v, s, p, seq![]);
    lemma_segment_holds(kernel, v, s, p);
    assert(same_points(v.collection, v.collection));
}

/// A flush that is published after later commits is held by the files: the segment has
/// what was there when it was begun, and the log, which is kept, what came since.
pub proof fn law_overlapped_flushes_are_durable<K: Kernel>(
    kernel: K,
    disk: DiskView,
    then: PersistedView,
    now: PersistedView,
    s: SnapshotView,
    p: PreparedView,
    later: Seq<Mutation>,
)
    requires
        durable(kernel, disk, then),
        then.collection.valid(),
        then.collection.no_newer(),
        snapshot_of(then, s),
        flushed(kernel, s) == Ok::<PreparedView, ErrorView>(p),
        indexed(s, p),
        p.bytes.len() <= usize::MAX,
        all_loggable(then.collection, later),
        now.collection == history(then.collection, later),
        history_ids(Set::empty(), later).subset_of(now.dirty),
    ensures
        durable(
            kernel,
            DiskView {
                segment: Some((p.sequence, p.bytes)),
                log: disk.log + history_log(then.collection, later),
            },
            published(now, p),
        ),
{
    let c = then.collection;
    let config = c.config;
    let start = start_of(config, disk.segment)->Ok_0;
    let none = Set::<Seq<char>>::empty();
    let more = history_log(c, later);
    let log = disk.log + more;
    lemma_segment_holds(kernel, then, s, p);
    lemma_old_log_is_ignored(
        kernel,
        start.collection,
        start.dirty,
        disk.log,
        more,
        0,
        c,
        none,
    );
    assert(log.subrange(disk.log.len() as int, log.len() as int) =~= more);
    lemma_history_read(kernel, c, none, later, log, disk.log.len() as int);
    law_restated_history_is_alike(kernel, c, later);
    crate::persistence::reopening::lemma_history_sequence(c, later);
    let read = history(c, restated_all(kernel, config.metric, later));
    assert(recovered(kernel, c, none, log, 0) == Ok::<Recovery, ErrorView>(
        Recovery {
            collection: read,
            dirty: history_ids(none, later),
            valid_length: log.len() as int,
        },
    ));
    assert(same_points(now.collection, read));
    if later.len() == 0 {
        assert(history_ids(none, later) == none);
    }
}

} // verus!
