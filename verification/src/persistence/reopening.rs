//! What a collection is when it is opened again.
use crate::bytes::{le, lemma_stands_split, stands_at};
use crate::collection::{law_snapshots_are_restored, sound, CollectionConfig, CollectionView};
use crate::error::ErrorView;
use crate::metric::Kernel;
use crate::persistence::consistency::{
    law_flush_is_in_step, lemma_deleted_beside, lemma_stays_in_step, lemma_written_beside,
    same_beside,
};
use crate::persistence::flush::{
    flushed, indexed, published, snapshot_of, PreparedView, SnapshotView,
};
use crate::persistence::laws::{
    alike, all_loggable, history, history_ids, history_log, law_committed_mutations_survive,
    law_restated_history_is_alike, law_segment_survives, lemma_history_read, lemma_record_front,
    lemma_stored_readable, lemma_torn_frame, lemma_whole_frame, loggable, readable_point,
    readable_segment, record_of, restated_all, touched, Mutation,
};
use crate::persistence::record::all_encoded;
use crate::persistence::segment::{matched, SegmentView};
use crate::persistence::wal::{
    encoded_id, encoded_point, frame, recovered, replayed, Recovery, MAX_FRAME_BYTES,
};
use crate::persistence::{in_step, opened, started, PersistedView, StoredSegment};
use vstd::prelude::*;

verus! {

/// Commits in a row bring the sequence on by their number, and keep the settings.
pub(crate) proof fn lemma_history_sequence(c: CollectionView, mutations: Seq<Mutation>)
    requires
        all_loggable(c, mutations),
    ensures
        history(c, mutations).sequence == c.sequence + mutations.len(),
        history(c, mutations).config == c.config,
    decreases mutations.len(),
{
    if mutations.len() > 0 {
        lemma_history_sequence(c, mutations.drop_last());
    }
}

/// A record of a commit begins with an operation and the sequence of the commit.
proof fn lemma_record_sequence(c: CollectionView, mutation: Mutation)
    requires
        loggable(c, mutation),
    ensures
        ({
            let payload = record_of(c, mutation)->Ok_0;
            let first = crate::bytes::number(crate::bytes::Format::Record, payload, 0, 1);
            &&& first is Ok
            &&& first->Ok_0.1 == 1
            &&& crate::bytes::number(crate::bytes::Format::Record, payload, 1, 8) == Ok::<
                (nat, int),
                ErrorView,
            >(((c.sequence + 1) as nat, 9))
        }),
{
    let payload = record_of(c, mutation)->Ok_0;
    let sequence = (c.sequence + 1) as u64;
    match mutation {
        Mutation::Write(points) => {
            let front = seq![1u8] + le(sequence as nat, 8);
            let count = le(points.len(), 4);
            let body = all_encoded(points, encoded_point())->Ok_0;
            assert((front + count) + body =~= front + (count + body));
            lemma_record_front(payload, 1, sequence, count + body);
        },
        Mutation::Remove(ids) => {
            let front = seq![2u8] + le(sequence as nat, 8);
            let count = le(ids.len(), 4);
            let body = all_encoded(ids, encoded_id())->Ok_0;
            assert((front + count) + body =~= front + (count + body));
            lemma_record_front(payload, 2, sequence, count + body);
        },
    }
}

/// The frames of commits that a collection already holds change nothing.
proof fn lemma_old_frames<K: Kernel>(
    kernel: K,
    held: CollectionView,
    dirty: Set<Seq<char>>,
    start: CollectionView,
    older: Seq<Mutation>,
    log: Seq<u8>,
    at: int,
)
    requires
        all_loggable(start, older),
        history(start, older).sequence <= held.sequence,
        0 <= at,
        stands_at(log, at, history_log(start, older)),
    ensures
        recovered(kernel, held, dirty, log, at) == recovered(
            kernel,
            held,
            dirty,
            log,
            at + history_log(start, older).len(),
        ),
    decreases older.len(),
{
    if older.len() > 0 {
        let rest = older.drop_last();
        let before = history(start, rest);
        let payload = record_of(before, older.last())->Ok_0;
        let front = history_log(start, rest);
        lemma_stands_split(log, at, front, frame(payload));
        lemma_old_frames(kernel, held, dirty, start, rest, log, at);
        lemma_record_sequence(before, older.last());
        lemma_whole_frame(kernel, held, dirty, log, at + front.len(), payload);
        let replay = replayed(kernel, held, payload)->Ok_0;
        assert(dirty.union(replay.changed.to_set()) =~= dirty);
    }
}

/// A collection that was never flushed opens as its commits left it, with vectors
/// prepared once more and without a graph, wherever its log was cut.
pub proof fn law_logged_collection_reopens<K: Kernel>(
    kernel: K,
    config: CollectionConfig,
    mutations: Seq<Mutation>,
    payload: Seq<u8>,
    cut: int,
)
    requires
        config.dimension > 0,
        all_loggable(CollectionView { config, points: Map::empty(), sequence: 0 }, mutations),
        payload.len() <= MAX_FRAME_BYTES,
        0 <= cut < frame(payload).len(),
    ensures
        ({
            let empty = CollectionView { config, points: Map::empty(), sequence: 0 };
            let log = history_log(empty, mutations) + frame(payload).subrange(0, cut);
            let after = history(empty, restated_all(kernel, config.metric, mutations));
            &&& opened(kernel, config, None, log) == Ok::<(PersistedView, int), ErrorView>(
                (
                    PersistedView {
                        collection: after,
                        dirty: history_ids(Set::empty(), mutations),
                        graph: None,
                        catalog: None,
                    },
                    history_log(empty, mutations).len() as int,
                ),
            )
            &&& alike(kernel, history(empty, mutations), after)
        }),
{
    let empty = CollectionView { config, points: Map::empty(), sequence: 0 };
    law_committed_mutations_survive(kernel, empty, Set::empty(), mutations, payload, cut);
}

/// A segment that a flush has made is read back.
pub(crate) proof fn lemma_flush_readable<K: Kernel>(
    kernel: K,
    v: PersistedView,
    s: SnapshotView,
    p: PreparedView,
)
    requires
        v.collection.valid(),
        snapshot_of(v, s),
        flushed(kernel, s) == Ok::<PreparedView, ErrorView>(p),
        indexed(s, p),
    ensures
        readable_segment(
            SegmentView {
                config: s.config,
                sequence: s.sequence,
                points: s.points,
                graph: p.graph,
            },
        ),
{
    let segment = SegmentView {
        config: s.config,
        sequence: s.sequence,
        points: s.points,
        graph: p.graph,
    };
    assert forall|i: int| 0 <= i < s.points.len() implies sound(s.config, #[trigger] s.points[i]) by {
        assert(v.collection.points.contains_key(s.points[i].id));
    }
    assert forall|i: int| 0 <= i < s.points.len() implies crate::metadata::ascending(
        (#[trigger] s.points[i]).metadata,
    ) by {
        assert(sound(s.config, s.points[i]));
    }
    lemma_stored_readable(s.points);
    assert forall|i: int| 0 <= i < s.points.len() implies readable_point(#[trigger] s.points[i])
        && s.points[i].vector.len() == s.config.dimension by {
        assert(sound(s.config, s.points[i]));
    }
    assert(matched(segment) is Ok);
}

/// A collection starts from the segment of a flush as the flush took it.
proof fn lemma_flush_started<K: Kernel>(
    kernel: K,
    v: PersistedView,
    s: SnapshotView,
    p: PreparedView,
    stored: StoredSegment,
)
    requires
        v.collection.valid(),
        v.collection.no_newer(),
        snapshot_of(v, s),
        flushed(kernel, s) == Ok::<PreparedView, ErrorView>(p),
        indexed(s, p),
        p.bytes.len() <= usize::MAX,
        stored.sequence == p.sequence,
        stored.bytes@ == p.bytes,
    ensures
        started(v.collection.config, Some(stored)) == Ok::<PersistedView, ErrorView>(
            PersistedView {
                collection: v.collection,
                dirty: Set::empty(),
                graph: Some(p.graph),
                catalog: Some(p.catalog),
            },
        ),
{
    let segment = SegmentView {
        config: s.config,
        sequence: s.sequence,
        points: s.points,
        graph: p.graph,
    };
    lemma_flush_readable(kernel, v, s, p);
    law_segment_survives(segment);
    law_snapshots_are_restored(v.collection, s.points);
}

/// Behind frames that a collection already has, the frames of commits are applied, and
/// a part of one more is cut off.
proof fn lemma_log_read<K: Kernel>(
    kernel: K,
    c: CollectionView,
    start: CollectionView,
    older: Seq<Mutation>,
    later: Seq<Mutation>,
    payload: Seq<u8>,
    cut: int,
)
    requires
        all_loggable(start, older),
        history(start, older).sequence <= c.sequence,
        all_loggable(c, later),
        payload.len() <= MAX_FRAME_BYTES,
        0 <= cut < frame(payload).len(),
    ensures
        ({
            let whole = history_log(start, older) + history_log(c, later);
            let log = whole + frame(payload).subrange(0, cut);
            recovered(kernel, c, Set::empty(), log, 0) == Ok::<Recovery, ErrorView>(
                Recovery {
                    collection: history(c, restated_all(kernel, c.config.metric, later)),
                    dirty: history_ids(Set::empty(), later),
                    valid_length: whole.len() as int,
                },
            )
        }),
{
    let old_part = history_log(start, older);
    let new_part = history_log(c, later);
    let whole = old_part + new_part;
    let torn = frame(payload).subrange(0, cut);
    let log = whole + torn;
    assert(log.subrange(0, old_part.len() as int) =~= old_part);
    assert(log.subrange(old_part.len() as int, whole.len() as int) =~= new_part);
    assert(log.subrange(whole.len() as int, log.len() as int) =~= torn);
    let none = Set::<Seq<char>>::empty();
    lemma_old_frames(kernel, c, none, start, older, log, 0);
    lemma_history_read(kernel, c, none, later, log, old_part.len() as int);
    let after = history(c, restated_all(kernel, c.config.metric, later));
    lemma_torn_frame(kernel, after, history_ids(none, later), log, whole.len() as int, payload);
}

/// A flushed collection opens as it was: the points of the segment as they are, what
/// was committed since as the log has it, with vectors prepared once more, and the
/// graph of the segment. The log may still hold the commits from before the flush, and
/// may be cut anywhere behind whole frames.
pub proof fn law_flushed_collection_reopens<K: Kernel>(
    kernel: K,
    v: PersistedView,
    s: SnapshotView,
    p: PreparedView,
    stored: StoredSegment,
    start: CollectionView,
    older: Seq<Mutation>,
    later: Seq<Mutation>,
    payload: Seq<u8>,
    cut: int,
)
    requires
        v.collection.valid(),
        v.collection.no_newer(),
        snapshot_of(v, s),
        flushed(kernel, s) == Ok::<PreparedView, ErrorView>(p),
        indexed(s, p),
        p.bytes.len() <= usize::MAX,
        stored.sequence == p.sequence,
        stored.bytes@ == p.bytes,
        all_loggable(start, older),
        history(start, older).sequence <= v.collection.sequence,
        all_loggable(v.collection, later),
        payload.len() <= MAX_FRAME_BYTES,
        0 <= cut < frame(payload).len(),
    ensures
        ({
            let whole = history_log(start, older) + history_log(v.collection, later);
            let log = whole + frame(payload).subrange(0, cut);
            let after = history(
                v.collection,
                restated_all(kernel, v.collection.config.metric, later),
            );
            &&& opened(kernel, v.collection.config, Some(stored), log) == Ok::<
                (PersistedView, int),
                ErrorView,
            >(
                (
                    PersistedView {
                        collection: after,
                        dirty: history_ids(Set::empty(), later),
                        graph: Some(p.graph),
                        catalog: Some(p.catalog),
                    },
                    whole.len() as int,
                ),
            )
            &&& alike(kernel, history(v.collection, later), after)
            &&& later.len() == 0 ==> after == v.collection
        }),
{
    let c = v.collection;
    lemma_flush_started(kernel, v, s, p, stored);
    lemma_log_read(kernel, c, start, older, later, payload, cut);
    law_restated_history_is_alike(kernel, c, later);
    assert(later.len() == 0 ==> restated_all(kernel, c.config.metric, later) =~= later);
}

/// Commits in a row change only the points that they touch.
proof fn lemma_history_beside(c: CollectionView, mutations: Seq<Mutation>)
    ensures
        same_beside(
            history(c, mutations).points,
            c.points,
            history_ids(Set::empty(), mutations),
        ),
    decreases mutations.len(),
{
    if mutations.len() > 0 {
        let rest = mutations.drop_last();
        let last = mutations.last();
        let before = history(c, rest);
        lemma_history_beside(c, rest);
        match last {
            Mutation::Write(points) => {
                lemma_written_beside(before.points, points);
            },
            Mutation::Remove(ids) => {
                lemma_deleted_beside(before.points, ids);
            },
        }
        let after = history(c, mutations).points;
        let ids = history_ids(Set::empty(), mutations);
        assert forall|id: Seq<char>| !ids.contains(id) implies {
            &&& #[trigger] after.contains_key(id) == c.points.contains_key(id)
            &&& after.contains_key(id) ==> after[id] == c.points[id]
        } by {
            assert(!touched(last).to_set().contains(id));
            assert(!history_ids(Set::empty(), rest).contains(id));
            assert(after.contains_key(id) == before.points.contains_key(id));
            assert(before.points.contains_key(id) == c.points.contains_key(id));
        }
    }
}

/// A segment that is published after later commits leaves the collection in step with
/// it, as long as the IDs of those commits still count as changed.
pub proof fn law_overlapped_flush_is_in_step(
    then: PersistedView,
    now: PersistedView,
    snapshot: SnapshotView,
    prepared: PreparedView,
    mutations: Seq<Mutation>,
)
    requires
        snapshot_of(then, snapshot),
        prepared.sequence == snapshot.sequence,
        prepared.catalog == crate::metadata_index::catalog_of(
            snapshot.points,
            snapshot.points.len() as int,
        ),
        indexed(snapshot, prepared),
        all_loggable(then.collection, mutations),
        now.collection == history(then.collection, mutations),
        history_ids(Set::empty(), mutations).subset_of(now.dirty),
    ensures
        in_step(published(now, prepared)),
        mutations.len() > 0 ==> published(now, prepared).dirty == now.dirty,
{
    law_flush_is_in_step(then, snapshot, prepared);
    lemma_history_sequence(then.collection, mutations);
    lemma_history_beside(then.collection, mutations);
    let base = published(then, prepared);
    let after = published(now, prepared);
    if mutations.len() == 0 {
        assert(after == PersistedView { collection: now.collection, ..base });
    } else {
        assert forall|id: Seq<char>| !after.dirty.contains(id) implies {
            &&& #[trigger] after.collection.points.contains_key(id)
                == base.collection.points.contains_key(id)
            &&& after.collection.points.contains_key(id) ==> after.collection.points[id]
                == base.collection.points[id]
        } by {
            assert(!history_ids(Set::empty(), mutations).contains(id));
        }
        lemma_stays_in_step(base, after);
    }
}

} // verus!
