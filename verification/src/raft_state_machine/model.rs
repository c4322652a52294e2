//! What a replicated shard holds, and what entries, snapshots and journals make of it.
use crate::collection::{
    listing, prepared_batch, restored, views, with_points, without_points, CollectionConfig,
    CollectionView, Point, PointView,
};
use crate::error::{ErrorView, Result};
use crate::hnsw::codec::corrupt;
use crate::hnsw::model::{built, GraphView, HnswConfig};
use crate::ledger::{responses, Responses, Settled, SettledView};
use crate::metadata_index::{catalog_of, Catalog};
use crate::metric::Kernel;
use crate::persistence::flush::graph_points;
use crate::persistence::wal::ids_of;
use crate::persistence::PersistedView;
use crate::raft_storage::{
    CommandView, EntryView, LogId, Membership, MembershipView, PayloadView, ResponseView,
    ShardCommand, ShardResponse,
};
use crate::text::decimal;
use vstd::prelude::*;

verus! {

/// A membership and the entry that set it.
#[derive(Debug, PartialEq, Eq)]
pub struct StoredMembership {
    pub log_id: Option<LogId>,
    pub membership: Membership,
}

/// A membership and its entry, as contracts see it.
pub struct StoredMembershipView {
    pub log_id: Option<LogId>,
    pub membership: MembershipView,
}

impl View for StoredMembership {
    type V = StoredMembershipView;

    open spec fn view(&self) -> StoredMembershipView {
        StoredMembershipView { log_id: self.log_id, membership: self.membership@ }
    }
}

impl Clone for StoredMembership {
    fn clone(&self) -> (copy: StoredMembership)
        ensures
            copy@ == self@,
    {
        StoredMembership { log_id: self.log_id, membership: self.membership.clone() }
    }
}

/// No members, set by no entry.
pub open spec fn no_members() -> StoredMembershipView {
    StoredMembershipView {
        log_id: None,
        membership: MembershipView { configs: seq![], nodes: seq![] },
    }
}

/// An applied entry: what was asked for and, of a command, what became of it.
#[derive(Debug, PartialEq)]
pub enum AppliedPayload {
    Blank,
    Command { command: ShardCommand, response: ShardResponse },
    Membership(Membership),
}

/// A record of the state journal.
#[derive(Debug, PartialEq)]
pub struct AppliedRecord {
    pub log_id: LogId,
    pub payload: AppliedPayload,
}

/// What a record does, as contracts see it.
pub enum AppliedPayloadView {
    Blank,
    Command { command: CommandView, response: ResponseView },
    Membership(MembershipView),
}

/// A record, as contracts see it.
pub struct AppliedView {
    pub log_id: LogId,
    pub payload: AppliedPayloadView,
}

impl View for AppliedPayload {
    type V = AppliedPayloadView;

    open spec fn view(&self) -> AppliedPayloadView {
        match *self {
            AppliedPayload::Blank => AppliedPayloadView::Blank,
            AppliedPayload::Command { command, response } => AppliedPayloadView::Command {
                command: command@,
                response: response@,
            },
            AppliedPayload::Membership(membership) => AppliedPayloadView::Membership(membership@),
        }
    }
}

impl View for AppliedRecord {
    type V = AppliedView;

    open spec fn view(&self) -> AppliedView {
        AppliedView { log_id: self.log_id, payload: self.payload@ }
    }
}

/// What a shard holds, to be carried to another member or kept in place of the log.
#[derive(Debug, PartialEq)]
pub struct StateSnapshot {
    pub config: CollectionConfig,
    pub points: Vec<Point>,
    pub collection_sequence: u64,
    pub last_applied: Option<LogId>,
    pub membership: StoredMembership,
    pub dedup: Vec<Settled>,
}

/// What a snapshot holds, as contracts see it.
pub struct StateSnapshotView {
    pub config: CollectionConfig,
    pub points: Seq<PointView>,
    pub collection_sequence: u64,
    pub last_applied: Option<LogId>,
    pub membership: StoredMembershipView,
    pub dedup: Seq<SettledView>,
}

impl View for StateSnapshot {
    type V = StateSnapshotView;

    open spec fn view(&self) -> StateSnapshotView {
        StateSnapshotView {
            config: self.config,
            points: views(self.points@),
            collection_sequence: self.collection_sequence,
            last_applied: self.last_applied,
            membership: self.membership@,
            dedup: views(self.dedup@),
        }
    }
}

/// What a snapshot is of.
#[derive(Debug, PartialEq, Eq)]
pub struct SnapshotMeta {
    pub last_log_id: Option<LogId>,
    pub last_membership: StoredMembership,
    pub snapshot_id: String,
}

/// What a snapshot is of, as contracts see it.
pub struct SnapshotMetaView {
    pub last_log_id: Option<LogId>,
    pub last_membership: StoredMembershipView,
    pub snapshot_id: Seq<char>,
}

impl View for SnapshotMeta {
    type V = SnapshotMetaView;

    open spec fn view(&self) -> SnapshotMetaView {
        SnapshotMetaView {
            last_log_id: self.last_log_id,
            last_membership: self.last_membership@,
            snapshot_id: self.snapshot_id@,
        }
    }
}

impl Clone for SnapshotMeta {
    fn clone(&self) -> (copy: SnapshotMeta)
        ensures
            copy@ == self@,
    {
        SnapshotMeta {
            last_log_id: self.last_log_id,
            last_membership: self.last_membership.clone(),
            snapshot_id: self.snapshot_id.clone(),
        }
    }
}

/// A snapshot as it is stored: what it is of, its bytes, and a checksum of both.
#[derive(Debug, PartialEq, Eq)]
pub struct StoredSnapshot {
    pub meta: SnapshotMeta,
    pub data: Vec<u8>,
    pub checksum: Option<u32>,
}

/// A stored snapshot, as contracts see it.
pub struct StoredSnapshotView {
    pub meta: SnapshotMetaView,
    pub data: Seq<u8>,
    pub checksum: Option<u32>,
}

impl View for StoredSnapshot {
    type V = StoredSnapshotView;

    open spec fn view(&self) -> StoredSnapshotView {
        StoredSnapshotView { meta: self.meta@, data: self.data@, checksum: self.checksum }
    }
}

/// What a replicated shard holds: the points with their graph and metadata as of
/// the last indexing, how far the log is applied, the members, the settled requests
/// and the last snapshot.
pub struct ShardView {
    pub data: PersistedView,
    pub last_applied: Option<LogId>,
    pub membership: StoredMembershipView,
    pub settled: Responses,
    pub snapshot: Option<StoredSnapshotView>,
}

/// How the graph of a shard is built.
pub open spec fn shard_graph_config() -> HnswConfig {
    HnswConfig { m: 32, ef_construction: 400 }
}

/// The graph and the metadata index of points, or why there is none.
pub open spec fn indexed<K: Kernel>(
    kernel: K,
    config: CollectionConfig,
    points: Seq<PointView>,
) -> core::result::Result<(GraphView, Catalog), ErrorView> {
    match built(
        kernel,
        config.dimension,
        config.metric,
        shard_graph_config(),
        graph_points(points),
    ) {
        Err(error) => Err(error),
        Ok(graph) => Ok((graph, catalog_of(points, points.len() as int))),
    }
}

/// What becomes of a command that was not settled before.
pub open spec fn judged<K: Kernel>(
    kernel: K,
    collection: CollectionView,
    command: CommandView,
) -> ResponseView {
    if collection.sequence == u64::MAX {
        ResponseView::Rejected { message: "collection sequence overflow"@ }
    } else {
        let sequence = (collection.sequence + 1) as u64;
        match command {
            CommandView::Upsert { points, .. } => match prepared_batch(
                kernel,
                collection.config,
                points,
                sequence,
            ) {
                Ok(_) => ResponseView::Applied { sequence },
                Err(error) => ResponseView::Rejected { message: error.message() },
            },
            CommandView::Delete { ids, .. } => if ids.len() == 0 || exists|i: int|
                0 <= i < ids.len() && (#[trigger] ids[i]).len() == 0 {
                ResponseView::Rejected { message: "delete IDs must be non-empty"@ }
            } else {
                ResponseView::Applied { sequence }
            },
        }
    }
}

/// What is recorded of an entry, and what its client is told. A command that was
/// settled before is told what it was told then.
pub open spec fn prepared_payload<K: Kernel>(
    kernel: K,
    before: ShardView,
    entry: EntryView,
) -> (AppliedPayloadView, ResponseView) {
    let now = ResponseView::Applied { sequence: before.data.collection.sequence };
    match entry.payload {
        PayloadView::Blank => (AppliedPayloadView::Blank, now),
        PayloadView::Membership(membership) => (AppliedPayloadView::Membership(membership), now),
        PayloadView::Normal(command) => {
            let id = command.identity();
            let response = if before.settled.contains_key(id) {
                before.settled[id]
            } else {
                judged(kernel, before.data.collection, command)
            };
            (AppliedPayloadView::Command { command, response }, response)
        },
    }
}

/// The record of an entry.
pub open spec fn record_of<K: Kernel>(kernel: K, before: ShardView, entry: EntryView) -> AppliedView {
    AppliedView { log_id: entry.log_id, payload: prepared_payload(kernel, before, entry).0 }
}

/// What a command that was not settled before changes. The IDs that it names count
/// as changed even where it turns out that it cannot be carried out.
pub open spec fn carried_out<K: Kernel>(
    kernel: K,
    before: PersistedView,
    command: CommandView,
    sequence: u64,
) -> (PersistedView, Option<ErrorView>) {
    let c = before.collection;
    match command {
        CommandView::Upsert { points, .. } => {
            let dirty = before.dirty.union(ids_of(points).to_set());
            match prepared_batch(kernel, c.config, points, sequence) {
                Err(error) => (PersistedView { dirty, ..before }, Some(error)),
                Ok(batch) => (
                    PersistedView {
                        collection: CollectionView {
                            config: c.config,
                            points: with_points(c.points, batch),
                            sequence,
                        },
                        dirty,
                        ..before
                    },
                    None,
                ),
            }
        },
        CommandView::Delete { ids, .. } => (
            PersistedView {
                collection: CollectionView {
                    config: c.config,
                    points: without_points(c.points, ids),
                    sequence,
                },
                dirty: before.dirty.union(ids.to_set()),
                ..before
            },
            None,
        ),
    }
}

/// What a record makes of a shard, and what goes wrong, if anything does.
pub open spec fn after_record<K: Kernel>(kernel: K, before: ShardView, record: AppliedView) -> (
    ShardView,
    Option<ErrorView>,
) {
    let moved = ShardView { last_applied: Some(record.log_id), ..before };
    match record.payload {
        AppliedPayloadView::Blank => (moved, None),
        AppliedPayloadView::Membership(membership) => (
            ShardView {
                membership: StoredMembershipView { log_id: Some(record.log_id), membership },
                ..moved
            },
            None,
        ),
        AppliedPayloadView::Command { command, response } => {
            let id = command.identity();
            if before.settled.contains_key(id) {
                (moved, None)
            } else {
                let settled = before.settled.insert(id, response);
                match response {
                    ResponseView::Rejected { .. } => (ShardView { settled, ..moved }, None),
                    ResponseView::Applied { sequence } => {
                        let (data, fault) = carried_out(kernel, before.data, command, sequence);
                        match fault {
                            Some(error) => (ShardView { data, ..before }, Some(error)),
                            None => (ShardView { data, settled, ..moved }, None),
                        }
                    },
                }
            }
        },
    }
}

/// A record that the state already has.
pub open spec fn is_old(last_applied: Option<LogId>, record: AppliedView) -> bool {
    last_applied matches Some(applied) && record.log_id.index <= applied.index
}

/// What the records of a journal make of a shard; those that it already has are
/// passed over.
pub open spec fn replayed_records<K: Kernel>(
    kernel: K,
    start: ShardView,
    records: Seq<AppliedView>,
) -> core::result::Result<ShardView, ErrorView>
    decreases records.len(),
{
    if records.len() == 0 {
        Ok(start)
    } else {
        match replayed_records(kernel, start, records.drop_last()) {
            Err(error) => Err(error),
            Ok(done) => if is_old(done.last_applied, records.last()) {
                Ok(done)
            } else {
                match after_record(kernel, done, records.last()) {
                    (after, None) => Ok(after),
                    (_, Some(error)) => Err(error),
                }
            },
        }
    }
}

/// A shard that holds nothing.
pub open spec fn empty_shard(config: CollectionConfig) -> ShardView {
    ShardView {
        data: PersistedView {
            collection: CollectionView { config, points: Map::empty(), sequence: 0 },
            dirty: Set::empty(),
            graph: None,
            catalog: None,
        },
        last_applied: None,
        membership: no_members(),
        settled: Map::empty(),
        snapshot: None,
    }
}

/// What a snapshot makes of a shard.
pub open spec fn adopted<K: Kernel>(
    kernel: K,
    state: StateSnapshotView,
    stored: StoredSnapshotView,
) -> core::result::Result<ShardView, ErrorView> {
    match indexed(kernel, state.config, state.points) {
        Err(error) => Err(error),
        Ok((graph, catalog)) => match restored(state.points, state.collection_sequence) {
            Err(error) => Err(error),
            Ok(points) => Ok(
                ShardView {
                    data: PersistedView {
                        collection: CollectionView {
                            config: state.config,
                            points,
                            sequence: state.collection_sequence,
                        },
                        dirty: Set::empty(),
                        graph: Some(graph),
                        catalog: Some(catalog),
                    },
                    last_applied: state.last_applied,
                    membership: state.membership,
                    settled: responses(state.dedup),
                    snapshot: Some(stored),
                },
            ),
        },
    }
}

/// The shard that a snapshot and a journal hold.
pub open spec fn reopened<K: Kernel>(
    kernel: K,
    config: CollectionConfig,
    snapshot: Option<(StoredSnapshotView, StateSnapshotView)>,
    records: Seq<AppliedView>,
) -> core::result::Result<ShardView, ErrorView> {
    if config.dimension == 0 {
        Err(ErrorView::InvalidConfig("dimension must be greater than zero"@))
    } else {
        match snapshot {
            None => replayed_records(kernel, empty_shard(config), records),
            Some((stored, state)) => if state.config != config {
                corrupt("Raft snapshot collection configuration mismatch"@)
            } else {
                match adopted(kernel, state, stored) {
                    Err(error) => Err(error),
                    Ok(start) => replayed_records(kernel, start, records),
                }
            },
        }
    }
}

/// The name of a snapshot: how far it goes, and what tells it from others that go
/// as far.
pub open spec fn snapshot_name(last_applied: Option<LogId>, nonce: Seq<char>) -> Seq<char> {
    decimal(
        match last_applied {
            Some(log_id) => log_id.index as nat,
            None => 0,
        },
    ) + "-"@ + nonce
}

/// What a snapshot of a shard is of.
pub open spec fn meta_of(shard: ShardView, nonce: Seq<char>) -> SnapshotMetaView {
    SnapshotMetaView {
        last_log_id: shard.last_applied,
        last_membership: shard.membership,
        snapshot_id: snapshot_name(shard.last_applied, nonce),
    }
}

/// A snapshot holds what a shard holds.
pub open spec fn taken(shard: ShardView, state: StateSnapshotView) -> bool {
    &&& state.config == shard.data.collection.config
    &&& listing(shard.data.collection.points, state.points)
    &&& state.collection_sequence == shard.data.collection.sequence
    &&& state.last_applied == shard.last_applied
    &&& state.membership == shard.membership
    &&& responses(state.dedup) == shard.settled
}

/// A shard with a fresh graph and metadata index of everything.
pub open spec fn reindexed(shard: ShardView, graph: GraphView, catalog: Catalog) -> ShardView {
    ShardView {
        data: PersistedView {
            collection: shard.data.collection,
            dirty: Set::empty(),
            graph: Some(graph),
            catalog: Some(catalog),
        },
        ..shard
    }
}

} // verus!
