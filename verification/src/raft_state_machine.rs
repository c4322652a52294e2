//! The state machine of a replicated shard.
//!
//! Entries of the log are judged, recorded in a journal and then applied, each
//! request once however often it comes. A snapshot stands for the log up to an
//! entry; opening a shard takes its snapshot and replays the journal behind it.
use crate::collection::{copy_vector, fits, views, Collection, CollectionConfig, Point};
use crate::error::{Error, ErrorView, Result};
use crate::hnsw::model::{empty_graph, grown_all, valid, HnswConfig};
use crate::hnsw::{graph_ids, point_views, HnswIndex};
use crate::ids::IdSet;
use crate::ledger::{responses, Ledger};
use crate::metadata_index::MetadataIndex;
use crate::metric::{lawful, Kernel};
use crate::persistence::flush::graph_points;
use crate::persistence::segment::point_ids;
use crate::persistence::wal::{add_ids, ids_of};
use crate::persistence::{in_step, PersistedView};
use crate::raft_storage::{
    Entry, EntryPayload, EntryView, LogId, Membership, ResponseView, ShardCommand, ShardResponse,
};
use laws::{
    law_adopted_is_in_step, law_prepared_records_apply, law_records_stay_in_step,
    law_reopened_is_in_step,
};
use model::{
    adopted, after_record, carried_out, empty_shard, indexed, judged, no_members, prepared_payload,
    record_of, reopened, replayed_records, shard_graph_config, AppliedPayload, AppliedRecord,
    AppliedView, ShardView, StateSnapshot, StateSnapshotView, StoredMembership, StoredSnapshot,
    StoredSnapshotView,
};
use vstd::prelude::*;
use vstd::slice::*;
use vstd::string::*;

pub mod filtered;
pub mod laws;
pub mod model;
pub mod search;
pub mod snapshot;

verus! {

/// A replicated shard.
pub struct DurableShardStateMachine {
    config: CollectionConfig,
    collection: Collection,
    index: Option<HnswIndex>,
    metadata_index: Option<MetadataIndex>,
    dirty_ids: IdSet,
    last_applied: Option<LogId>,
    membership: StoredMembership,
    dedup: Ledger,
    current_snapshot: Option<StoredSnapshot>,
}

impl View for DurableShardStateMachine {
    type V = ShardView;

    closed spec fn view(&self) -> ShardView {
        ShardView {
            data: PersistedView {
                collection: self.collection@,
                dirty: self.dirty_ids@,
                graph: match self.index {
                    Some(index) => Some(index@),
                    None => None,
                },
                catalog: match self.metadata_index {
                    Some(index) => Some(index@),
                    None => None,
                },
            },
            last_applied: self.last_applied,
            membership: self.membership@,
            settled: self.dedup@,
            snapshot: match self.current_snapshot {
                Some(stored) => Some(stored@),
                None => None,
            },
        }
    }
}

/// Points of which a graph was built have IDs, no two the same, and vectors of its
/// dimension.
proof fn lemma_grown_accepts<K: Kernel>(
    kernel: K,
    g: crate::hnsw::model::GraphView,
    points: Seq<(Seq<char>, Seq<u32>)>,
)
    requires
        grown_all(kernel, g, points) is Ok,
    ensures
        forall|i: int|
            0 <= i < points.len() ==> (#[trigger] points[i]).0.len() > 0 && points[i].1.len()
                == g.dimension,
    decreases points.len(),
{
    if points.len() > 0 {
        lemma_grown_accepts(kernel, g, points.drop_last());
        assert forall|i: int| 0 <= i < points.len() implies (#[trigger] points[i]).0.len() > 0
            && points[i].1.len() == g.dimension by {
            if i < points.len() - 1 {
                assert(points.drop_last()[i] == points[i]);
            }
        }
    }
}

/// Builds the graph and the metadata index of points.
fn build_indexes<K: Kernel>(kernel: &K, config: CollectionConfig, points: &Vec<Point>) -> (result:
    Result<(HnswIndex, MetadataIndex)>)
    requires
        lawful(*kernel),
    ensures
        match indexed(*kernel, config, views(points@)) {
            Ok((graph, catalog)) => {
                &&& result is Ok
                &&& result->Ok_0.0@ == graph
                &&& result->Ok_0.0.wf()
                &&& result->Ok_0.1@ == catalog
                &&& result->Ok_0.1.wf()
                &&& graph.dimension == config.dimension
                &&& graph.metric == config.metric
                &&& graph_ids(graph) == point_ids(views(points@))
                &&& forall|i: int|
                    0 <= i < points@.len() ==> (#[trigger] points@[i]).id@.len() > 0
                        && points@[i].vector@.len() == config.dimension
                &&& forall|i: int, j: int|
                    0 <= i < j < points@.len() ==> (#[trigger] points@[i]).id@ != (
                    #[trigger] points@[j]).id@
            },
            Err(error) => result is Err && result->Err_0@ == error,
        },
{
    let mut pairs: Vec<(String, Vec<u32>)> = Vec::new();
    let mut i: usize = 0;
    while i < points.len()
        invariant
            i <= points@.len(),
            pairs@.len() == i,
            forall|j: int|
                0 <= j < i ==> (#[trigger] pairs@[j]).0@ == points@[j].id@ && pairs@[j].1@
                    == points@[j].vector@,
        decreases points.len() - i,
    {
        pairs.push((points[i].id.clone(), copy_vector(&points[i].vector)));
        i = i + 1;
    }
    let ghost list = views(points@);
    assert(point_views(pairs@) =~= graph_points(list));
    let graph_config = HnswConfig { m: 32, ef_construction: 400 };
    let index = HnswIndex::build(kernel, config.dimension, config.metric, graph_config, pairs)?;
    proof {
        crate::hnsw::lemma_built_shape(
            *kernel,
            config.dimension,
            config.metric,
            shard_graph_config(),
            graph_points(list),
        );
        lemma_grown_accepts(
            *kernel,
            empty_graph(config.dimension, config.metric, shard_graph_config()),
            graph_points(list),
        );
        assert forall|j: int| 0 <= j < points@.len() implies (#[trigger] points@[j]).id@.len() > 0
            && points@[j].vector@.len() == config.dimension by {
            assert(graph_points(list)[j].0 == points@[j].id@);
        }
        index.lemma_valid();
        assert forall|a: int, b: int| 0 <= a < b < points@.len() implies (
        #[trigger] points@[a]).id@ != (#[trigger] points@[b]).id@ by {
            assert(index@.nodes[a].id != index@.nodes[b].id);
        }
        assert forall|id: Seq<char>| graph_ids(index@).contains(id) <==> point_ids(list).contains(
            id,
        ) by {
            if graph_ids(index@).contains(id) {
                let j = choose|j: int|
                    0 <= j < index@.nodes.len() && (#[trigger] index@.nodes[j]).id == id;
                assert(list[j].id == id);
            }
            if point_ids(list).contains(id) {
                let j = choose|j: int| 0 <= j < list.len() && (#[trigger] list[j]).id == id;
                assert(index@.nodes[j].id == id);
            }
        }
        assert(graph_ids(index@) =~= point_ids(list));
    }
    Ok((index, MetadataIndex::build(points)))
}

/// Client and request of a command.
fn command_identity(command: &ShardCommand) -> (identity: (&String, u64))
    ensures
        (identity.0@, identity.1) == command@.identity(),
{
    match command {
        ShardCommand::Upsert { client_id, request_id, .. } => (client_id, *request_id),
        ShardCommand::Delete { client_id, request_id, .. } => (client_id, *request_id),
    }
}

impl DurableShardStateMachine {
    /// The parts are well formed, and the graph is one of this shard's shape.
    pub closed spec fn wf(&self) -> bool {
        &&& self.collection.wf()
        &&& self.collection@.config == self.config
        &&& self.dirty_ids.wf()
        &&& self.dedup.wf()
        &&& self.index matches Some(index) ==> {
            &&& index.wf()
            &&& index@.dimension == self.config.dimension
            &&& index@.metric == self.config.metric
        }
        &&& self.metadata_index matches Some(index) ==> index.wf()
        &&& self.index is Some == self.metadata_index is Some
    }

    /// A shard holds finitely many points, and finitely many of them have changed since
    /// its graph was built.
    pub proof fn law_contents_are_finite(&self)
        requires
            self.wf(),
        ensures
            self@.data.dirty.finite(),
            self@.data.collection.points.dom().finite(),
    {
        self.dirty_ids.lemma_order();
        self.collection.lemma_valid();
    }

    /// The graph of a shard is valid and of the shape of its points.
    pub proof fn law_graph_is_valid(&self)
        requires
            self.wf(),
        ensures
            self@.data.graph matches Some(graph) ==> {
                &&& valid(graph)
                &&& graph.nodes.len() <= usize::MAX
                &&& graph.dimension == self@.data.collection.config.dimension
                &&& graph.metric == self@.data.collection.config.metric
            },
    {
        if let Some(index) = &self.index {
            index.lemma_valid();
        }
    }

    /// What is recorded of an entry, and what its client is told. Nothing changes.
    fn prepare_payload<K: Kernel>(&self, kernel: &K, entry: &Entry) -> (prepared: (
        AppliedPayload,
        ShardResponse,
    ))
        requires
            self.wf(),
            lawful(*kernel),
        ensures
            prepared.0@ == prepared_payload(*kernel, self@, entry@).0,
            prepared.1@ == prepared_payload(*kernel, self@, entry@).1,
    {
        let latest: u64 = self.collection.latest_sequence();
        match &entry.payload {
            EntryPayload::Blank => (
                AppliedPayload::Blank,
                ShardResponse::Applied { sequence: latest },
            ),
            EntryPayload::Membership(membership) => (
                AppliedPayload::Membership(membership.clone()),
                ShardResponse::Applied { sequence: latest },
            ),
            EntryPayload::Normal(command) => {
                let (client_id, request_id) = command_identity(command);
                let response = match self.dedup.get(client_id.as_str(), request_id) {
                    Some(known) => known.clone(),
                    None => self.judge(kernel, command),
                };
                let told = response.clone();
                (AppliedPayload::Command { command: command.clone(), response }, told)
            },
        }
    }

    /// What becomes of a command that was not settled before.
    fn judge<K: Kernel>(&self, kernel: &K, command: &ShardCommand) -> (response: ShardResponse)
        requires
            self.wf(),
            lawful(*kernel),
        ensures
            response@ == judged(*kernel, self@.data.collection, command@),
    {
        let latest: u64 = self.collection.latest_sequence();
        if latest == u64::MAX {
            return ShardResponse::Rejected { message: "collection sequence overflow".to_owned() };
        }
        let sequence: u64 = latest + 1;
        match command {
            ShardCommand::Upsert { points, .. } => {
                let copies = points.clone();
                assert(views(copies@) =~= views(points@));
                match self.collection.prepare_upsert(kernel, copies, sequence) {
                    Ok(_) => ShardResponse::Applied { sequence },
                    Err(error) => ShardResponse::Rejected { message: error.message() },
                }
            },
            ShardCommand::Delete { ids, .. } => if ids.len() == 0 || crate::sharding::any_empty(ids) {
                ShardResponse::Rejected { message: "delete IDs must be non-empty".to_owned() }
            } else {
                ShardResponse::Applied { sequence }
            },
        }
    }

    /// Carries out a command that was not settled before.
    fn carry_out<K: Kernel>(&mut self, kernel: &K, command: &ShardCommand, sequence: u64) -> (
    result: Result<()>)
        requires
            old(self).wf(),
            lawful(*kernel),
        ensures
            final(self).wf(),
            ({
                let (data, fault) = carried_out(*kernel, old(self)@.data, command@, sequence);
                &&& final(self)@ == (ShardView { data, ..old(self)@ })
                &&& match fault {
                    Some(error) => result is Err && result->Err_0@ == error,
                    None => result is Ok,
                }
            }),
    {
        let ghost before = self@;
        match command {
            ShardCommand::Upsert { points, .. } => {
                let mut ids: Vec<String> = Vec::new();
                let mut i: usize = 0;
                while i < points.len()
                    invariant
                        i <= points@.len(),
                        ids@.len() == i,
                        forall|j: int| 0 <= j < i ==> (#[trigger] ids@[j])@ == points@[j].id@,
                    decreases points.len() - i,
                {
                    ids.push(points[i].id.clone());
                    i = i + 1;
                }
                assert(views(ids@) =~= ids_of(views(points@)));
                add_ids(&mut self.dirty_ids, &ids);
                let copies = points.clone();
                assert(views(copies@) =~= views(points@));
                let prepared = self.collection.prepare_upsert(kernel, copies, sequence)?;
                proof {
                    assert forall|j: int| 0 <= j < prepared@.len() implies fits(
                        self.collection@.config,
                        (#[trigger] prepared@[j])@,
                    ) by {
                        assert(views(prepared@)[j] == prepared@[j]@);
                    }
                }
                self.collection.apply_prepared_upsert(prepared, sequence);
                Ok(())
            },
            ShardCommand::Delete { ids, .. } => {
                add_ids(&mut self.dirty_ids, ids);
                self.collection.apply_delete_at(ids, sequence);
                Ok(())
            },
        }
    }

    /// Applies a record.
    fn replay_record<K: Kernel>(&mut self, kernel: &K, record: AppliedRecord) -> (result: Result<
        (),
    >)
        requires
            old(self).wf(),
            lawful(*kernel),
        ensures
            final(self).wf(),
            ({
                let (after, fault) = after_record(*kernel, old(self)@, record@);
                &&& final(self)@ == after
                &&& match fault {
                    Some(error) => result is Err && result->Err_0@ == error,
                    None => result is Ok,
                }
            }),
    {
        let log_id = record.log_id;
        match record.payload {
            AppliedPayload::Blank => {},
            AppliedPayload::Membership(membership) => {
                self.membership = StoredMembership { log_id: Some(log_id), membership };
            },
            AppliedPayload::Command { command, response } => {
                let (client_id, request_id) = command_identity(&command);
                let known: bool = self.dedup.get(client_id.as_str(), request_id).is_some();
                if !known {
                    match &response {
                        ShardResponse::Applied { sequence } => {
                            self.carry_out(kernel, &command, *sequence)?;
                        },
                        ShardResponse::Rejected { .. } => {},
                    }
                    self.dedup.insert(client_id.clone(), request_id, response);
                }
            },
        }
        self.last_applied = Some(log_id);
        Ok(())
    }
}

/// A shard opened from its snapshot and its journal.
impl DurableShardStateMachine {
    fn empty(config: CollectionConfig) -> (result: Result<DurableShardStateMachine>)
        ensures
            match result {
                Ok(shard) => config.dimension > 0 && shard.wf() && shard@ == empty_shard(config),
                Err(error) => config.dimension == 0 && error@ == ErrorView::InvalidConfig(
                    "dimension must be greater than zero"@,
                ),
            },
    {
        let collection = Collection::new(config)?;
        let membership = StoredMembership {
            log_id: None,
            membership: Membership { configs: Vec::new(), nodes: Vec::new() },
        };
        assert(membership@.membership.configs =~= no_members().membership.configs);
        assert(membership@.membership.nodes =~= no_members().membership.nodes);
        Ok(
            DurableShardStateMachine {
                config,
                collection,
                index: None,
                metadata_index: None,
                dirty_ids: IdSet::new(),
                last_applied: None,
                membership,
                dedup: Ledger::new(),
                current_snapshot: None,
            },
        )
    }

    /// The shard of a snapshot.
    fn adopt<K: Kernel>(kernel: &K, state: StateSnapshot, stored: StoredSnapshot) -> (result:
        Result<DurableShardStateMachine>)
        requires
            lawful(*kernel),
            state.config.dimension > 0,
        ensures
            match adopted(*kernel, state@, stored@) {
                Ok(shard) => {
                    &&& result is Ok
                    &&& result->Ok_0.wf()
                    &&& result->Ok_0@ == shard
                    &&& in_step(shard.data)
                },
                Err(error) => result is Err && result->Err_0@ == error,
            },
    {
        proof {
            assert(state.points.len() <= usize::MAX);
            if adopted(*kernel, state@, stored@) is Ok {
                law_adopted_is_in_step(*kernel, state@, stored@);
            }
        }
        let (index, metadata_index) = build_indexes(kernel, state.config, &state.points)?;
        let mut shard = DurableShardStateMachine::empty(state.config)?;
        shard.collection.restore_snapshot(state.points, state.collection_sequence)?;
        shard.index = Some(index);
        shard.metadata_index = Some(metadata_index);
        shard.last_applied = state.last_applied;
        shard.membership = state.membership;
        shard.dedup = Ledger::from_entries(&state.dedup);
        shard.current_snapshot = Some(stored);
        Ok(shard)
    }

    /// Opens a shard from its snapshot, if there is one, and the records of its
    /// journal. Records that the snapshot already has are passed over.
    pub fn open<K: Kernel>(
        kernel: &K,
        config: CollectionConfig,
        snapshot: Option<(StoredSnapshot, StateSnapshot)>,
        records: Vec<AppliedRecord>,
    ) -> (result: Result<DurableShardStateMachine>)
        requires
            lawful(*kernel),
        ensures
            match reopened(*kernel, config, snapshot_view(snapshot), views(records@)) {
                Ok(shard) => {
                    &&& result is Ok
                    &&& result->Ok_0.wf()
                    &&& result->Ok_0@ == shard
                    &&& in_step(shard.data)
                },
                Err(error) => result is Err && result->Err_0@ == error,
            },
    {
        proof {
            assert(snapshot matches Some((_, state)) ==> state.points.len() <= usize::MAX);
            if reopened(*kernel, config, snapshot_view(snapshot), views(records@)) is Ok {
                law_reopened_is_in_step(*kernel, config, snapshot_view(snapshot), views(records@));
            }
        }
        let mut shard = DurableShardStateMachine::empty(config)?;
        match snapshot {
            None => {},
            Some((stored, state)) => {
                if state.config != config {
                    return Err(Error::corrupt("Raft snapshot collection configuration mismatch"));
                }
                shard = DurableShardStateMachine::adopt(kernel, state, stored)?;
            },
        }
        shard.replay(kernel, records)?;
        Ok(shard)
    }

    /// Applies the records of a journal that the shard does not have yet.
    fn replay<K: Kernel>(&mut self, kernel: &K, records: Vec<AppliedRecord>) -> (result: Result<()>)
        requires
            old(self).wf(),
            lawful(*kernel),
        ensures
            match replayed_records(*kernel, old(self)@, views(records@)) {
                Ok(shard) => result is Ok && final(self).wf() && final(self)@ == shard,
                Err(error) => result is Err && result->Err_0@ == error,
            },
    {
        let ghost start = self@;
        let ghost given = records@;
        let ghost all = views(records@);
        let mut rest = records;
        let mut reversed: Vec<AppliedRecord> = Vec::new();
        while rest.len() > 0
            invariant
                rest@.len() + reversed@.len() == given.len(),
                forall|i: int| 0 <= i < rest@.len() ==> #[trigger] rest@[i] == given[i],
                forall|i: int|
                    0 <= i < reversed@.len() ==> #[trigger] reversed@[i] == given[given.len() - 1
                        - i],
            decreases rest.len(),
        {
            match rest.pop() {
                Some(record) => {
                    reversed.push(record);
                },
                None => {},
            }
        }
        assert(all.subrange(0, 0) =~= Seq::empty());
        while reversed.len() > 0
            invariant
                lawful(*kernel),
                self.wf(),
                start == old(self)@,
                all == views(records@),
                given == records@,
                reversed@.len() <= given.len(),
                forall|i: int|
                    0 <= i < reversed@.len() ==> #[trigger] reversed@[i] == given[given.len() - 1
                        - i],
                replayed_records(*kernel, start, all.subrange(0, given.len() - reversed@.len()))
                    == Ok::<ShardView, ErrorView>(self@),
            decreases reversed.len(),
        {
            let ghost done = given.len() - reversed@.len();
            match reversed.pop() {
                Some(record) => {
                    let ghost next = all.subrange(0, done + 1);
                    proof {
                        assert(record == given[done]);
                        assert(next.drop_last() =~= all.subrange(0, done));
                        assert(next.last() == record@);
                        if replayed_records(*kernel, start, next) is Err {
                            lemma_replay_error(*kernel, start, all, done + 1);
                        }
                    }
                    let old_record: bool = match self.last_applied {
                        Some(applied) => record.log_id.index <= applied.index,
                        None => false,
                    };
                    if !old_record {
                        self.replay_record(kernel, record)?;
                    }
                },
                None => {},
            }
        }
        assert(all.subrange(0, given.len() as int) =~= all);
        Ok(())
    }
}

/// A snapshot and what it holds, as they are seen.
pub open spec fn snapshot_view(snapshot: Option<(StoredSnapshot, StateSnapshot)>) -> Option<
    (StoredSnapshotView, StateSnapshotView),
> {
    match snapshot {
        Some((stored, state)) => Some((stored@, state@)),
        None => None,
    }
}

proof fn lemma_replay_error<K: Kernel>(
    kernel: K,
    start: ShardView,
    records: Seq<AppliedView>,
    count: int,
)
    requires
        0 <= count <= records.len(),
        replayed_records(kernel, start, records.subrange(0, count)) is Err,
    ensures
        replayed_records(kernel, start, records) == replayed_records(
            kernel,
            start,
            records.subrange(0, count),
        ),
    decreases records.len() - count,
{
    if count == records.len() {
        assert(records.subrange(0, count) =~= records);
    } else {
        assert(records.subrange(0, count + 1).drop_last() =~= records.subrange(0, count));
        lemma_replay_error(kernel, start, records, count + 1);
    }
}

/// What entries make of a shard when journaling each of them comes out as given:
/// the shard, the responses so far, and what stopped the run, if anything did.
pub open spec fn run<K: Kernel>(
    kernel: K,
    before: ShardView,
    entries: Seq<EntryView>,
    journaled: Seq<Result<()>>,
) -> (ShardView, Seq<ResponseView>, Option<ErrorView>)
    decreases entries.len(),
{
    if entries.len() == 0 {
        (before, seq![], None)
    } else {
        let (now, told, fault) = run(kernel, before, entries.drop_last(), journaled);
        if fault is Some {
            (now, told, fault)
        } else {
            let entry = entries.last();
            match journaled[entries.len() - 1] {
                Err(error) => (now, told, Some(error@)),
                Ok(_) => {
                    let (after, trouble) = after_record(
                        kernel,
                        now,
                        record_of(kernel, now, entry),
                    );
                    match trouble {
                        Some(error) => (after, told, Some(error)),
                        None => (
                            after,
                            told.push(prepared_payload(kernel, now, entry).1),
                            None,
                        ),
                    }
                },
            }
        }
    }
}

/// The journal was handed the records of the entries, up to the first that it did
/// not take, and answered as given.
pub open spec fn handed<K: Kernel, J: Fn(&AppliedRecord) -> Result<()>>(
    kernel: K,
    before: ShardView,
    entries: Seq<EntryView>,
    journal: J,
    journaled: Seq<Result<()>>,
) -> bool {
    &&& journaled.len() == entries.len()
    &&& forall|i: int|
        #![trigger journaled[i]]
        0 <= i < entries.len() && run(kernel, before, entries.subrange(0, i), journaled).2 is None
            ==> accepted(
            journal,
            record_of(
                kernel,
                run(kernel, before, entries.subrange(0, i), journaled).0,
                entries[i],
            ),
            journaled[i],
        )
}

/// The journal was handed a record and answered as given.
pub open spec fn accepted<J: Fn(&AppliedRecord) -> Result<()>>(
    journal: J,
    record: AppliedView,
    answer: Result<()>,
) -> bool {
    exists|handed: &AppliedRecord| #[trigger]
        journal.ensures((handed,), answer) && handed@ == record
}

/// What the answers of the journal to later entries are does not matter.
pub(crate) proof fn lemma_run_prefix<K: Kernel>(
    kernel: K,
    before: ShardView,
    entries: Seq<EntryView>,
    first: Seq<Result<()>>,
    second: Seq<Result<()>>,
)
    requires
        forall|i: int| 0 <= i < entries.len() ==> #[trigger] first[i] == second[i],
    ensures
        run(kernel, before, entries, first) == run(kernel, before, entries, second),
    decreases entries.len(),
{
    if entries.len() > 0 {
        lemma_run_prefix(kernel, before, entries.drop_last(), first, second);
        assert(first[entries.len() - 1] == second[entries.len() - 1]);
    }
}

/// A run that was stopped stays stopped.
proof fn lemma_run_stopped<K: Kernel>(
    kernel: K,
    before: ShardView,
    entries: Seq<EntryView>,
    journaled: Seq<Result<()>>,
    count: int,
)
    requires
        0 <= count <= entries.len(),
        run(kernel, before, entries.subrange(0, count), journaled).2 is Some,
    ensures
        run(kernel, before, entries, journaled) == run(
            kernel,
            before,
            entries.subrange(0, count),
            journaled,
        ),
    decreases entries.len() - count,
{
    if count == entries.len() {
        assert(entries.subrange(0, count) =~= entries);
    } else {
        assert(entries.subrange(0, count + 1).drop_last() =~= entries.subrange(0, count));
        lemma_run_stopped(kernel, before, entries, journaled, count + 1);
    }
}

/// The journal may be handed a record: it is that of an entry whose turn has come, with
/// every entry before it taken by the journal and applied.
pub open spec fn due<K: Kernel, J: Fn(&AppliedRecord) -> Result<()>>(
    kernel: K,
    before: ShardView,
    entries: Seq<EntryView>,
    journal: J,
    record: AppliedView,
) -> bool {
    exists|i: int, journaled: Seq<Result<()>>|
        {
            &&& 0 <= i < entries.len()
            &&& #[trigger] handed(kernel, before, entries.subrange(0, i), journal, journaled)
            &&& run(kernel, before, entries.subrange(0, i), journaled).2 is None
            &&& record == record_of(
                kernel,
                run(kernel, before, entries.subrange(0, i), journaled).0,
                entries[i],
            )
        }
}

impl DurableShardStateMachine {
    /// Applies an entry of the log: it is judged, its record handed to the journal,
    /// once, and applied where the journal has taken it.
    pub fn apply_entry<K: Kernel, J: FnOnce(&AppliedRecord) -> Result<()>>(
        &mut self,
        kernel: &K,
        entry: &Entry,
        journal: J,
    ) -> (result: Result<ShardResponse>)
        requires
            old(self).wf(),
            lawful(*kernel),
            forall|record: &AppliedRecord|
                record@ == record_of(*kernel, old(self)@, entry@) ==> #[trigger] journal.requires(
                    (record,),
                ),
        ensures
            final(self).wf(),
            in_step(old(self)@.data) ==> in_step(final(self)@.data),
            exists|record: &AppliedRecord, answer: Result<()>| #[trigger]
                journal.ensures((record,), answer) && record@ == record_of(
                    *kernel,
                    old(self)@,
                    entry@,
                ) && match answer {
                    Err(error) => final(self)@ == old(self)@ && result == Err::<
                        ShardResponse,
                        Error,
                    >(error),
                    Ok(_) => {
                        &&& final(self)@ == after_record(*kernel, old(self)@, record@).0
                        &&& result is Ok
                        &&& result->Ok_0@ == prepared_payload(*kernel, old(self)@, entry@).1
                    },
                },
    {
        let ghost before = self@;
        let (payload, response) = self.prepare_payload(kernel, entry);
        let record = AppliedRecord { log_id: entry.log_id, payload };
        assert(record@ == record_of(*kernel, before, entry@));
        let answer = journal(&record);
        assert(journal.ensures((&record,), answer));
        match answer {
            Err(error) => Err(error),
            Ok(_) => {
                proof {
                    law_prepared_records_apply(*kernel, before, entry@);
                    if in_step(before.data) {
                        law_records_stay_in_step(*kernel, before, record@);
                    }
                }
                self.replay_record(kernel, record)?;
                Ok(response)
            },
        }
    }

    /// Applies entries of the log in order: each is judged, handed to the journal
    /// as a record, and applied once the journal has taken it.
    pub fn apply<K: Kernel, J: Fn(&AppliedRecord) -> Result<()>>(
        &mut self,
        kernel: &K,
        entries: &Vec<Entry>,
        journal: J,
    ) -> (result: Result<Vec<ShardResponse>>)
        requires
            old(self).wf(),
            lawful(*kernel),
            forall|record: &AppliedRecord|
                due(*kernel, old(self)@, views(entries@), journal, record@)
                    ==> #[trigger] journal.requires((record,)),
        ensures
            final(self).wf(),
            in_step(old(self)@.data) ==> in_step(final(self)@.data),
            exists|journaled: Seq<Result<()>>|
                {
                    &&& #[trigger] handed(
                        *kernel,
                        old(self)@,
                        views(entries@),
                        journal,
                        journaled,
                    )
                    &&& ran(
                        run(*kernel, old(self)@, views(entries@), journaled),
                        final(self)@,
                        result,
                    )
                },
    {
        let ghost start = self@;
        let ghost all = views(entries@);
        let ghost mut journaled: Seq<Result<()>> = Seq::empty();
        let mut responses: Vec<ShardResponse> = Vec::new();
        let mut i: usize = 0;
        proof {
            assert(all.subrange(0, 0) =~= Seq::empty());
            assert(views(responses@) =~= Seq::empty());
        }
        while i < entries.len()
            invariant
                lawful(*kernel),
                self.wf(),
                start == old(self)@,
                in_step(start.data) ==> in_step(self@.data),
                all == views(entries@),
                i <= entries@.len(),
                forall|record: &AppliedRecord|
                    due(*kernel, start, all, journal, record@) ==> #[trigger] journal.requires(
                        (record,),
                    ),
                handed(*kernel, start, all.subrange(0, i as int), journal, journaled),
                run(*kernel, start, all.subrange(0, i as int), journaled) == (
                    self@,
                    views(responses@),
                    None::<ErrorView>,
                ),
            decreases entries.len() - i,
        {
            let ghost now = self@;
            let ghost told = responses@;
            let entry = &entries[i];
            let ghost record = record_of(*kernel, now, entry@);
            let hand = |record: &AppliedRecord| -> (answer: Result<()>)
                requires
                    journal.requires((record,)),
                ensures
                    journal.ensures((record,), answer),
                { journal(record) };
            assert(due(*kernel, start, all, journal, record));
            let outcome = self.apply_entry(kernel, entry, hand);
            let ghost answer = choose|answer: Result<()>|
                #![trigger accepted(journal, record, answer)]
                accepted(journal, record, answer) && match answer {
                    Err(error) => self@ == now && outcome == Err::<ShardResponse, Error>(error),
                    Ok(_) => {
                        &&& self@ == after_record(*kernel, now, record).0
                        &&& outcome is Ok
                        &&& outcome->Ok_0@ == prepared_payload(*kernel, now, entry@).1
                    },
                };
            let ghost next = all.subrange(0, i + 1);
            let ghost longer = journaled.push(answer);
            proof {
                let (handed_over, given) = choose|handed_over: &AppliedRecord, given: Result<()>|
                    #[trigger] hand.ensures((handed_over,), given) && handed_over@ == record
                        && match given {
                        Err(error) => self@ == now && outcome == Err::<ShardResponse, Error>(
                            error,
                        ),
                        Ok(_) => {
                            &&& self@ == after_record(*kernel, now, record).0
                            &&& outcome is Ok
                            &&& outcome->Ok_0@ == prepared_payload(*kernel, now, entry@).1
                        },
                    };
                assert(journal.ensures((handed_over,), given));
                assert(accepted(journal, record, given));
                law_prepared_records_apply(*kernel, now, entry@);
                assert(next.drop_last() =~= all.subrange(0, i as int));
                assert(next.last() == entry@);
                lemma_run_prefix(*kernel, start, all.subrange(0, i as int), journaled, longer);
                assert forall|x: int|
                    #![trigger longer[x]]
                    0 <= x < next.len() && run(
                        *kernel,
                        start,
                        next.subrange(0, x),
                        longer,
                    ).2 is None implies accepted(
                    journal,
                    record_of(
                        *kernel,
                        run(*kernel, start, next.subrange(0, x), longer).0,
                        next[x],
                    ),
                    longer[x],
                ) by {
                    assert(next.subrange(0, x) =~= all.subrange(0, x));
                    if x < i {
                        let shorter = all.subrange(0, i as int);
                        assert(shorter.subrange(0, x) =~= all.subrange(0, x));
                        lemma_run_prefix(*kernel, start, all.subrange(0, x), journaled, longer);
                        assert(longer[x] == journaled[x]);
                        assert(shorter[x] == next[x]);
                    }
                }
                assert(handed(*kernel, start, next, journal, longer));
            }
            match outcome {
                Err(error) => {
                    proof {
                        lemma_stopped_run(*kernel, start, all, journal, longer, i + 1);
                    }
                    return Err(error);
                },
                Ok(response) => {
                    responses.push(response);
                    assert(views(responses@) =~= views(told).push(response@));
                },
            }
            proof {
                journaled = longer;
            }
            i = i + 1;
        }
        proof {
            assert(all.subrange(0, i as int) =~= all);
            assert(handed(*kernel, start, all, journal, journaled));
        }
        Ok(responses)
    }
}

/// A result and a shard as a run leaves them.
pub open spec fn ran(
    run: (ShardView, Seq<ResponseView>, Option<ErrorView>),
    after: ShardView,
    result: Result<Vec<ShardResponse>>,
) -> bool {
    &&& after == run.0
    &&& match run.2 {
        Some(error) => result is Err && result->Err_0@ == error,
        None => result is Ok && views(result->Ok_0@) == run.1,
    }
}

/// A run that stopped behind `count` entries is a run of all of them, whatever the
/// journal would have answered to the others.
proof fn lemma_stopped_run<K: Kernel, J: Fn(&AppliedRecord) -> Result<()>>(
    kernel: K,
    before: ShardView,
    entries: Seq<EntryView>,
    journal: J,
    journaled: Seq<Result<()>>,
    count: int,
)
    requires
        0 < count <= entries.len(),
        handed(kernel, before, entries.subrange(0, count), journal, journaled),
        run(kernel, before, entries.subrange(0, count), journaled).2 is Some,
    ensures
        exists|all: Seq<Result<()>>|
            {
                &&& #[trigger] handed(kernel, before, entries, journal, all)
                &&& run(kernel, before, entries, all) == run(
                    kernel,
                    before,
                    entries.subrange(0, count),
                    journaled,
                )
            },
{
    let rest: Seq<Result<()>> = Seq::new((entries.len() - count) as nat, |i: int| Ok(()));
    let all = journaled + rest;
    let part = entries.subrange(0, count);
    lemma_run_prefix(kernel, before, part, journaled, all);
    lemma_run_stopped(kernel, before, entries, all, count);
    assert forall|x: int|
        #![trigger all[x]]
        0 <= x < entries.len() && run(
            kernel,
            before,
            entries.subrange(0, x),
            all,
        ).2 is None implies accepted(
        journal,
        record_of(kernel, run(kernel, before, entries.subrange(0, x), all).0, entries[x]),
        all[x],
    ) by {
        if x < count {
            assert(part.subrange(0, x) =~= entries.subrange(0, x));
            lemma_run_prefix(kernel, before, entries.subrange(0, x), journaled, all);
            assert(all[x] == journaled[x]);
            assert(part[x] == entries[x]);
        } else {
            assert(entries.subrange(0, x).subrange(0, count) =~= part);
            lemma_run_stopped(kernel, before, entries.subrange(0, x), all, count);
        }
    }
    assert(handed(kernel, before, entries, journal, all));
}

} // verus!
