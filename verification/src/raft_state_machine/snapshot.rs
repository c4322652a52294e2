//! Snapshots of a shard: their bytes, taking one and installing one.
use crate::bytes::{
    le, le_value, lemma_byte_ranges, lemma_le_round_trip, number_from, put_bytes, put_number,
};
use crate::checksum::{checksum, crc32c, law_checksum_exposes_a_changed_byte};
use crate::error::{Error, ErrorView, Result};
use crate::hnsw::codec::corrupt;
use crate::hnsw::model::GraphView;
use crate::hnsw::HnswIndex;
use crate::metadata_index::{Catalog, MetadataIndex};
use crate::metric::{lawful, Kernel};
use crate::persistence::in_step;
use crate::raft_state_machine::laws::law_reindexed_is_in_step;
use crate::raft_state_machine::model::{
    adopted, indexed, meta_of, reindexed, taken, ShardView, SnapshotMeta, SnapshotMetaView,
    StateSnapshot, StateSnapshotView, StoredSnapshot, StoredSnapshotView,
};
use crate::raft_state_machine::{build_indexes, DurableShardStateMachine};
use crate::text::decimal_text;
use vstd::prelude::*;
use vstd::slice::*;
use vstd::string::*;

verus! {

/// The version in a snapshot.
pub const SNAPSHOT_VERSION: u8 = 1;

/// The first bytes of a snapshot.
pub open spec fn snapshot_magic() -> Seq<u8> {
    seq![0x46u8, 0x56u8, 0x53u8, 0x53u8]
}

/// The bytes of a snapshot with a payload.
pub open spec fn snapshot_bytes(payload: Seq<u8>) -> Seq<u8> {
    snapshot_magic() + seq![SNAPSHOT_VERSION] + le(payload.len(), 8) + payload + le(
        checksum(payload) as nat,
        4,
    )
}

/// The payload of a snapshot, or why it is refused. Bytes that do not begin as a
/// snapshot does are a bare payload.
pub open spec fn snapshot_payload(bytes: Seq<u8>) -> core::result::Result<Seq<u8>, ErrorView> {
    if bytes.len() < 4 || bytes.subrange(0, 4) != snapshot_magic() {
        Ok(bytes)
    } else if bytes.len() < 17 || bytes[4] != SNAPSHOT_VERSION {
        corrupt("invalid Raft snapshot header"@)
    } else {
        let length = le_value(bytes.subrange(5, 13)) as int;
        if length > usize::MAX {
            corrupt("Raft snapshot length is too large"@)
        } else if 17 + length > usize::MAX {
            corrupt("Raft snapshot length overflow"@)
        } else if bytes.len() != 17 + length {
            corrupt("truncated Raft snapshot"@)
        } else if checksum(bytes.subrange(13, 13 + length)) != le_value(
            bytes.subrange(13 + length, 17 + length),
        ) {
            corrupt("Raft snapshot checksum mismatch"@)
        } else {
            Ok(bytes.subrange(13, 13 + length))
        }
    }
}

/// The bytes of a snapshot with a payload.
pub fn encode_state_snapshot(payload: &Vec<u8>) -> (bytes: Vec<u8>)
    ensures
        bytes@ == snapshot_bytes(payload@),
{
    let mut output: Vec<u8> = Vec::new();
    output.push(0x46);
    output.push(0x56);
    output.push(0x53);
    output.push(0x53);
    assert(output@ =~= snapshot_magic());
    output.push(SNAPSHOT_VERSION);
    assert(output@ =~= snapshot_magic() + seq![SNAPSHOT_VERSION]);
    put_number(&mut output, payload.len() as u64, 8);
    put_bytes(&mut output, payload.as_slice());
    put_number(&mut output, crc32c(payload.as_slice()) as u64, 4);
    output
}

/// The payload of a snapshot.
pub fn decode_state_snapshot(bytes: &[u8]) -> (result: Result<&[u8]>)
    ensures
        match snapshot_payload(bytes@) {
            Ok(payload) => result is Ok && result->Ok_0@ == payload,
            Err(error) => result is Err && result->Err_0@ == error,
        },
{
    if bytes.len() < 4 {
        return Ok(bytes);
    }
    proof {
        let front = bytes@.subrange(0, 4);
        assert(front[0] == bytes@[0] && front[1] == bytes@[1] && front[2] == bytes@[2] && front[3]
            == bytes@[3]);
        let wanted = snapshot_magic();
        assert(wanted[0] == 0x46 && wanted[1] == 0x56 && wanted[2] == 0x53 && wanted[3] == 0x53);
    }
    if bytes[0] != 0x46 || bytes[1] != 0x56 || bytes[2] != 0x53 || bytes[3] != 0x53 {
        return Ok(bytes);
    }
    assert(bytes@.subrange(0, 4) =~= snapshot_magic());
    if bytes.len() < 17 || bytes[4] != SNAPSHOT_VERSION {
        return Err(Error::corrupt("invalid Raft snapshot header"));
    }
    proof {
        lemma_byte_ranges();
    }
    let length: u64 = number_from(slice_subrange(bytes, 5, 13));
    if length > usize::MAX as u64 {
        return Err(Error::corrupt("Raft snapshot length is too large"));
    }
    let length: usize = length as usize;
    if length > usize::MAX - 17 {
        return Err(Error::corrupt("Raft snapshot length overflow"));
    }
    if bytes.len() != 17 + length {
        return Err(Error::corrupt("truncated Raft snapshot"));
    }
    let payload = slice_subrange(bytes, 13, 13 + length);
    let stored: u64 = number_from(slice_subrange(bytes, 13 + length, 17 + length));
    if crc32c(payload) as u64 != stored {
        return Err(Error::corrupt("Raft snapshot checksum mismatch"));
    }
    Ok(payload)
}

/// A snapshot is read back as it was written.
pub proof fn law_snapshot_is_read_back(payload: Seq<u8>)
    requires
        payload.len() + 17 <= usize::MAX,
    ensures
        snapshot_payload(snapshot_bytes(payload)) == Ok::<Seq<u8>, ErrorView>(payload),
{
    let bytes = snapshot_bytes(payload);
    let size = le(payload.len(), 8);
    let sum = le(checksum(payload) as nat, 4);
    lemma_byte_ranges();
    lemma_le_round_trip(payload.len(), 8);
    lemma_le_round_trip(checksum(payload) as nat, 4);
    let end = 13 + payload.len() as int;
    assert(bytes.subrange(0, 4) =~= snapshot_magic());
    assert(bytes.subrange(5, 13) =~= size);
    assert(bytes.subrange(13, end) =~= payload);
    assert(bytes.subrange(end, end + 4) =~= sum);
}

/// A snapshot with a changed byte in its payload, or without its last bytes, is
/// refused.
pub proof fn law_damaged_snapshot_is_refused(payload: Seq<u8>, position: int, byte: u8, kept: int)
    requires
        payload.len() + 17 <= usize::MAX,
        0 <= position < payload.len(),
        byte != payload[position],
        4 <= kept < snapshot_bytes(payload).len(),
    ensures
        snapshot_payload(snapshot_bytes(payload).update(13 + position, byte)) == Err::<
            Seq<u8>,
            ErrorView,
        >(ErrorView::CorruptStorage("Raft snapshot checksum mismatch"@)),
        snapshot_payload(snapshot_bytes(payload).subrange(0, kept)) is Err,
{
    let whole = snapshot_bytes(payload);
    let size = le(payload.len(), 8);
    let sum = le(checksum(payload) as nat, 4);
    lemma_byte_ranges();
    lemma_le_round_trip(payload.len(), 8);
    lemma_le_round_trip(checksum(payload) as nat, 4);
    let end = 13 + payload.len() as int;
    let changed = whole.update(13 + position, byte);
    law_checksum_exposes_a_changed_byte(payload, position, byte);
    assert(changed.subrange(0, 4) =~= snapshot_magic());
    assert(changed.subrange(5, 13) =~= size);
    assert(changed.subrange(13, end) =~= payload.update(position, byte));
    assert(changed.subrange(end, end + 4) =~= sum);
    let short = whole.subrange(0, kept);
    assert(short.subrange(0, 4) =~= snapshot_magic());
    if kept >= 17 {
        assert(short.subrange(5, 13) =~= size);
    }
}

/// Checks the checksum of a stored snapshot, if it has one, against the bytes that
/// it was made of.
pub fn check_stored_snapshot(stored: &StoredSnapshot, sealed: &[u8]) -> (result: Result<()>)
    ensures
        stored.checksum matches Some(sum) && sum != checksum(sealed@) ==> result is Err
            && result->Err_0@ == ErrorView::CorruptStorage(
            "stored Raft snapshot checksum mismatch"@,
        ),
        !(stored.checksum matches Some(sum) && sum != checksum(sealed@)) ==> result is Ok,
{
    match stored.checksum {
        Some(sum) => if crc32c(sealed) != sum {
            Err(Error::corrupt("stored Raft snapshot checksum mismatch"))
        } else {
            Ok(())
        },
        None => Ok(()),
    }
}

/// A snapshot of a shard that is ready to be written, with the graph and the
/// metadata index of its points.
pub struct StagedSnapshot {
    state: StateSnapshot,
    index: HnswIndex,
    metadata_index: MetadataIndex,
}

impl StagedSnapshot {
    /// What the snapshot holds.
    pub closed spec fn holds(&self) -> StateSnapshotView {
        self.state@
    }

    /// The shard, with its snapshot's graph and metadata index.
    pub closed spec fn leads(&self, before: ShardView, after: ShardView) -> bool {
        after == reindexed(before, self.index@, self.metadata_index@)
    }

    /// Made for a shard.
    pub closed spec fn made_for<K: Kernel>(&self, kernel: K, shard: ShardView) -> bool {
        &&& taken(shard, self.state@)
        &&& self.index.wf()
        &&& self.index@.dimension == shard.data.collection.config.dimension
        &&& self.index@.metric == shard.data.collection.config.metric
        &&& self.metadata_index.wf()
        &&& indexed(kernel, self.state@.config, self.state@.points) == Ok::<(GraphView, Catalog), ErrorView>(
            (self.index@, self.metadata_index@),
        )
    }

    /// What the snapshot holds.
    pub fn state(&self) -> (state: &StateSnapshot)
        ensures
            state@ == self.holds(),
    {
        &self.state
    }
}

/// What taking a snapshot comes to: the shard's points cannot be indexed, or the
/// snapshot could not be written, and nothing changes; else the shard has the
/// snapshot and a fresh index.
pub open spec fn snapshot_outcome<K: Kernel>(
    kernel: K,
    before: ShardView,
    state: StateSnapshotView,
    meta: SnapshotMetaView,
    written: Result<(Vec<u8>, u32)>,
) -> core::result::Result<ShardView, ErrorView> {
    match indexed(kernel, state.config, state.points) {
        Err(error) => Err(error),
        Ok((graph, catalog)) => match written {
            Err(error) => Err(error@),
            Ok((data, sum)) => Ok(
                ShardView {
                    snapshot: Some(
                        StoredSnapshotView { meta, data: data@, checksum: Some(sum) },
                    ),
                    ..reindexed(before, graph, catalog)
                },
            ),
        },
    }
}

/// What installing a snapshot comes to, when writing it and emptying the journal
/// come out as given.
pub open spec fn installed<K: Kernel>(
    kernel: K,
    before: ShardView,
    state: StateSnapshotView,
    stored: StoredSnapshotView,
    written: Result<()>,
    emptied: Result<()>,
) -> core::result::Result<ShardView, ErrorView> {
    if state.config != before.data.collection.config {
        Err(ErrorView::Io("snapshot config mismatch"@))
    } else {
        match written {
            Err(error) => Err(error@),
            Ok(_) => match adopted(kernel, state, stored) {
                Err(error) => Err(error),
                Ok(after) => match emptied {
                    Err(error) => Err(error@),
                    Ok(_) => Ok(after),
                },
            },
        }
    }
}

impl DurableShardStateMachine {
    /// What a snapshot taken now is of.
    pub fn snapshot_meta(&self, nonce: &str) -> (meta: SnapshotMeta)
        ensures
            meta@ == meta_of(self@, nonce@),
    {
        let index: u64 = match self.last_applied {
            Some(log_id) => log_id.index,
            None => 0,
        };
        let mut snapshot_id = decimal_text(index);
        snapshot_id.append("-");
        snapshot_id.append(nonce);
        SnapshotMeta {
            last_log_id: self.last_applied,
            last_membership: self.membership.clone(),
            snapshot_id,
        }
    }

    /// Takes a snapshot, with the graph and the metadata index of its points.
    /// Nothing is changed.
    pub fn stage_snapshot<K: Kernel>(&self, kernel: &K) -> (result: Result<StagedSnapshot>)
        requires
            self.wf(),
            lawful(*kernel),
        ensures
            match result {
                Ok(staged) => staged.made_for(*kernel, self@),
                Err(error) => exists|state: StateSnapshotView|
                    #![trigger taken(self@, state)]
                    taken(self@, state) && indexed(*kernel, state.config, state.points) == Err::<
                        (GraphView, Catalog),
                        ErrorView,
                    >(error@),
            },
    {
        let state = StateSnapshot {
            config: self.config,
            points: self.collection.snapshot_points(),
            collection_sequence: self.collection.latest_sequence(),
            last_applied: self.last_applied,
            membership: self.membership.clone(),
            dedup: self.dedup.entries(),
        };
        assert(taken(self@, state@));
        let (index, metadata_index) = build_indexes(kernel, self.config, &state.points)?;
        Ok(StagedSnapshot { state, index, metadata_index })
    }

    /// Takes over a snapshot that has been written.
    pub fn settle_snapshot<K: Kernel>(
        &mut self,
        kernel: &K,
        staged: StagedSnapshot,
        stored: StoredSnapshot,
    )
        requires
            old(self).wf(),
            lawful(*kernel),
            staged.made_for(*kernel, old(self)@),
        ensures
            final(self).wf(),
            in_step(final(self)@.data),
            exists|fresh: ShardView| #[trigger]
                staged.leads(old(self)@, fresh) && final(self)@ == (ShardView {
                    snapshot: Some(stored@),
                    ..fresh
                }),
    {
        let ghost fresh = reindexed(self@, staged.index@, staged.metadata_index@);
        assert(staged.leads(self@, fresh));
        proof {
            assert(staged.state.points.len() <= usize::MAX);
            law_reindexed_is_in_step(*kernel, self@, staged.state@.points);
        }
        self.current_snapshot = Some(stored);
        self.index = Some(staged.index);
        self.metadata_index = Some(staged.metadata_index);
        self.dirty_ids.clear();
    }

    /// Takes a snapshot. `write` turns it into bytes, writes these with what the
    /// snapshot is of, and returns them with the checksum of both.
    pub fn build_snapshot<
        K: Kernel,
        W: FnOnce(&StateSnapshot, &SnapshotMeta) -> Result<(Vec<u8>, u32)>,
    >(&mut self, kernel: &K, nonce: &str, write: W) -> (result: Result<(SnapshotMeta, Vec<u8>)>)
        requires
            old(self).wf(),
            lawful(*kernel),
            forall|state: &StateSnapshot, meta: &SnapshotMeta|
                taken(old(self)@, state@) && indexed(*kernel, state@.config, state@.points) is Ok
                    && meta@ == meta_of(old(self)@, nonce@) ==> #[trigger] write.requires(
                    (state, meta),
                ),
        ensures
            final(self).wf(),
            result is Ok ==> in_step(final(self)@.data),
            in_step(old(self)@.data) ==> in_step(final(self)@.data),
            exists|state: StateSnapshotView, written: Result<(Vec<u8>, u32)>|
                #![trigger snapshot_outcome(*kernel, old(self)@, state, meta_of(old(self)@, nonce@), written)]
                {
                    let meta = meta_of(old(self)@, nonce@);
                    &&& taken(old(self)@, state)
                    &&& indexed(*kernel, state.config, state.points) is Ok ==> wrote_snapshot(
                        write,
                        state,
                        meta,
                        written,
                    )
                    &&& match snapshot_outcome(*kernel, old(self)@, state, meta, written) {
                        Ok(after) => {
                            &&& final(self)@ == after
                            &&& result is Ok
                            &&& result->Ok_0.0@ == meta
                            &&& result->Ok_0.1@ == after.snapshot->Some_0.data
                        },
                        Err(error) => final(self)@ == old(self)@ && result is Err
                            && result->Err_0@ == error,
                    }
                },
    {
        let ghost before = self@;
        let ghost meta_view = meta_of(before, nonce@);
        let staged = match self.stage_snapshot(kernel) {
            Ok(staged) => staged,
            Err(error) => {
                proof {
                    let state = choose|state: StateSnapshotView|
                        #![trigger taken(before, state)]
                        taken(before, state) && indexed(*kernel, state.config, state.points)
                            == Err::<(GraphView, Catalog), ErrorView>(error@);
                    let written: Result<(Vec<u8>, u32)> = Err(error);
                    assert(snapshot_outcome(*kernel, before, state, meta_view, written) == Err::<
                        ShardView,
                        ErrorView,
                    >(error@));
                }
                return Err(error);
            },
        };
        let meta = self.snapshot_meta(nonce);
        let written = write(&staged.state, &meta);
        let ghost state = staged.state@;
        proof {
            assert(write.ensures((&staged.state, &meta), written));
            assert(wrote_snapshot(write, state, meta_view, written));
        }
        let ghost outcome = snapshot_outcome(*kernel, before, state, meta_view, written);
        match written {
            Err(error) => {
                assert(outcome == Err::<ShardView, ErrorView>(error@));
                Err(error)
            },
            Ok((data, sum)) => {
                let copy = data.clone();
                assert(copy@ =~= data@);
                let stored = StoredSnapshot { meta: meta.clone(), data: copy, checksum: Some(sum) };
                let ghost graph = staged.index@;
                let ghost catalog = staged.metadata_index@;
                self.settle_snapshot(kernel, staged, stored);
                assert(outcome is Ok);
                assert(self@ == outcome->Ok_0);
                Ok((meta, data))
            },
        }
    }

    /// The shard becomes what a snapshot of another member holds. `write` keeps the
    /// snapshot and `empty` empties the journal, which it stands for from then on;
    /// unless all succeeds, the shard stays as it is. A snapshot of another shape is
    /// not written, and the journal is emptied only behind a snapshot that was written
    /// and can be taken over.
    pub fn install_snapshot<
        K: Kernel,
        W: FnOnce(&StoredSnapshot) -> Result<()>,
        E: FnOnce() -> Result<()>,
    >(
        &mut self,
        kernel: &K,
        stored: StoredSnapshot,
        state: StateSnapshot,
        write: W,
        empty: E,
    ) -> (result: Result<()>)
        requires
            old(self).wf(),
            lawful(*kernel),
            state.config == old(self)@.data.collection.config ==> write.requires((&stored,)),
            state.config == old(self)@.data.collection.config && (exists|written: Result<()>|
                #[trigger] write.ensures((&stored,), written) && written is Ok) && adopted(
                *kernel,
                state@,
                stored@,
            ) is Ok ==> empty.requires(()),
        ensures
            final(self).wf(),
            result is Ok ==> in_step(final(self)@.data),
            in_step(old(self)@.data) ==> in_step(final(self)@.data),
            exists|written: Result<()>, emptied: Result<()>|
                #![trigger installed(*kernel, old(self)@, state@, stored@, written, emptied)]
                {
                    &&& state.config == old(self)@.data.collection.config ==> write.ensures(
                        (&stored,),
                        written,
                    )
                    &&& state.config == old(self)@.data.collection.config && written is Ok
                        && adopted(*kernel, state@, stored@) is Ok ==> empty.ensures((), emptied)
                    &&& match installed(
                        *kernel,
                        old(self)@,
                        state@,
                        stored@,
                        written,
                        emptied,
                    ) {
                        Ok(after) => final(self)@ == after && result is Ok,
                        Err(error) => final(self)@ == old(self)@ && result is Err
                            && result->Err_0@ == error,
                    }
                },
    {
        let ghost before = self@;
        let ghost sv = state@;
        let ghost tv = stored@;
        let ghost idle: Result<()> = Ok(());
        proof {
            self.collection.lemma_valid();
        }
        if state.config != self.config {
            assert(installed(*kernel, before, sv, tv, idle, idle) == Err::<ShardView, ErrorView>(
                ErrorView::Io("snapshot config mismatch"@),
            ));
            return Err(Error::Io("snapshot config mismatch".to_owned()));
        }
        let written = write(&stored);
        assert(write.ensures((&stored,), written));
        match written {
            Err(error) => {
                assert(installed(*kernel, before, sv, tv, written, idle) == Err::<
                    ShardView,
                    ErrorView,
                >(error@));
                return Err(error);
            },
            Ok(_) => {},
        }
        let adopted_shard = match DurableShardStateMachine::adopt(kernel, state, stored) {
            Ok(shard) => shard,
            Err(error) => {
                assert(installed(*kernel, before, sv, tv, written, idle) == Err::<
                    ShardView,
                    ErrorView,
                >(error@));
                return Err(error);
            },
        };
        let emptied = empty();
        assert(empty.ensures((), emptied));
        match emptied {
            Err(error) => {
                assert(installed(*kernel, before, sv, tv, written, emptied) == Err::<
                    ShardView,
                    ErrorView,
                >(error@));
                Err(error)
            },
            Ok(_) => {
                *self = adopted_shard;
                assert(installed(*kernel, before, sv, tv, written, emptied) == Ok::<
                    ShardView,
                    ErrorView,
                >(self@));
                Ok(())
            },
        }
    }

    /// The last snapshot.
    pub fn get_current_snapshot(&self) -> (stored: Option<&StoredSnapshot>)
        ensures
            match stored {
                Some(s) => self@.snapshot == Some(s@),
                None => self@.snapshot is None,
            },
    {
        match &self.current_snapshot {
            Some(stored) => Some(stored),
            None => None,
        }
    }
}

/// A snapshot was handed to be written, and the answer was as given.
pub open spec fn wrote_snapshot<W: FnOnce(&StateSnapshot, &SnapshotMeta) -> Result<(Vec<u8>, u32)>>(
    write: W,
    state: StateSnapshotView,
    meta: SnapshotMetaView,
    written: Result<(Vec<u8>, u32)>,
) -> bool {
    exists|s: &StateSnapshot, m: &SnapshotMeta| #[trigger]
        write.ensures((s, m), written) && s@ == state && m@ == meta
}

} // verus!
