//! The replicated log of a shard.
//!
//! Every change of the log is one journal record; the log is what replaying the
//! records gives. The library frames the records and keeps the log; the caller
//! turns records into payloads and moves the bytes.
use crate::collection::{views, UpsertPoint, UpsertView};
use crate::error::{Error, ErrorView, Result};
use crate::journal::{frame_record, record_frame, Damage, Journal};
use vstd::prelude::*;
use vstd::string::*;

verus! {

/// A member of a shard.
pub type NodeId = u64;

/// The place of an entry in the log.
#[derive(Debug, Clone, Copy, PartialEq, Eq, Structural)]
pub struct LogId {
    pub term: u64,
    pub node_id: NodeId,
    pub index: u64,
}

/// A vote in an election.
#[derive(Debug, Clone, Copy, PartialEq, Eq, Structural)]
pub struct Vote {
    pub term: u64,
    pub node_id: NodeId,
    pub committed: bool,
}

/// A change that a client asks for. Client and request tell it from every other.
#[derive(Debug, PartialEq)]
pub enum ShardCommand {
    Upsert { client_id: String, request_id: u64, points: Vec<UpsertPoint> },
    Delete { client_id: String, request_id: u64, ids: Vec<String> },
}

/// What became of a change.
#[derive(Debug, PartialEq, Eq)]
pub enum ShardResponse {
    Applied { sequence: u64 },
    Rejected { message: String },
}

/// The voters, one set for each side of a change of members, and the addresses.
#[derive(Debug, PartialEq, Eq)]
pub struct Membership {
    pub configs: Vec<Vec<NodeId>>,
    pub nodes: Vec<(NodeId, String)>,
}

/// What an entry of the log asks for.
#[derive(Debug, PartialEq)]
pub enum EntryPayload {
    Blank,
    Normal(ShardCommand),
    Membership(Membership),
}

/// An entry of the log.
#[derive(Debug, PartialEq)]
pub struct Entry {
    pub log_id: LogId,
    pub payload: EntryPayload,
}

/// A command, as contracts see it.
pub enum CommandView {
    Upsert { client_id: Seq<char>, request_id: u64, points: Seq<UpsertView> },
    Delete { client_id: Seq<char>, request_id: u64, ids: Seq<Seq<char>> },
}

/// A response, as contracts see it.
pub enum ResponseView {
    Applied { sequence: u64 },
    Rejected { message: Seq<char> },
}

/// A membership, as contracts see it.
pub struct MembershipView {
    pub configs: Seq<Seq<u64>>,
    pub nodes: Seq<(u64, Seq<char>)>,
}

/// What an entry holds, as contracts see it.
pub enum PayloadView {
    Blank,
    Normal(CommandView),
    Membership(MembershipView),
}

/// An entry, as contracts see it.
pub struct EntryView {
    pub log_id: LogId,
    pub payload: PayloadView,
}

impl View for ShardCommand {
    type V = CommandView;

    open spec fn view(&self) -> CommandView {
        match *self {
            ShardCommand::Upsert { client_id, request_id, points } => CommandView::Upsert {
                client_id: client_id@,
                request_id,
                points: views(points@),
            },
            ShardCommand::Delete { client_id, request_id, ids } => CommandView::Delete {
                client_id: client_id@,
                request_id,
                ids: views(ids@),
            },
        }
    }
}

impl CommandView {
    /// What tells the change from every other.
    pub open spec fn identity(self) -> (Seq<char>, u64) {
        match self {
            CommandView::Upsert { client_id, request_id, .. } => (client_id, request_id),
            CommandView::Delete { client_id, request_id, .. } => (client_id, request_id),
        }
    }
}

impl View for ShardResponse {
    type V = ResponseView;

    open spec fn view(&self) -> ResponseView {
        match *self {
            ShardResponse::Applied { sequence } => ResponseView::Applied { sequence },
            ShardResponse::Rejected { message } => ResponseView::Rejected { message: message@ },
        }
    }
}

impl View for Membership {
    type V = MembershipView;

    open spec fn view(&self) -> MembershipView {
        MembershipView { configs: views(self.configs@), nodes: views(self.nodes@) }
    }
}

impl View for EntryPayload {
    type V = PayloadView;

    open spec fn view(&self) -> PayloadView {
        match *self {
            EntryPayload::Blank => PayloadView::Blank,
            EntryPayload::Normal(command) => PayloadView::Normal(command@),
            EntryPayload::Membership(membership) => PayloadView::Membership(membership@),
        }
    }
}

impl View for Entry {
    type V = EntryView;

    open spec fn view(&self) -> EntryView {
        EntryView { log_id: self.log_id, payload: self.payload@ }
    }
}

impl Clone for ShardCommand {
    fn clone(&self) -> (copy: ShardCommand)
        ensures
            copy@ == self@,
    {
        match self {
            ShardCommand::Upsert { client_id, request_id, points } => {
                let copies = points.clone();
                assert(views(copies@) =~= views(points@));
                ShardCommand::Upsert {
                    client_id: client_id.clone(),
                    request_id: *request_id,
                    points: copies,
                }
            },
            ShardCommand::Delete { client_id, request_id, ids } => {
                let copies = copy_ids(ids);
                ShardCommand::Delete {
                    client_id: client_id.clone(),
                    request_id: *request_id,
                    ids: copies,
                }
            },
        }
    }
}

/// A copy of a list of IDs.
pub(crate) fn copy_ids(ids: &Vec<String>) -> (copies: Vec<String>)
    ensures
        views(copies@) == views(ids@),
        copies@.len() == ids@.len(),
{
    let copies = ids.clone();
    assert(views(copies@) =~= views(ids@));
    copies
}

impl Clone for ShardResponse {
    fn clone(&self) -> (copy: ShardResponse)
        ensures
            copy@ == self@,
    {
        match self {
            ShardResponse::Applied { sequence } => ShardResponse::Applied { sequence: *sequence },
            ShardResponse::Rejected { message } => ShardResponse::Rejected {
                message: message.clone(),
            },
        }
    }
}

impl Clone for Membership {
    fn clone(&self) -> (copy: Membership)
        ensures
            copy@ == self@,
    {
        let mut configs: Vec<Vec<NodeId>> = Vec::new();
        let mut i: usize = 0;
        while i < self.configs.len()
            invariant
                i <= self.configs@.len(),
                configs@.len() == i,
                forall|j: int| 0 <= j < i ==> (#[trigger] configs@[j])@ == self.configs@[j]@,
            decreases self.configs.len() - i,
        {
            let copy = self.configs[i].clone();
            assert(copy@ =~= self.configs@[i as int]@);
            configs.push(copy);
            i = i + 1;
        }
        let mut nodes: Vec<(NodeId, String)> = Vec::new();
        let mut i: usize = 0;
        while i < self.nodes.len()
            invariant
                i <= self.nodes@.len(),
                nodes@.len() == i,
                forall|j: int| 0 <= j < i ==> (#[trigger] nodes@[j])@ == self.nodes@[j]@,
            decreases self.nodes.len() - i,
        {
            let copy: (NodeId, String) = (self.nodes[i].0, self.nodes[i].1.clone());
            assert(copy@ == self.nodes@[i as int]@);
            nodes.push(copy);
            i = i + 1;
        }
        assert(views(configs@) =~= views(self.configs@));
        assert(views(nodes@) =~= views(self.nodes@));
        Membership { configs, nodes }
    }
}

impl Clone for EntryPayload {
    fn clone(&self) -> (copy: EntryPayload)
        ensures
            copy@ == self@,
    {
        match self {
            EntryPayload::Blank => EntryPayload::Blank,
            EntryPayload::Normal(command) => EntryPayload::Normal(command.clone()),
            EntryPayload::Membership(membership) => EntryPayload::Membership(membership.clone()),
        }
    }
}

impl Clone for Entry {
    fn clone(&self) -> (copy: Entry)
        ensures
            copy@ == self@,
    {
        Entry { log_id: self.log_id, payload: self.payload.clone() }
    }
}

/// One change of the log.
#[derive(Debug, PartialEq)]
pub enum JournalRecord {
    SaveVote(Vote),
    SaveCommitted(Option<LogId>),
    Append(Vec<Entry>),
    Truncate(LogId),
    Purge(LogId),
}

/// A record, as contracts see it.
pub enum RecordView {
    SaveVote(Vote),
    SaveCommitted(Option<LogId>),
    Append(Seq<EntryView>),
    Truncate(LogId),
    Purge(LogId),
}

impl View for JournalRecord {
    type V = RecordView;

    open spec fn view(&self) -> RecordView {
        match *self {
            JournalRecord::SaveVote(vote) => RecordView::SaveVote(vote),
            JournalRecord::SaveCommitted(committed) => RecordView::SaveCommitted(committed),
            JournalRecord::Append(entries) => RecordView::Append(views(entries@)),
            JournalRecord::Truncate(log_id) => RecordView::Truncate(log_id),
            JournalRecord::Purge(log_id) => RecordView::Purge(log_id),
        }
    }
}

impl RecordView {
    /// There is an index behind the last purged one.
    pub open spec fn possible(self) -> bool {
        self matches RecordView::Purge(log_id) ==> log_id.index < u64::MAX
    }
}

/// A log: the entries by index, and what elections, commits and purges left.
pub struct LogView {
    pub vote: Option<Vote>,
    pub committed: Option<LogId>,
    pub last_purged: Option<LogId>,
    pub entries: Map<u64, EntryView>,
}

/// A log before its first record.
pub open spec fn empty_log() -> LogView {
    LogView { vote: None, committed: None, last_purged: None, entries: Map::empty() }
}

/// Entries, with more put in at their indexes.
pub open spec fn with_entries(log: Map<u64, EntryView>, entries: Seq<EntryView>) -> Map<
    u64,
    EntryView,
>
    decreases entries.len(),
{
    if entries.len() == 0 {
        log
    } else {
        with_entries(log, entries.drop_last()).insert(entries.last().log_id.index, entries.last())
    }
}

/// The entries whose indexes are wanted.
pub open spec fn kept(log: Map<u64, EntryView>, wanted: spec_fn(u64) -> bool) -> Map<
    u64,
    EntryView,
> {
    log.restrict(Set::new(wanted))
}

/// What a record makes of a log.
pub open spec fn recorded(log: LogView, record: RecordView) -> LogView {
    match record {
        RecordView::SaveVote(vote) => LogView { vote: Some(vote), ..log },
        RecordView::SaveCommitted(committed) => LogView { committed, ..log },
        RecordView::Append(entries) => LogView {
            entries: with_entries(log.entries, entries),
            ..log
        },
        RecordView::Truncate(log_id) => LogView {
            entries: kept(log.entries, |index: u64| index < log_id.index),
            ..log
        },
        RecordView::Purge(log_id) => LogView {
            last_purged: Some(log_id),
            entries: kept(log.entries, |index: u64| index > log_id.index),
            ..log
        },
    }
}

/// What records in a row make of a log.
pub open spec fn recorded_all(log: LogView, records: Seq<RecordView>) -> LogView
    decreases records.len(),
{
    if records.len() == 0 {
        log
    } else {
        recorded(recorded_all(log, records.drop_last()), records.last())
    }
}

/// No index stands twice, and they ascend.
spec fn in_index_order(entries: Seq<Entry>) -> bool {
    forall|i: int, j: int|
        0 <= i < j < entries.len() ==> (#[trigger] entries[i]).log_id.index < (
        #[trigger] entries[j]).log_id.index
}

spec fn by_index(entries: Seq<Entry>) -> Map<u64, EntryView> {
    with_entries(Map::empty(), views(entries))
}

proof fn lemma_by_index(entries: Seq<Entry>)
    requires
        in_index_order(entries),
    ensures
        forall|i: int|
            0 <= i < entries.len() ==> by_index(entries).contains_key(
                (#[trigger] entries[i]).log_id.index,
            ) && by_index(entries)[entries[i].log_id.index] == entries[i]@,
        forall|index: u64| #[trigger]
            by_index(entries).contains_key(index) ==> exists|i: int|
                0 <= i < entries.len() && (#[trigger] entries[i]).log_id.index == index,
    decreases entries.len(),
{
    if entries.len() > 0 {
        let rest = entries.drop_last();
        let last = entries.len() - 1;
        lemma_by_index(rest);
        assert(views(entries).drop_last() =~= views(rest));
        assert forall|i: int| 0 <= i < entries.len() implies by_index(entries).contains_key(
            (#[trigger] entries[i]).log_id.index,
        ) && by_index(entries)[entries[i].log_id.index] == entries[i]@ by {
            if i < last {
                assert(entries[i] == rest[i]);
                assert(entries[i].log_id.index < entries[last].log_id.index);
            }
        }
        assert forall|index: u64| #[trigger]
            by_index(entries).contains_key(index) implies exists|i: int|
            0 <= i < entries.len() && (#[trigger] entries[i]).log_id.index == index by {
            if index == entries[last].log_id.index {
            } else {
                assert(by_index(rest).contains_key(index));
                let i = choose|i: int|
                    0 <= i < rest.len() && (#[trigger] rest[i]).log_id.index == index;
                assert(entries[i].log_id.index == index);
            }
        }
    }
}

/// Putting an entry where its index belongs puts it under its index.
proof fn lemma_put(before: Seq<Entry>, at: int, value: Entry, after: Seq<Entry>)
    requires
        in_index_order(before),
        0 <= at <= before.len(),
        forall|j: int| 0 <= j < at ==> (#[trigger] before[j]).log_id.index < value.log_id.index,
        (at < before.len() && before[at].log_id.index == value.log_id.index && after
            == before.update(at, value)) || (after == before.insert(at, value) && forall|j: int|
            at <= j < before.len() ==> (#[trigger] before[j]).log_id.index > value.log_id.index),
    ensures
        in_index_order(after),
        by_index(after) == by_index(before).insert(value.log_id.index, value@),
{
    let index = value.log_id.index;
    lemma_by_index(before);
    let replaced = after.len() == before.len();
    assert(after[at] == value);
    assert forall|i: int, j: int| 0 <= i < j < after.len() implies (
    #[trigger] after[i]).log_id.index < (#[trigger] after[j]).log_id.index by {
        let a = if replaced || i < at {
            i
        } else {
            i - 1
        };
        let b = if replaced || j < at {
            j
        } else {
            j - 1
        };
        if i != at {
            assert(after[i] == before[a]);
        }
        if j != at {
            assert(after[j] == before[b]);
        }
        if i != at && j != at {
            assert(before[a].log_id.index < before[b].log_id.index);
        } else if replaced {
            assert(before[i].log_id.index < before[j].log_id.index);
        }
    }
    lemma_by_index(after);
    let wanted = by_index(before).insert(index, value@);
    assert forall|x: u64| by_index(after).contains_key(x) <==> wanted.contains_key(x) by {
        if by_index(after).contains_key(x) {
            let i = choose|i: int|
                0 <= i < after.len() && (#[trigger] after[i]).log_id.index == x;
            if i != at {
                let a = if replaced || i < at {
                    i
                } else {
                    i - 1
                };
                assert(after[i] == before[a]);
                assert(by_index(before).contains_key(x));
            }
        }
        if wanted.contains_key(x) {
            if x == index {
                assert(after[at].log_id.index == x);
            } else {
                let i = choose|i: int|
                    0 <= i < before.len() && (#[trigger] before[i]).log_id.index == x;
                let b = if replaced || i < at {
                    i
                } else {
                    i + 1
                };
                assert(after[b] == before[i]);
            }
        }
    }
    assert forall|x: u64| #[trigger] wanted.contains_key(x) implies by_index(after)[x]
        == wanted[x] by {
        if x == index {
            assert(after[at].log_id.index == x);
        } else {
            let i = choose|i: int|
                0 <= i < before.len() && (#[trigger] before[i]).log_id.index == x;
            let b = if replaced || i < at {
                i
            } else {
                i + 1
            };
            assert(after[b] == before[i]);
        }
    }
    assert(by_index(after) =~= wanted);
}

/// A log in memory.
struct JournalState {
    vote: Option<Vote>,
    committed: Option<LogId>,
    last_purged: Option<LogId>,
    entries: Vec<Entry>,
}

impl JournalState {
    spec fn wf(&self) -> bool {
        in_index_order(self.entries@)
    }

    spec fn view(&self) -> LogView {
        LogView {
            vote: self.vote,
            committed: self.committed,
            last_purged: self.last_purged,
            entries: by_index(self.entries@),
        }
    }

    fn put(&mut self, entry: Entry)
        requires
            old(self).wf(),
        ensures
            final(self).wf(),
            final(self)@ == (LogView {
                entries: old(self)@.entries.insert(entry.log_id.index, entry@),
                ..old(self)@
            }),
    {
        let ghost before = self.entries@;
        let ghost value = entry;
        let index: u64 = entry.log_id.index;
        let mut at: usize = self.entries.len();
        while at > 0 && self.entries[at - 1].log_id.index >= index
            invariant
                at <= self.entries@.len(),
                forall|j: int|
                    at <= j < self.entries@.len() ==> (#[trigger] self.entries@[j]).log_id.index
                        >= index,
            decreases at,
        {
            at = at - 1;
        }
        proof {
            lemma_by_index(before);
            if at > 0 {
                assert forall|j: int| 0 <= j < at implies (#[trigger] before[j]).log_id.index
                    < index by {
                    assert(before[at - 1].log_id.index < index);
                }
            }
        }
        if at < self.entries.len() && self.entries[at].log_id.index == index {
            self.entries[at] = entry;
            assert(self.entries@ =~= before.update(at as int, value));
        } else {
            proof {
                assert forall|j: int| at <= j < before.len() implies (
                #[trigger] before[j]).log_id.index > index by {
                    if j > at {
                        assert(before[at as int].log_id.index < before[j].log_id.index);
                    }
                }
            }
            self.entries.insert(at, entry);
            assert(self.entries@ =~= before.insert(at as int, value));
        }
        proof {
            lemma_put(before, at as int, value, self.entries@);
        }
    }

    /// Keeps the entries before an index, or those from it on.
    fn split(&mut self, index: u64, front: bool)
        requires
            old(self).wf(),
        ensures
            final(self).wf(),
            final(self)@ == (LogView {
                entries: kept(
                    old(self)@.entries,
                    |i: u64|
                        if front {
                            i < index
                        } else {
                            i >= index
                        },
                ),
                ..old(self)@
            }),
    {
        let ghost before = self.entries@;
        let mut at: usize = 0;
        while at < self.entries.len() && self.entries[at].log_id.index < index
            invariant
                at <= self.entries@.len(),
                self.entries@ == before,
                forall|j: int| 0 <= j < at ==> (#[trigger] before[j]).log_id.index < index,
            decreases self.entries@.len() - at,
        {
            at = at + 1;
        }
        proof {
            lemma_by_index(before);
            assert forall|j: int| at <= j < before.len() implies (#[trigger] before[j]).log_id.index
                >= index by {
                if j > at {
                    assert(before[at as int].log_id.index < before[j].log_id.index);
                }
            }
        }
        let back = self.entries.split_off(at);
        if !front {
            self.entries = back;
        }
        proof {
            let after = self.entries@;
            let first = if front {
                0int
            } else {
                at as int
            };
            assert forall|i: int| 0 <= i < after.len() implies #[trigger] after[i] == before[first
                + i] by {}
            assert forall|i: int, j: int| 0 <= i < j < after.len() implies (
            #[trigger] after[i]).log_id.index < (#[trigger] after[j]).log_id.index by {
                assert(before[first + i].log_id.index < before[first + j].log_id.index);
            }
            lemma_by_index(after);
            let wanted = kept(
                by_index(before),
                |i: u64|
                    if front {
                        i < index
                    } else {
                        i >= index
                    },
            );
            assert forall|x: u64| by_index(after).contains_key(x) <==> wanted.contains_key(x) by {
                if by_index(after).contains_key(x) {
                    let i = choose|i: int|
                        0 <= i < after.len() && (#[trigger] after[i]).log_id.index == x;
                    assert(before[first + i].log_id.index == x);
                }
                if wanted.contains_key(x) {
                    let i = choose|i: int|
                        0 <= i < before.len() && (#[trigger] before[i]).log_id.index == x;
                    assert(after[i - first] == before[i]);
                }
            }
            assert forall|x: u64| #[trigger] by_index(after).contains_key(x) implies by_index(
                after,
            )[x] == wanted[x] by {
                let i = choose|i: int|
                    0 <= i < after.len() && (#[trigger] after[i]).log_id.index == x;
                assert(before[first + i].log_id.index == x);
            }
            assert(by_index(after) =~= wanted);
        }
    }

    fn apply(&mut self, record: JournalRecord)
        requires
            old(self).wf(),
            record@.possible(),
        ensures
            final(self).wf(),
            final(self)@ == recorded(old(self)@, record@),
    {
        let ghost before = self@;
        match record {
            JournalRecord::SaveVote(vote) => {
                self.vote = Some(vote);
            },
            JournalRecord::SaveCommitted(committed) => {
                self.committed = committed;
            },
            JournalRecord::Append(entries) => {
                let ghost all = views(entries@);
                let mut i: usize = 0;
                assert(all.subrange(0, 0) =~= Seq::empty());
                while i < entries.len()
                    invariant
                        i <= entries@.len(),
                        self.wf(),
                        all == views(entries@),
                        self@ == (LogView {
                            entries: with_entries(before.entries, all.subrange(0, i as int)),
                            ..before
                        }),
                    decreases entries.len() - i,
                {
                    self.put(entries[i].clone());
                    proof {
                        assert(all.subrange(0, i + 1).drop_last() =~= all.subrange(0, i as int));
                    }
                    i = i + 1;
                }
                assert(all.subrange(0, i as int) =~= all);
            },
            JournalRecord::Truncate(log_id) => {
                self.split(log_id.index, true);
                assert(self@.entries =~= recorded(before, record@).entries);
            },
            JournalRecord::Purge(log_id) => {
                self.last_purged = Some(log_id);
                self.split(log_id.index + 1, false);
                assert(self@.entries =~= recorded(before, record@).entries);
            },
        }
    }
}

/// One end of a range of indexes.
#[derive(Debug, Clone, Copy, PartialEq, Eq, Structural)]
pub enum Edge {
    Included(u64),
    Excluded(u64),
    Unbounded,
}

/// Whether an index lies between two edges.
pub open spec fn between(low: Edge, high: Edge, index: u64) -> bool {
    &&& match low {
        Edge::Included(from) => from <= index,
        Edge::Excluded(from) => from < index,
        Edge::Unbounded => true,
    }
    &&& match high {
        Edge::Included(to) => index <= to,
        Edge::Excluded(to) => index < to,
        Edge::Unbounded => true,
    }
}

/// A range does not end before it begins, nor is it shut out at both ends by one
/// index.
pub open spec fn orderly(low: Edge, high: Edge) -> bool {
    match (low, high) {
        (Edge::Included(from), Edge::Included(to)) => from <= to,
        (Edge::Included(from), Edge::Excluded(to)) => from <= to,
        (Edge::Excluded(from), Edge::Included(to)) => from <= to,
        (Edge::Excluded(from), Edge::Excluded(to)) => from < to,
        _ => true,
    }
}

/// The entries of a log between two edges, by index.
pub open spec fn excerpt(
    log: Map<u64, EntryView>,
    low: Edge,
    high: Edge,
    list: Seq<EntryView>,
) -> bool {
    &&& forall|i: int, j: int|
        0 <= i < j < list.len() ==> (#[trigger] list[i]).log_id.index < (
        #[trigger] list[j]).log_id.index
    &&& forall|i: int|
        0 <= i < list.len() ==> log.contains_key((#[trigger] list[i]).log_id.index)
            && log[list[i].log_id.index] == list[i] && between(low, high, list[i].log_id.index)
    &&& forall|index: u64| #[trigger]
        log.contains_key(index) && between(low, high, index) ==> exists|i: int|
            0 <= i < list.len() && (#[trigger] list[i]).log_id.index == index
}

/// The ends of a log.
#[derive(Debug, Clone, Copy, PartialEq, Eq, Structural)]
pub struct LogState {
    pub last_purged_log_id: Option<LogId>,
    pub last_log_id: Option<LogId>,
}

/// The ID of the last entry; of an emptied log, that of the last purged one.
pub open spec fn is_last(log: LogView, last: Option<LogId>) -> bool {
    if log.entries.dom() == Set::<u64>::empty() {
        last == log.last_purged
    } else {
        &&& last is Some
        &&& exists|index: u64|
            {
                &&& #[trigger] log.entries.contains_key(index)
                &&& log.entries[index].log_id == last->Some_0
                &&& forall|other: u64| #[trigger]
                    log.entries.contains_key(other) ==> other <= index
            }
    }
}

/// The replicated log of a shard, as its journal has it.
pub struct DurableRaftLog {
    state: JournalState,
}

impl View for DurableRaftLog {
    type V = LogView;

    closed spec fn view(&self) -> LogView {
        self.state@
    }
}

/// Everything could be decoded.
pub open spec fn all_decoded<T>(decoded: Seq<Result<T>>) -> bool {
    forall|i: int| 0 <= i < decoded.len() ==> (#[trigger] decoded[i]) is Ok
}

/// The first that could not be decoded, and why.
pub open spec fn first_fault<T>(decoded: Seq<Result<T>>, at: int, error: Error) -> bool {
    &&& 0 <= at < decoded.len()
    &&& decoded[at] == Err::<T, Error>(error)
    &&& all_decoded(decoded.subrange(0, at))
}

/// What decoding the payloads of a journal gives: the records, if all could be
/// decoded and nothing behind them is damaged; else the first fault.
pub fn gather<T>(journal: Journal, decoded: Vec<Result<T>>, damage: Option<Damage>) -> (result:
    Result<Vec<T>>)
    ensures
        match result {
            Ok(records) => {
                &&& damage is None
                &&& records@.len() == decoded@.len()
                &&& forall|i: int|
                    0 <= i < decoded@.len() ==> #[trigger] decoded@[i] == Ok::<T, Error>(records@[i])
            },
            Err(error) => {
                ||| exists|i: int| #[trigger] first_fault(decoded@, i, error)
                ||| all_decoded(decoded@) && damage is Some && error@ == ErrorView::Io(
                    journal.complaint(damage->Some_0),
                )
            },
        },
{
    let ghost given = decoded@;
    let mut rest = decoded;
    let mut reversed: Vec<Result<T>> = Vec::new();
    while rest.len() > 0
        invariant
            rest@.len() + reversed@.len() == given.len(),
            forall|i: int| 0 <= i < rest@.len() ==> #[trigger] rest@[i] == given[i],
            forall|i: int|
                0 <= i < reversed@.len() ==> #[trigger] reversed@[i] == given[given.len() - 1 - i],
        decreases rest.len(),
    {
        let item = rest.pop();
        match item {
            Some(value) => {
                reversed.push(value);
            },
            None => {},
        }
    }
    let mut records: Vec<T> = Vec::new();
    while reversed.len() > 0
        invariant
            given == decoded@,
            reversed@.len() + records@.len() == given.len(),
            forall|i: int|
                0 <= i < reversed@.len() ==> #[trigger] reversed@[i] == given[given.len() - 1 - i],
            forall|i: int|
                0 <= i < records@.len() ==> #[trigger] given[i] == Ok::<T, Error>(records@[i]),
        decreases reversed.len(),
    {
        let ghost place = records@.len() as int;
        let item = reversed.pop();
        match item {
            Some(value) => {
                assert(value == given[place]);
                match value {
                    Ok(record) => {
                        records.push(record);
                    },
                    Err(error) => {
                        proof {
                            let front = given.subrange(0, place);
                            assert forall|j: int| 0 <= j < front.len() implies (
                            #[trigger] front[j]) is Ok by {
                                assert(given[j] == Ok::<T, Error>(records@[j]));
                            }
                            assert(first_fault(given, place, error));
                        }
                        return Err(error);
                    },
                }
            },
            None => {},
        }
    }
    match damage {
        Some(found) => {
            assert forall|j: int| 0 <= j < given.len() implies (#[trigger] given[j]) is Ok by {
                assert(given[j] == Ok::<T, Error>(records@[j]));
            }
            Err(Error::Io(journal.message(found).to_owned()))
        },
        None => Ok(records),
    }
}

impl DurableRaftLog {
    /// The entries are in order.
    pub closed spec fn wf(&self) -> bool {
        self.state.wf()
    }

    /// The log that journal records leave.
    pub fn open(records: Vec<JournalRecord>) -> (log: DurableRaftLog)
        requires
            forall|i: int| 0 <= i < records@.len() ==> (#[trigger] records@[i])@.possible(),
        ensures
            log.wf(),
            log@ == recorded_all(empty_log(), views(records@)),
    {
        let ghost all = views(records@);
        let ghost given = records@;
        let mut records = records;
        let mut reversed: Vec<JournalRecord> = Vec::new();
        while records.len() > 0
            invariant
                records@.len() + reversed@.len() == given.len(),
                forall|i: int| 0 <= i < records@.len() ==> #[trigger] records@[i] == given[i],
                forall|i: int|
                    0 <= i < reversed@.len() ==> #[trigger] reversed@[i] == given[given.len() - 1
                        - i],
            decreases records.len(),
        {
            match records.pop() {
                Some(record) => {
                    reversed.push(record);
                },
                None => {},
            }
        }
        let mut state = JournalState {
            vote: None,
            committed: None,
            last_purged: None,
            entries: Vec::new(),
        };
        assert(state@.entries =~= empty_log().entries);
        assert(all.subrange(0, 0) =~= Seq::empty());
        while reversed.len() > 0
            invariant
                reversed@.len() <= given.len(),
                all == views(given),
                forall|i: int|
                    0 <= i < reversed@.len() ==> #[trigger] reversed@[i] == given[given.len() - 1
                        - i],
                forall|i: int| 0 <= i < given.len() ==> (#[trigger] given[i])@.possible(),
                state.wf(),
                state@ == recorded_all(
                    empty_log(),
                    all.subrange(0, given.len() - reversed@.len()),
                ),
            decreases reversed.len(),
        {
            let ghost done = given.len() - reversed@.len();
            match reversed.pop() {
                Some(record) => {
                    assert(record == given[done]);
                    proof {
                        let next = all.subrange(0, done + 1);
                        assert(next.drop_last() =~= all.subrange(0, done));
                        assert(next.last() == record@);
                    }
                    state.apply(record);
                },
                None => {},
            }
        }
        assert(all.subrange(0, given.len() as int) =~= all);
        DurableRaftLog { state }
    }

    /// Makes a change once its record is in the journal. The record comes with its
    /// payload; a refused or failed append changes nothing.
    pub fn write_record<A: FnOnce(&Vec<u8>) -> Result<()>>(
        &mut self,
        record: JournalRecord,
        payload: &Vec<u8>,
        append: A,
    ) -> (result: Result<()>)
        requires
            old(self).wf(),
            record@.possible(),
            forall|frame: &Vec<u8>|
                payload@.len() <= Journal::Log.limit() && frame@ == record_frame(
                    Journal::Log,
                    payload@,
                ) ==> #[trigger] append.requires((frame,)),
        ensures
            final(self).wf(),
            payload@.len() > Journal::Log.limit() ==> {
                &&& final(self)@ == old(self)@
                &&& result is Err
                &&& result->Err_0@ == ErrorView::Io(Journal::Log.complaint(Damage::Length))
            },
            payload@.len() <= Journal::Log.limit() ==> exists|frame: &Vec<u8>, logged: Result<()>|
                #[trigger] append.ensures((frame,), logged) && frame@ == record_frame(
                    Journal::Log,
                    payload@,
                ) && match logged {
                    Ok(_) => final(self)@ == recorded(old(self)@, record@) && result == Ok::<
                        (),
                        Error,
                    >(()),
                    Err(error) => final(self)@ == old(self)@ && result == Err::<(), Error>(error),
                },
    {
        match frame_record(Journal::Log, payload) {
            None => Err(Error::Io(Journal::Log.message(Damage::Length).to_owned())),
            Some(frame) => {
                let logged = append(&frame);
                assert(append.ensures((&frame,), logged));
                match logged {
                    Ok(_) => {
                        self.state.apply(record);
                        Ok(())
                    },
                    Err(error) => Err(error),
                }
            },
        }
    }

    /// The last vote.
    pub fn read_vote(&self) -> (vote: Option<Vote>)
        ensures
            vote == self@.vote,
    {
        self.state.vote
    }

    /// The last committed entry.
    pub fn read_committed(&self) -> (committed: Option<LogId>)
        ensures
            committed == self@.committed,
    {
        self.state.committed
    }

    /// Where the log begins and ends.
    pub fn get_log_state(&self) -> (state: LogState)
        requires
            self.wf(),
        ensures
            state.last_purged_log_id == self@.last_purged,
            is_last(self@, state.last_log_id),
    {
        let entries = &self.state.entries;
        proof {
            lemma_by_index(entries@);
        }
        let last: Option<LogId> = if entries.len() == 0 {
            assert(self@.entries.dom() =~= Set::empty());
            self.state.last_purged
        } else {
            let id: LogId = entries[entries.len() - 1].log_id;
            proof {
                let end = entries@.len() - 1;
                let log = self@.entries;
                assert(entries@[end].log_id == id);
                assert(log.contains_key(id.index));
                assert(log.dom().contains(id.index));
                assert forall|other: u64| #[trigger] log.contains_key(other) implies other
                    <= id.index by {
                    let i = choose|i: int|
                        0 <= i < entries@.len() && (#[trigger] entries@[i]).log_id.index == other;
                    if i < end {
                        assert(entries@[i].log_id.index < entries@[end].log_id.index);
                    }
                }
            }
            Some(id)
        };
        LogState { last_purged_log_id: self.state.last_purged, last_log_id: last }
    }

    /// The entries between two edges, by index.
    pub fn try_get_log_entries(&self, low: Edge, high: Edge) -> (list: Vec<Entry>)
        requires
            self.wf(),
            orderly(low, high),
        ensures
            excerpt(self@.entries, low, high, views(list@)),
    {
        let entries = &self.state.entries;
        let ghost log = self@.entries;
        let mut list: Vec<Entry> = Vec::new();
        let mut i: usize = 0;
        proof {
            lemma_by_index(entries@);
        }
        while i < entries.len()
            invariant
                i <= entries@.len(),
                in_index_order(entries@),
                forall|a: int, b: int|
                    0 <= a < b < list@.len() ==> (#[trigger] list@[a]).log_id.index < (
                    #[trigger] list@[b]).log_id.index,
                forall|a: int|
                    0 <= a < list@.len() ==> between(low, high, (#[trigger] list@[a]).log_id.index)
                        && exists|x: int|
                        0 <= x < i && (#[trigger] entries@[x])@ == list@[a]@,
                forall|x: int|
                    0 <= x < i && between(low, high, (#[trigger] entries@[x]).log_id.index)
                        ==> exists|a: int|
                        0 <= a < list@.len() && (#[trigger] list@[a]).log_id.index
                            == entries@[x].log_id.index,
            decreases entries.len() - i,
        {
            let index: u64 = entries[i].log_id.index;
            let above: bool = match low {
                Edge::Included(from) => from <= index,
                Edge::Excluded(from) => from < index,
                Edge::Unbounded => true,
            };
            let below: bool = match high {
                Edge::Included(to) => index <= to,
                Edge::Excluded(to) => index < to,
                Edge::Unbounded => true,
            };
            if above && below {
                let ghost before = list@;
                let copy = entries[i].clone();
                list.push(copy);
                proof {
                    let end = before.len() as int;
                    assert forall|a: int, b: int| 0 <= a < b < list@.len() implies (
                    #[trigger] list@[a]).log_id.index < (#[trigger] list@[b]).log_id.index by {
                        assert(list@[a] == before[a]);
                        if b == end {
                            let x = choose|x: int|
                                0 <= x < i && (#[trigger] entries@[x])@ == before[a]@;
                            assert(entries@[x].log_id.index < entries@[i as int].log_id.index);
                        } else {
                            assert(list@[b] == before[b]);
                        }
                    }
                    assert forall|a: int| 0 <= a < list@.len() implies between(
                        low,
                        high,
                        (#[trigger] list@[a]).log_id.index,
                    ) && exists|x: int|
                        0 <= x < i + 1 && (#[trigger] entries@[x])@ == list@[a]@ by {
                        if a == end {
                            assert(entries@[i as int]@ == list@[a]@);
                        } else {
                            assert(list@[a] == before[a]);
                            let x = choose|x: int|
                                0 <= x < i && (#[trigger] entries@[x])@ == before[a]@;
                            assert(entries@[x]@ == list@[a]@);
                        }
                    }
                    assert forall|x: int|
                        0 <= x < i + 1 && between(
                            low,
                            high,
                            (#[trigger] entries@[x]).log_id.index,
                        ) implies exists|a: int|
                        0 <= a < list@.len() && (#[trigger] list@[a]).log_id.index
                            == entries@[x].log_id.index by {
                        if x == i {
                            assert(list@[end].log_id.index == entries@[x].log_id.index);
                        } else {
                            let a = choose|a: int|
                                0 <= a < before.len() && (#[trigger] before[a]).log_id.index
                                    == entries@[x].log_id.index;
                            assert(list@[a] == before[a]);
                        }
                    }
                }
            }
            i = i + 1;
        }
        proof {
            let shown = views(list@);
            assert forall|a: int, b: int| 0 <= a < b < shown.len() implies (
            #[trigger] shown[a]).log_id.index < (#[trigger] shown[b]).log_id.index by {
                assert(list@[a].log_id.index < list@[b].log_id.index);
            }
            assert forall|a: int| 0 <= a < shown.len() implies log.contains_key(
                (#[trigger] shown[a]).log_id.index,
            ) && log[shown[a].log_id.index] == shown[a] && between(
                low,
                high,
                shown[a].log_id.index,
            ) by {
                assert(between(low, high, list@[a].log_id.index));
                let x = choose|x: int|
                    0 <= x < entries@.len() && (#[trigger] entries@[x])@ == list@[a]@;
                assert(log.contains_key(entries@[x].log_id.index));
            }
            assert forall|index: u64| #[trigger]
                log.contains_key(index) && between(low, high, index) implies exists|a: int|
                0 <= a < shown.len() && (#[trigger] shown[a]).log_id.index == index by {
                let x = choose|x: int|
                    0 <= x < entries@.len() && (#[trigger] entries@[x]).log_id.index == index;
                assert(between(low, high, entries@[x].log_id.index));
                let a = choose|a: int|
                    0 <= a < list@.len() && (#[trigger] list@[a]).log_id.index
                        == entries@[x].log_id.index;
                assert(shown[a].log_id.index == index);
            }
        }
        list
    }
}

/// Opening the journal of a log again gives the log: a change that was written is
/// the last record that is replayed.
pub proof fn law_written_records_are_replayed(records: Seq<RecordView>, record: RecordView)
    ensures
        recorded_all(empty_log(), records.push(record)) == recorded(
            recorded_all(empty_log(), records),
            record,
        ),
{
    assert(records.push(record).drop_last() =~= records);
}

/// Truncating a log takes the entries from an index on, purging those up to one;
/// both leave the other entries as they are.
pub proof fn law_truncation_and_purge_keep_the_rest(log: LogView, log_id: LogId, index: u64)
    ensures
        recorded(log, RecordView::Truncate(log_id)).entries.contains_key(index) == (
        log.entries.contains_key(index) && index < log_id.index),
        recorded(log, RecordView::Purge(log_id)).entries.contains_key(index) == (
        log.entries.contains_key(index) && index > log_id.index),
        recorded(log, RecordView::Truncate(log_id)).entries.contains_key(index) ==> recorded(
            log,
            RecordView::Truncate(log_id),
        ).entries[index] == log.entries[index],
        recorded(log, RecordView::Purge(log_id)).entries.contains_key(index) ==> recorded(
            log,
            RecordView::Purge(log_id),
        ).entries[index] == log.entries[index],
        recorded(log, RecordView::Purge(log_id)).last_purged == Some(log_id),
{
}

/// Appended entries are found at their indexes, the last one where two have the
/// same; entries at other indexes stay as they are.
pub proof fn law_appended_entries_are_found(log: LogView, entries: Seq<EntryView>, i: int)
    requires
        0 <= i < entries.len(),
        forall|j: int|
            i < j < entries.len() ==> (#[trigger] entries[j]).log_id.index
                != entries[i].log_id.index,
    ensures
        recorded(log, RecordView::Append(entries)).entries.contains_key(entries[i].log_id.index),
        recorded(log, RecordView::Append(entries)).entries[entries[i].log_id.index] == entries[i],
    decreases entries.len(),
{
    if i < entries.len() - 1 {
        let rest = entries.drop_last();
        assert forall|j: int| i < j < rest.len() implies (#[trigger] rest[j]).log_id.index
            != rest[i].log_id.index by {
            assert(entries[j].log_id.index != entries[i].log_id.index);
        }
        law_appended_entries_are_found(log, rest, i);
        assert(entries[entries.len() - 1].log_id.index != entries[i].log_id.index);
    }
}

/// What is saved is what is read: a vote and a committed position replace the ones
/// before, and each leaves everything else of the log as it was. Appending and
/// truncating touch neither, and only a purge moves the place where the log begins.
pub proof fn law_records_change_only_their_part(
    log: LogView,
    vote: Vote,
    committed: Option<LogId>,
    entries: Seq<EntryView>,
    log_id: LogId,
)
    ensures
        ({
            let after = recorded(log, RecordView::SaveVote(vote));
            &&& after.vote == Some(vote)
            &&& after.committed == log.committed
            &&& after.last_purged == log.last_purged
            &&& after.entries == log.entries
        }),
        ({
            let after = recorded(log, RecordView::SaveCommitted(committed));
            &&& after.committed == committed
            &&& after.vote == log.vote
            &&& after.last_purged == log.last_purged
            &&& after.entries == log.entries
        }),
        ({
            let after = recorded(log, RecordView::Append(entries));
            &&& after.vote == log.vote
            &&& after.committed == log.committed
            &&& after.last_purged == log.last_purged
        }),
        ({
            let after = recorded(log, RecordView::Truncate(log_id));
            &&& after.vote == log.vote
            &&& after.committed == log.committed
            &&& after.last_purged == log.last_purged
        }),
        ({
            let after = recorded(log, RecordView::Purge(log_id));
            &&& after.vote == log.vote
            &&& after.committed == log.committed
            &&& after.last_purged == Some(log_id)
        }),
{
}

/// Appending leaves the entries at all other indexes as they are, and adds none there.
pub proof fn law_appending_keeps_the_rest(log: LogView, entries: Seq<EntryView>, index: u64)
    requires
        forall|i: int| 0 <= i < entries.len() ==> (#[trigger] entries[i]).log_id.index != index,
    ensures
        recorded(log, RecordView::Append(entries)).entries.contains_key(index)
            == log.entries.contains_key(index),
        log.entries.contains_key(index) ==> recorded(
            log,
            RecordView::Append(entries),
        ).entries[index] == log.entries[index],
    decreases entries.len(),
{
    if entries.len() > 0 {
        let rest = entries.drop_last();
        assert forall|i: int| 0 <= i < rest.len() implies (#[trigger] rest[i]).log_id.index
            != index by {
            assert(entries[i].log_id.index != index);
        }
        law_appending_keeps_the_rest(log, rest, index);
        assert(entries[entries.len() - 1].log_id.index != index);
    }
}

/// Reading a range of a log gives back what was appended there: each appended entry
/// whose index lies between the edges, the last one where two have the same index, and
/// entries by growing index. Nothing comes from outside of the range.
pub proof fn law_appended_entries_are_read(
    log: LogView,
    entries: Seq<EntryView>,
    low: Edge,
    high: Edge,
    list: Seq<EntryView>,
    i: int,
)
    requires
        excerpt(recorded(log, RecordView::Append(entries)).entries, low, high, list),
        0 <= i < entries.len(),
        forall|j: int|
            i < j < entries.len() ==> (#[trigger] entries[j]).log_id.index
                != entries[i].log_id.index,
    ensures
        list.contains(entries[i]) <==> between(low, high, entries[i].log_id.index),
        forall|a: int, b: int|
            0 <= a < b < list.len() ==> (#[trigger] list[a]).log_id.index < (
            #[trigger] list[b]).log_id.index,
        forall|a: int|
            0 <= a < list.len() ==> between(low, high, (#[trigger] list[a]).log_id.index),
{
    law_appended_entries_are_found(log, entries, i);
    let after = recorded(log, RecordView::Append(entries)).entries;
    let index = entries[i].log_id.index;
    if between(low, high, index) {
        assert(after.contains_key(index));
        let a = choose|a: int| 0 <= a < list.len() && (#[trigger] list[a]).log_id.index == index;
        assert(list[a] == entries[i]);
    }
    if list.contains(entries[i]) {
        let a = choose|a: int| 0 <= a < list.len() && list[a] == entries[i];
        assert(between(low, high, list[a].log_id.index));
    }
}

/// The log ends with the entry of the highest index: after an append the last entry is an
/// appended one or lies behind them all; after a truncation it lies before the place of
/// the cut; and a log that was purged to its end ends where the purge did.
pub proof fn law_log_ends_where_it_was_written(
    log: LogView,
    entries: Seq<EntryView>,
    log_id: LogId,
    last: Option<LogId>,
)
    requires
        forall|index: u64| #[trigger]
            log.entries.contains_key(index) ==> log.entries[index].log_id.index == index,
    ensures
        is_last(recorded(log, RecordView::Append(entries)), last) ==> forall|i: int|
            0 <= i < entries.len() ==> last is Some && last->Some_0.index >= (
            #[trigger] entries[i]).log_id.index,
        is_last(recorded(log, RecordView::Truncate(log_id)), last) ==> last is None || last
            == log.last_purged || last->Some_0.index < log_id.index,
        is_last(recorded(log, RecordView::Purge(log_id)), last) ==> last is Some && (last
            == Some(log_id) || last->Some_0.index > log_id.index),
{
    if is_last(recorded(log, RecordView::Append(entries)), last) {
        let after = recorded(log, RecordView::Append(entries));
        lemma_entries_at_their_indexes(log.entries, entries);
        assert forall|i: int| 0 <= i < entries.len() implies last is Some
            && last->Some_0.index >= (#[trigger] entries[i]).log_id.index by {
            lemma_some_entry_there(log.entries, entries, i);
            assert(after.entries.dom().contains(entries[i].log_id.index));
            assert(after.entries.contains_key(entries[i].log_id.index));
        }
    }
    if is_last(recorded(log, RecordView::Truncate(log_id)), last) {
        let after = recorded(log, RecordView::Truncate(log_id));
        assert forall|index: u64| #[trigger] after.entries.contains_key(index) implies index
            < log_id.index && after.entries[index].log_id.index == index by {
            law_truncation_and_purge_keep_the_rest(log, log_id, index);
            assert(log.entries.contains_key(index));
        }
    }
    if is_last(recorded(log, RecordView::Purge(log_id)), last) {
        let after = recorded(log, RecordView::Purge(log_id));
        assert forall|index: u64| #[trigger] after.entries.contains_key(index) implies index
            > log_id.index && after.entries[index].log_id.index == index by {
            law_truncation_and_purge_keep_the_rest(log, log_id, index);
            assert(log.entries.contains_key(index));
        }
    }
}

proof fn lemma_entries_at_their_indexes(log: Map<u64, EntryView>, entries: Seq<EntryView>)
    requires
        forall|index: u64| #[trigger]
            log.contains_key(index) ==> log[index].log_id.index == index,
    ensures
        forall|index: u64| #[trigger]
            with_entries(log, entries).contains_key(index) ==> with_entries(
                log,
                entries,
            )[index].log_id.index == index,
    decreases entries.len(),
{
    if entries.len() > 0 {
        lemma_entries_at_their_indexes(log, entries.drop_last());
    }
}

proof fn lemma_some_entry_there(log: Map<u64, EntryView>, entries: Seq<EntryView>, i: int)
    requires
        0 <= i < entries.len(),
    ensures
        with_entries(log, entries).contains_key(entries[i].log_id.index),
    decreases entries.len(),
{
    if i < entries.len() - 1 {
        lemma_some_entry_there(log, entries.drop_last(), i);
    }
}

} // verus!
