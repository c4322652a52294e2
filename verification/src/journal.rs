//! Append-only journals of checksummed records.
//!
//! A record is a frame of a magic, a version, a length, the payload and its
//! checksum. A frame that the end of the file cuts short was never acknowledged
//! and is dropped; any other fault is damage.
use crate::bytes::{
    joined, le, le_value, lemma_byte_ranges, lemma_le_round_trip, lemma_le_value_round_trip,
    lemma_stands_split, number_from, put_bytes, put_number, stands_at,
};
use crate::checksum::{checksum, crc32c, law_checksum_exposes_a_changed_byte};
use crate::collection::views;
use vstd::prelude::*;
use vstd::slice::*;

verus! {

/// The version in every frame.
pub const JOURNAL_VERSION: u8 = 1;

/// Which journal a record belongs to.
#[derive(Debug, Clone, Copy, PartialEq, Eq, Structural)]
pub enum Journal {
    /// The replicated log.
    Log,
    /// The applied entries.
    State,
}

/// What is wrong with a journal.
#[derive(Debug, Clone, Copy, PartialEq, Eq, Structural)]
pub enum Damage {
    Header,
    Length,
    Checksum,
}

impl Journal {
    /// The first bytes of every frame.
    pub open spec fn magic(self) -> Seq<u8> {
        match self {
            Journal::Log => seq![0x46u8, 0x56u8, 0x52u8, 0x4au8],
            Journal::State => seq![0x46u8, 0x56u8, 0x52u8, 0x53u8],
        }
    }

    /// The length of the longest payload.
    pub open spec fn limit(self) -> nat {
        match self {
            Journal::Log => 64 * 1024 * 1024,
            Journal::State => 256 * 1024 * 1024,
        }
    }

    /// The sentence for damage.
    pub open spec fn complaint(self, damage: Damage) -> Seq<char> {
        match (self, damage) {
            (Journal::Log, Damage::Header) => "invalid Raft journal header"@,
            (Journal::Log, Damage::Length) => "Raft journal record exceeds size limit"@,
            (Journal::Log, Damage::Checksum) => "Raft journal checksum mismatch"@,
            (Journal::State, Damage::Header) => "invalid state journal header"@,
            (Journal::State, Damage::Length) => "state record exceeds size limit"@,
            (Journal::State, Damage::Checksum) => "state journal checksum mismatch"@,
        }
    }

    /// The sentence for damage. A payload over the limit is refused with the one
    /// for its length.
    pub fn message(&self, damage: Damage) -> (text: &'static str)
        ensures
            text@ == self.complaint(damage),
    {
        match (*self, damage) {
            (Journal::Log, Damage::Header) => "invalid Raft journal header",
            (Journal::Log, Damage::Length) => "Raft journal record exceeds size limit",
            (Journal::Log, Damage::Checksum) => "Raft journal checksum mismatch",
            (Journal::State, Damage::Header) => "invalid state journal header",
            (Journal::State, Damage::Length) => "state record exceeds size limit",
            (Journal::State, Damage::Checksum) => "state journal checksum mismatch",
        }
    }

    fn last_magic(&self) -> (byte: u8)
        ensures
            self.magic() == seq![0x46u8, 0x56u8, 0x52u8, byte],
    {
        match *self {
            Journal::Log => 0x4a,
            Journal::State => 0x53,
        }
    }

    fn longest(&self) -> (length: u64)
        ensures
            length == self.limit(),
    {
        match *self {
            Journal::Log => 64 * 1024 * 1024,
            Journal::State => 256 * 1024 * 1024,
        }
    }
}

/// The frame of a payload.
pub open spec fn record_frame(journal: Journal, payload: Seq<u8>) -> Seq<u8> {
    journal.magic() + seq![JOURNAL_VERSION] + le(payload.len(), 4) + payload + le(
        checksum(payload) as nat,
        4,
    )
}

/// The frame of a payload, or `None` where it is longer than the journal allows.
pub fn frame_record(journal: Journal, payload: &Vec<u8>) -> (frame: Option<Vec<u8>>)
    ensures
        match frame {
            Some(bytes) => payload@.len() <= journal.limit() && bytes@ == record_frame(
                journal,
                payload@,
            ),
            None => payload@.len() > journal.limit(),
        },
{
    if payload.len() as u64 > journal.longest() {
        return None;
    }
    let mut output: Vec<u8> = Vec::new();
    output.push(0x46);
    output.push(0x56);
    output.push(0x52);
    output.push(journal.last_magic());
    assert(output@ =~= journal.magic());
    output.push(JOURNAL_VERSION);
    assert(output@ =~= journal.magic() + seq![JOURNAL_VERSION]);
    put_number(&mut output, payload.len() as u64, 4);
    put_bytes(&mut output, payload.as_slice());
    put_number(&mut output, crc32c(payload.as_slice()) as u64, 4);
    Some(output)
}

/// What a journal holds: the payloads of its whole frames, where they end, and
/// what is wrong behind them.
pub struct ScanView {
    pub payloads: Seq<Seq<u8>>,
    pub valid_length: int,
    pub damage: Option<Damage>,
}

/// What a journal holds from a position on.
pub open spec fn scanned(journal: Journal, bytes: Seq<u8>, at: int) -> ScanView
    decreases bytes.len() - at,
{
    let rest = bytes.len() - at;
    if at < 0 || rest < 9 {
        ScanView { payloads: seq![], valid_length: at, damage: None }
    } else if bytes.subrange(at, at + 4) != journal.magic() || bytes[at + 4] != JOURNAL_VERSION {
        ScanView { payloads: seq![], valid_length: at, damage: Some(Damage::Header) }
    } else {
        let length = le_value(bytes.subrange(at + 5, at + 9)) as int;
        if length > journal.limit() {
            ScanView { payloads: seq![], valid_length: at, damage: Some(Damage::Length) }
        } else if rest < 13 + length {
            ScanView { payloads: seq![], valid_length: at, damage: None }
        } else {
            let payload = bytes.subrange(at + 9, at + 9 + length);
            let stored = le_value(bytes.subrange(at + 9 + length, at + 13 + length));
            if checksum(payload) != stored {
                ScanView { payloads: seq![], valid_length: at, damage: Some(Damage::Checksum) }
            } else {
                let behind = scanned(journal, bytes, at + 13 + length);
                ScanView { payloads: seq![payload] + behind.payloads, ..behind }
            }
        }
    }
}

/// What a journal holds.
pub struct Scan {
    /// The payloads of the whole frames.
    pub payloads: Vec<Vec<u8>>,
    /// Where the last whole frame ends; without damage, what is behind it is to be
    /// cut off.
    pub valid_length: usize,
    /// What is wrong behind the last whole frame.
    pub damage: Option<Damage>,
}

impl View for Scan {
    type V = ScanView;

    open spec fn view(&self) -> ScanView {
        ScanView {
            payloads: views(self.payloads@),
            valid_length: self.valid_length as int,
            damage: self.damage,
        }
    }
}

/// Reads a journal.
pub fn scan_records(journal: Journal, bytes: &[u8]) -> (scan: Scan)
    ensures
        scan@ == scanned(journal, bytes@, 0),
        scan.valid_length <= bytes@.len(),
{
    let mut payloads: Vec<Vec<u8>> = Vec::new();
    let mut at: usize = 0;
    let ghost whole = scanned(journal, bytes@, 0);
    assert(views(payloads@) + whole.payloads =~= whole.payloads);
    loop
        invariant
            at <= bytes@.len(),
            whole == scanned(journal, bytes@, 0),
            ({
                let behind = scanned(journal, bytes@, at as int);
                &&& whole.payloads == views(payloads@) + behind.payloads
                &&& whole.valid_length == behind.valid_length
                &&& whole.damage == behind.damage
            }),
        decreases bytes@.len() - at,
    {
        let rest: usize = bytes.len() - at;
        let ghost sofar = views(payloads@);
        assert(sofar + Seq::<Seq<u8>>::empty() =~= sofar);
        if rest < 9 {
            return Scan { payloads, valid_length: at, damage: None };
        }
        let magic = slice_subrange(bytes, at, at + 4);
        proof {
            let front = bytes@.subrange(at as int, at + 4);
            assert(front[0] == bytes@[at as int] && front[1] == bytes@[at + 1] && front[2]
                == bytes@[at + 2] && front[3] == bytes@[at + 3]);
            let wanted = journal.magic();
            assert(wanted[0] == 0x46 && wanted[1] == 0x56 && wanted[2] == 0x52);
        }
        let last: u8 = journal.last_magic();
        assert(journal.magic()[3] == last);
        if magic[0] != 0x46 || magic[1] != 0x56 || magic[2] != 0x52 || magic[3] != last || bytes[at
            + 4] != JOURNAL_VERSION {
            return Scan { payloads, valid_length: at, damage: Some(Damage::Header) };
        }
        assert(magic@ =~= journal.magic());
        proof {
            lemma_byte_ranges();
        }
        let length: u64 = number_from(slice_subrange(bytes, at + 5, at + 9));
        if length > journal.longest() {
            return Scan { payloads, valid_length: at, damage: Some(Damage::Length) };
        }
        let length: usize = length as usize;
        if rest - 9 < 4 || rest - 13 < length {
            return Scan { payloads, valid_length: at, damage: None };
        }
        let payload = slice_subrange(bytes, at + 9, at + 9 + length);
        let stored: u64 = number_from(slice_subrange(bytes, at + 9 + length, at + 13 + length));
        if crc32c(payload) as u64 != stored {
            return Scan { payloads, valid_length: at, damage: Some(Damage::Checksum) };
        }
        let copy = slice_to_vec(payload);
        payloads.push(copy);
        proof {
            assert(copy@ =~= payload@);
            assert(views(payloads@) =~= sofar.push(copy@));
            let behind = scanned(journal, bytes@, at + 13 + length);
            assert(sofar + (seq![payload@] + behind.payloads) =~= views(payloads@)
                + behind.payloads);
        }
        at = at + 13 + length;
    }
}

/// Frames of payloads, for use with [`joined`].
pub open spec fn framing(journal: Journal) -> spec_fn(Seq<u8>) -> Seq<u8> {
    |payload: Seq<u8>| record_frame(journal, payload)
}

/// A frame that stands whole at a position is read, and the scan goes on behind it.
pub proof fn lemma_frame_is_read(journal: Journal, bytes: Seq<u8>, at: int, payload: Seq<u8>)
    requires
        payload.len() <= journal.limit(),
        stands_at(bytes, at, record_frame(journal, payload)),
    ensures
        ({
            let behind = scanned(journal, bytes, at + record_frame(journal, payload).len());
            let here = scanned(journal, bytes, at);
            &&& here.payloads == seq![payload] + behind.payloads
            &&& here.valid_length == behind.valid_length
            &&& here.damage == behind.damage
        }),
{
    let size = le(payload.len(), 4);
    let sum = le(checksum(payload) as nat, 4);
    lemma_byte_ranges();
    lemma_le_round_trip(payload.len(), 4);
    lemma_le_round_trip(checksum(payload) as nat, 4);
    let head = journal.magic();
    let version = seq![JOURNAL_VERSION];
    lemma_stands_split(bytes, at, head + version + size + payload, sum);
    lemma_stands_split(bytes, at, head + version + size, payload);
    lemma_stands_split(bytes, at, head + version, size);
    lemma_stands_split(bytes, at, head, version);
    assert(bytes.subrange(at + 4, at + 5)[0] == version[0]);
    assert(bytes[at + 4] == JOURNAL_VERSION);
}

/// The length of frames in a row.
proof fn lemma_joined_push(journal: Journal, payloads: Seq<Seq<u8>>, i: int)
    requires
        0 <= i < payloads.len(),
    ensures
        joined(payloads.subrange(0, i + 1), framing(journal)) == joined(
            payloads.subrange(0, i),
            framing(journal),
        ) + record_frame(journal, payloads[i]),
{
    assert(payloads.subrange(0, i + 1).drop_last() =~= payloads.subrange(0, i));
}

proof fn lemma_joined_prefix(journal: Journal, payloads: Seq<Seq<u8>>, i: int)
    requires
        0 <= i <= payloads.len(),
    ensures
        ({
            let whole = joined(payloads, framing(journal));
            let part = joined(payloads.subrange(0, i), framing(journal));
            part.len() <= whole.len() && whole.subrange(0, part.len() as int) == part
        }),
    decreases payloads.len() - i,
{
    let whole = joined(payloads, framing(journal));
    let part = joined(payloads.subrange(0, i), framing(journal));
    if i == payloads.len() {
        assert(payloads.subrange(0, i) =~= payloads);
        assert(whole.subrange(0, part.len() as int) =~= part);
    } else {
        lemma_joined_push(journal, payloads, i);
        lemma_joined_prefix(journal, payloads, i + 1);
        let longer = joined(payloads.subrange(0, i + 1), framing(journal));
        assert(whole.subrange(0, part.len() as int) =~= part) by {
            assert forall|x: int| 0 <= x < part.len() implies whole[x] == part[x] by {
                assert(longer[x] == part[x]);
                assert(whole.subrange(0, longer.len() as int)[x] == longer[x]);
            }
        }
    }
}

/// A frame cut short is dropped.
proof fn lemma_torn_frame_is_dropped(journal: Journal, bytes: Seq<u8>, at: int, payload: Seq<u8>)
    requires
        payload.len() <= journal.limit(),
        0 <= at <= bytes.len(),
        bytes.len() - at < record_frame(journal, payload).len(),
        bytes.subrange(at, bytes.len() as int) == record_frame(journal, payload).subrange(
            0,
            bytes.len() - at,
        ),
    ensures
        scanned(journal, bytes, at) == (ScanView {
            payloads: seq![],
            valid_length: at,
            damage: None,
        }),
{
    let rest = bytes.len() - at;
    if rest >= 9 {
        let size = le(payload.len(), 4);
        lemma_byte_ranges();
        lemma_le_round_trip(payload.len(), 4);
        lemma_le_round_trip(checksum(payload) as nat, 4);
        let frame = record_frame(journal, payload);
        let tail = bytes.subrange(at, bytes.len() as int);
        assert forall|i: int| 0 <= i < rest implies bytes[at + i] == frame[i] by {
            assert(tail[i] == frame.subrange(0, rest)[i]);
        }
        assert(bytes.subrange(at, at + 4) =~= journal.magic());
        assert(frame[4] == JOURNAL_VERSION);
        assert(bytes.subrange(at + 5, at + 9) =~= size) by {
            assert forall|i: int| 0 <= i < 4 implies bytes[at + 5 + i] == size[i] by {
                assert(bytes[at + (5 + i)] == frame[5 + i]);
            }
        }
    }
}

proof fn lemma_frames_are_read(
    journal: Journal,
    payloads: Seq<Seq<u8>>,
    bytes: Seq<u8>,
    i: int,
)
    requires
        0 <= i <= payloads.len(),
        forall|j: int|
            0 <= j < payloads.len() ==> (#[trigger] payloads[j]).len() <= journal.limit(),
        stands_at(bytes, 0, joined(payloads, framing(journal))),
    ensures
        ({
            let here = joined(payloads.subrange(0, i), framing(journal)).len() as int;
            let end = joined(payloads, framing(journal)).len() as int;
            let behind = scanned(journal, bytes, end);
            scanned(journal, bytes, here) == (ScanView {
                payloads: payloads.subrange(i, payloads.len() as int) + behind.payloads,
                ..behind
            })
        }),
    decreases payloads.len() - i,
{
    let whole = joined(payloads, framing(journal));
    let behind = scanned(journal, bytes, whole.len() as int).payloads;
    if i == payloads.len() {
        assert(payloads.subrange(0, i) =~= payloads);
        assert(payloads.subrange(i, i) + behind =~= behind);
    } else {
        lemma_frames_are_read(journal, payloads, bytes, i + 1);
        lemma_joined_push(journal, payloads, i);
        lemma_joined_prefix(journal, payloads, i + 1);
        let part = joined(payloads.subrange(0, i), framing(journal));
        let frame = record_frame(journal, payloads[i]);
        assert(stands_at(bytes, 0, part + frame)) by {
            assert(bytes.subrange(0, (part + frame).len() as int) =~= part + frame) by {
                assert forall|x: int| 0 <= x < (part + frame).len() implies bytes[x] == (part
                    + frame)[x] by {
                    assert(whole.subrange(0, (part + frame).len() as int)[x] == (part + frame)[x]);
                    assert(bytes.subrange(0, whole.len() as int)[x] == whole[x]);
                }
            }
        }
        lemma_stands_split(bytes, 0, part, frame);
        assert(payloads[i].len() <= journal.limit());
        lemma_frame_is_read(journal, bytes, part.len() as int, payloads[i]);
        assert(seq![payloads[i]] + (payloads.subrange(i + 1, payloads.len() as int) + behind)
            =~= payloads.subrange(i, payloads.len() as int) + behind);
    }
}

/// Frames in a row are read, and then what is behind them.
proof fn lemma_all_frames_are_read(journal: Journal, payloads: Seq<Seq<u8>>, bytes: Seq<u8>)
    requires
        forall|j: int|
            0 <= j < payloads.len() ==> (#[trigger] payloads[j]).len() <= journal.limit(),
        stands_at(bytes, 0, joined(payloads, framing(journal))),
    ensures
        ({
            let behind = scanned(
                journal,
                bytes,
                joined(payloads, framing(journal)).len() as int,
            );
            scanned(journal, bytes, 0) == (ScanView {
                payloads: payloads + behind.payloads,
                ..behind
            })
        }),
{
    lemma_frames_are_read(journal, payloads, bytes, 0);
    assert(payloads.subrange(0, 0) =~= Seq::empty());
    assert(payloads.subrange(0, payloads.len() as int) =~= payloads);
}

/// Every record that was appended whole is read back in order. Of one more whose
/// append was cut short, nothing is read, and nothing of it counts as damage.
#[verifier::spinoff_prover]
#[verifier::rlimit(40)]
pub proof fn law_records_are_read_back(
    journal: Journal,
    payloads: Seq<Seq<u8>>,
    next: Seq<u8>,
    cut: int,
)
    requires
        forall|i: int|
            0 <= i < payloads.len() ==> (#[trigger] payloads[i]).len() <= journal.limit(),
        next.len() <= journal.limit(),
        0 <= cut < record_frame(journal, next).len(),
    ensures
        scanned(
            journal,
            joined(payloads, framing(journal)) + record_frame(journal, next).subrange(0, cut),
            0,
        ) == (ScanView {
            payloads,
            valid_length: joined(payloads, framing(journal)).len() as int,
            damage: None,
        }),
{
    let whole = joined(payloads, framing(journal));
    let torn = record_frame(journal, next).subrange(0, cut);
    let bytes = whole + torn;
    assert(bytes.subrange(0, whole.len() as int) =~= whole);
    assert(bytes.subrange(whole.len() as int, bytes.len() as int) =~= torn);
    lemma_torn_frame_is_dropped(journal, bytes, whole.len() as int, next);
    lemma_all_frames_are_read(journal, payloads, bytes);
    assert(payloads + Seq::<Seq<u8>>::empty() =~= payloads);
}

/// A changed byte in a frame, in the payload or in the checksum, is noticed.
proof fn lemma_changed_frame(
    journal: Journal,
    bytes: Seq<u8>,
    at: int,
    payload: Seq<u8>,
    position: int,
    byte: u8,
)
    requires
        payload.len() <= journal.limit(),
        9 <= position < record_frame(journal, payload).len(),
        byte != record_frame(journal, payload)[position],
        0 <= at,
        stands_at(bytes, at, record_frame(journal, payload).update(position, byte)),
    ensures
        scanned(journal, bytes, at) == (ScanView {
            payloads: seq![],
            valid_length: at,
            damage: Some(Damage::Checksum),
        }),
{
    let frame = record_frame(journal, payload);
    let changed = frame.update(position, byte);
    let size = le(payload.len(), 4);
    let sum = le(checksum(payload) as nat, 4);
    let end = 9 + payload.len() as int;
    lemma_byte_ranges();
    lemma_le_round_trip(payload.len(), 4);
    lemma_le_round_trip(checksum(payload) as nat, 4);
    assert forall|i: int| 0 <= i < changed.len() implies bytes[at + i] == changed[i] by {
        assert(bytes.subrange(at, at + changed.len())[i] == changed[i]);
    }
    assert(bytes.subrange(at, at + 4) =~= journal.magic());
    assert(bytes[at + 4] == changed[4]);
    assert(bytes.subrange(at + 5, at + 9) =~= size) by {
        assert forall|i: int| 0 <= i < 4 implies bytes[at + 5 + i] == size[i] by {
            assert(bytes[at + (5 + i)] == changed[5 + i]);
        }
    }
    let read = bytes.subrange(at + 9, at + end);
    let stored = bytes.subrange(at + end, at + end + 4);
    assert forall|i: int| 0 <= i < payload.len() implies read[i] == changed[9 + i] by {
        assert(bytes[at + (9 + i)] == changed[9 + i]);
    }
    assert forall|i: int| 0 <= i < 4 implies stored[i] == changed[end + i] by {
        assert(bytes[at + (end + i)] == changed[end + i]);
    }
    if position < end {
        assert(read =~= payload.update(position - 9, byte));
        assert(stored =~= sum);
        law_checksum_exposes_a_changed_byte(payload, position - 9, byte);
    } else {
        assert(read =~= payload);
        assert(stored[position - end] != sum[position - end]);
        lemma_le_value_round_trip(stored);
    }
}

/// A changed byte in the payload or in the checksum of a record is noticed, wherever
/// the record stands: the records before it are read, nothing of it is, and nothing of
/// what is behind it.
pub proof fn law_changed_record_is_damage(
    journal: Journal,
    before: Seq<Seq<u8>>,
    payload: Seq<u8>,
    behind: Seq<u8>,
    position: int,
    byte: u8,
)
    requires
        forall|i: int| 0 <= i < before.len() ==> (#[trigger] before[i]).len() <= journal.limit(),
        payload.len() <= journal.limit(),
        9 <= position < record_frame(journal, payload).len(),
        byte != record_frame(journal, payload)[position],
    ensures
        scanned(
            journal,
            joined(before, framing(journal)) + record_frame(journal, payload).update(
                position,
                byte,
            ) + behind,
            0,
        ) == (ScanView {
            payloads: before,
            valid_length: joined(before, framing(journal)).len() as int,
            damage: Some(Damage::Checksum),
        }),
{
    let front = joined(before, framing(journal));
    let changed = record_frame(journal, payload).update(position, byte);
    let bytes = front + changed + behind;
    assert(bytes.subrange(0, front.len() as int) =~= front);
    assert(bytes.subrange(front.len() as int, (front.len() + changed.len()) as int) =~= changed);
    lemma_changed_frame(journal, bytes, front.len() as int, payload, position, byte);
    lemma_all_frames_are_read(journal, before, bytes);
    assert(before + Seq::<Seq<u8>>::empty() =~= before);
}

} // verus!
