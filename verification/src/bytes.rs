//! Reading and writing the binary formats: little-endian numbers and
//! length-prefixed text.
use crate::error::{Error, ErrorView, Result};
use crate::text::text_from_bytes;
use vstd::prelude::*;
use vstd::utf8::*;

verus! {

/// The `width` little-endian bytes of a number.
pub open spec fn le(value: nat, width: nat) -> Seq<u8>
    decreases width,
{
    if width == 0 {
        seq![]
    } else {
        seq![(value % 256) as u8] + le(value / 256, (width - 1) as nat)
    }
}

/// The number that little-endian bytes stand for.
pub open spec fn le_value(bytes: Seq<u8>) -> nat
    decreases bytes.len(),
{
    if bytes.len() == 0 {
        0
    } else {
        bytes[0] as nat + 256 * le_value(bytes.drop_first())
    }
}

/// `256` to the power of `width`.
pub open spec fn byte_range(width: nat) -> nat
    decreases width,
{
    if width == 0 {
        1
    } else {
        256 * byte_range((width - 1) as nat)
    }
}

/// The widths that the formats use, spelled out.
pub proof fn lemma_byte_ranges()
    ensures
        byte_range(1) == 0x100,
        byte_range(4) == 0x1_0000_0000,
        byte_range(8) == 0x1_0000_0000_0000_0000,
{
    reveal_with_fuel(byte_range, 9);
}

/// Writing a number takes exactly its width, and reading it back gives the number.
pub proof fn lemma_le_round_trip(value: nat, width: nat)
    ensures
        le(value, width).len() == width,
        value < byte_range(width) ==> le_value(le(value, width)) == value,
    decreases width,
{
    if width > 0 {
        lemma_le_round_trip(value / 256, (width - 1) as nat);
        let bytes = le(value, width);
        assert(bytes.drop_first() =~= le(value / 256, (width - 1) as nat));
    }
}

/// `width` bytes hold a number below `256^width`.
pub proof fn lemma_le_value_bound(bytes: Seq<u8>)
    ensures
        le_value(bytes) < byte_range(bytes.len()),
    decreases bytes.len(),
{
    if bytes.len() > 0 {
        lemma_le_value_bound(bytes.drop_first());
    }
}

/// Reading bytes as a number and writing it at their width gives the bytes back.
pub proof fn lemma_le_value_round_trip(bytes: Seq<u8>)
    ensures
        le(le_value(bytes), bytes.len()) == bytes,
    decreases bytes.len(),
{
    let value = le_value(bytes);
    if bytes.len() > 0 {
        let rest = bytes.drop_first();
        lemma_le_value_round_trip(rest);
        let low = bytes[0] as nat;
        let high = le_value(rest);
        assert(value == low + 256 * high);
        assert(value / 256 == high && value % 256 == low) by (nonlinear_arith)
            requires
                value == low + 256 * high,
                low < 256,
        ;
        assert(le(value, bytes.len()) =~= bytes) by {
            assert(le(high, rest.len()) == rest);
        }
    } else {
        assert(le(value, 0) =~= bytes);
    }
}

/// The number that an `i64` is stored as: its two's complement.
pub open spec fn signed_bits(value: i64) -> nat {
    if value >= 0 {
        value as nat
    } else {
        (value + 0x1_0000_0000_0000_0000) as nat
    }
}

/// The `i64` whose two's complement is given.
pub open spec fn signed_value(bits: nat) -> i64 {
    if bits < 0x8000_0000_0000_0000 {
        bits as i64
    } else {
        (bits - 0x1_0000_0000_0000_0000) as i64
    }
}

/// Which format a decoder reads; it decides the messages of its errors.
#[derive(Debug, Clone, Copy, PartialEq, Eq, Structural)]
pub enum Format {
    /// An encoded neighbour graph.
    Graph,
    /// A log record, a manifest or a segment.
    Record,
}

impl Format {
    /// What is said of a length that cannot be.
    pub open spec fn overflow(self) -> Seq<char> {
        match self {
            Format::Graph => "HNSW graph length overflow"@,
            Format::Record => "WAL length overflow"@,
        }
    }

    /// What is said of bytes that end too soon.
    pub open spec fn truncated(self) -> Seq<char> {
        match self {
            Format::Graph => "truncated HNSW graph"@,
            Format::Record => "truncated WAL payload"@,
        }
    }

    /// What is said of bytes that are no text.
    pub open spec fn not_text(self) -> Seq<char> {
        match self {
            Format::Graph => "HNSW graph contains invalid UTF-8"@,
            Format::Record => "WAL contains invalid UTF-8"@,
        }
    }

    /// What is said of bytes behind the end.
    pub open spec fn trailing(self) -> Seq<char> {
        match self {
            Format::Graph => "trailing bytes in HNSW graph"@,
            Format::Record => "trailing bytes in WAL payload"@,
        }
    }
}

/// What reading at a position gives: a value and the position behind it, or an error.
pub type Parsed<T> = core::result::Result<(T, int), ErrorView>;

/// The next `length` bytes.
pub open spec fn take(format: Format, bytes: Seq<u8>, at: int, length: int) -> Parsed<Seq<u8>> {
    if at + length > usize::MAX {
        Err(ErrorView::CorruptStorage(format.overflow()))
    } else if at + length > bytes.len() {
        Err(ErrorView::CorruptStorage(format.truncated()))
    } else {
        Ok((bytes.subrange(at, at + length), at + length))
    }
}

/// The next little-endian number of a given width.
pub open spec fn number(format: Format, bytes: Seq<u8>, at: int, width: nat) -> Parsed<nat> {
    match take(format, bytes, at, width as int) {
        Err(e) => Err(e),
        Ok((part, next)) => Ok((le_value(part), next)),
    }
}

/// The next `length` bytes as text.
pub open spec fn text(format: Format, bytes: Seq<u8>, at: int, length: int) -> Parsed<Seq<char>> {
    match take(format, bytes, at, length) {
        Err(e) => Err(e),
        Ok((part, next)) => if valid_utf8(part) {
            Ok((decode_utf8(part), next))
        } else {
            Err(ErrorView::CorruptStorage(format.not_text()))
        },
    }
}

/// Reads a byte string from front to back.
pub struct Decoder<'a> {
    pub bytes: &'a [u8],
    pub position: usize,
    pub format: Format,
}

/// That a read by a decoder came out as `parsed` says.
pub open spec fn advanced<T: View>(
    before: Decoder,
    after: Decoder,
    result: Result<T>,
    parsed: Parsed<T::V>,
) -> bool {
    &&& after.bytes == before.bytes
    &&& after.format == before.format
    &&& after.position <= after.bytes@.len()
    &&& match parsed {
        Ok((value, next)) => {
            &&& result is Ok
            &&& result->Ok_0@ == value
            &&& after.position == next
        },
        Err(error) => result is Err && result->Err_0@ == error,
    }
}

impl<'a> Decoder<'a> {
    /// The position lies in the bytes.
    pub open spec fn wf(&self) -> bool {
        self.position <= self.bytes@.len()
    }

    /// Starts at the first byte.
    pub fn new(bytes: &'a [u8], format: Format) -> (decoder: Decoder<'a>)
        ensures
            decoder.wf(),
            decoder.bytes == bytes,
            decoder.position == 0,
            decoder.format == format,
    {
        Decoder { bytes, position: 0, format }
    }

    /// The next `length` bytes. A refused read consumes nothing.
    pub fn take(&mut self, length: usize) -> (result: Result<&'a [u8]>)
        requires
            old(self).wf(),
        ensures
            advanced(
                *old(self),
                *final(self),
                result,
                take(old(self).format, old(self).bytes@, old(self).position as int, length as int),
            ),
            result is Err ==> final(self).position == old(self).position,
    {
        if length > usize::MAX - self.position {
            return Err(
                match self.format {
                    Format::Graph => Error::corrupt("HNSW graph length overflow"),
                    Format::Record => Error::corrupt("WAL length overflow"),
                },
            );
        }
        let end: usize = self.position + length;
        if end > self.bytes.len() {
            return Err(
                match self.format {
                    Format::Graph => Error::corrupt("truncated HNSW graph"),
                    Format::Record => Error::corrupt("truncated WAL payload"),
                },
            );
        }
        let part = vstd::slice::slice_subrange(self.bytes, self.position, end);
        self.position = end;
        Ok(part)
    }

    /// The next byte.
    pub fn byte(&mut self) -> (result: Result<u8>)
        requires
            old(self).wf(),
        ensures
            final(self).bytes == old(self).bytes,
            final(self).format == old(self).format,
            final(self).wf(),
            match number(old(self).format, old(self).bytes@, old(self).position as int, 1) {
                Ok((value, next)) => result is Ok && result->Ok_0 == value && final(self).position
                    == next,
                Err(error) => result is Err && result->Err_0@ == error && final(self).position
                    == old(self).position,
            },
    {
        let part = self.take(1)?;
        proof {
            assert(part@.drop_first() =~= Seq::empty());
            reveal_with_fuel(le_value, 2);
        }
        Ok(part[0])
    }

    /// The next number of `width` bytes.
    pub fn number(&mut self, width: usize) -> (result: Result<u64>)
        requires
            old(self).wf(),
            width <= 8,
        ensures
            final(self).bytes == old(self).bytes,
            final(self).format == old(self).format,
            final(self).wf(),
            match number(
                old(self).format,
                old(self).bytes@,
                old(self).position as int,
                width as nat,
            ) {
                Ok((value, next)) => {
                    &&& result is Ok
                    &&& result->Ok_0 == value
                    &&& value < byte_range(width as nat)
                    &&& final(self).position == next
                },
                Err(error) => result is Err && result->Err_0@ == error && final(self).position
                    == old(self).position,
            },
    {
        let part = self.take(width)?;
        Ok(number_from(part))
    }

    /// The next `length` bytes as text. Bytes that are no text are consumed.
    pub fn text(&mut self, length: usize) -> (result: Result<String>)
        requires
            old(self).wf(),
        ensures
            advanced(
                *old(self),
                *final(self),
                result,
                text(old(self).format, old(self).bytes@, old(self).position as int, length as int),
            ),
            result is Err ==> final(self).position == old(self).position + if take(
                old(self).format,
                old(self).bytes@,
                old(self).position as int,
                length as int,
            ) is Ok {
                length as int
            } else {
                0
            },
    {
        let part = self.take(length)?;
        match text_from_bytes(vstd::slice::slice_to_vec(part)) {
            Some(value) => Ok(value),
            None => Err(
                match self.format {
                    Format::Graph => Error::corrupt("HNSW graph contains invalid UTF-8"),
                    Format::Record => Error::corrupt("WAL contains invalid UTF-8"),
                },
            ),
        }
    }

    /// Refuses bytes that nothing has read.
    pub fn finish(self) -> (result: Result<()>)
        ensures
            match result {
                Ok(_) => self.position == self.bytes@.len(),
                Err(error) => self.position != self.bytes@.len() && error@
                    == ErrorView::CorruptStorage(self.format.trailing()),
            },
    {
        if self.position == self.bytes.len() {
            Ok(())
        } else {
            Err(
                match self.format {
                    Format::Graph => Error::corrupt("trailing bytes in HNSW graph"),
                    Format::Record => Error::corrupt("trailing bytes in WAL payload"),
                },
            )
        }
    }
}

/// The number that at most eight little-endian bytes stand for.
pub fn number_from(bytes: &[u8]) -> (value: u64)
    requires
        bytes@.len() <= 8,
    ensures
        value == le_value(bytes@),
        value < byte_range(bytes@.len()),
{
    proof {
        lemma_le_value_bound(bytes@);
        lemma_byte_ranges();
    }
    let mut value: u64 = 0;
    let mut i: usize = bytes.len();
    assert(bytes@.subrange(i as int, bytes@.len() as int) =~= Seq::empty());
    while i > 0
        invariant
            i <= bytes@.len() <= 8,
            value == le_value(bytes@.subrange(i as int, bytes@.len() as int)),
            byte_range(8) == 0x1_0000_0000_0000_0000,
        decreases i,
    {
        let ghost rest = bytes@.subrange(i as int, bytes@.len() as int);
        let ghost longer = bytes@.subrange(i - 1, bytes@.len() as int);
        proof {
            assert(longer.drop_first() =~= rest);
            lemma_le_value_bound(longer);
            lemma_byte_range_monotone(longer.len(), 8);
        }
        i = i - 1;
        value = bytes[i] as u64 + 256 * value;
    }
    assert(bytes@.subrange(0, bytes@.len() as int) =~= bytes@);
    value
}

proof fn lemma_byte_range_monotone(a: nat, b: nat)
    requires
        a <= b,
    ensures
        byte_range(a) <= byte_range(b),
    decreases b,
{
    if a < b {
        lemma_byte_range_monotone(a, (b - 1) as nat);
    }
}

/// Appends the `width` little-endian bytes of a number.
pub fn put_number(output: &mut Vec<u8>, value: u64, width: usize)
    ensures
        final(output)@ == old(output)@ + le(value as nat, width as nat),
    decreases width,
{
    if width == 0 {
        assert(output@ =~= old(output)@ + le(value as nat, 0));
        return ;
    }
    let ghost start = output@;
    output.push((value % 256) as u8);
    put_number(output, value / 256, width - 1);
    proof {
        let head = seq![(value as nat % 256) as u8];
        let tail = le((value / 256) as nat, (width - 1) as nat);
        assert(le(value as nat, width as nat) == head + tail);
        assert(output@ =~= start + (head + tail));
    }
}

/// Appends bytes.
pub fn put_bytes(output: &mut Vec<u8>, bytes: &[u8])
    ensures
        final(output)@ == old(output)@ + bytes@,
{
    output.extend_from_slice(bytes);
    assert(output@ =~= old(output)@ + bytes@);
}

/// The bits of an `i64`.
pub fn bits_of_signed(value: i64) -> (bits: u64)
    ensures
        bits == signed_bits(value),
{
    if value >= 0 {
        value as u64
    } else if value == i64::MIN {
        0x8000_0000_0000_0000
    } else {
        0xffff_ffff_ffff_ffff - ((-value) as u64) + 1
    }
}

/// The `i64` with the given bits.
pub fn signed_of_bits(bits: u64) -> (value: i64)
    ensures
        value == signed_value(bits as nat),
{
    if bits < 0x8000_0000_0000_0000 {
        bits as i64
    } else if bits == 0x8000_0000_0000_0000 {
        i64::MIN
    } else {
        -((0xffff_ffff_ffff_ffff - bits + 1) as i64)
    }
}

/// What reading `count` values in a row gives, where `step` reads one value from
/// the values before it and a position.
pub open spec fn repeated<T>(
    step: spec_fn(Seq<T>, int) -> Parsed<T>,
    at: int,
    count: nat,
) -> Parsed<Seq<T>>
    decreases count,
{
    if count == 0 {
        Ok((Seq::empty(), at))
    } else {
        match repeated(step, at, (count - 1) as nat) {
            Err(error) => Err(error),
            Ok((done, next)) => match step(done, next) {
                Err(error) => Err(error),
                Ok((value, end)) => Ok((done.push(value), end)),
            },
        }
    }
}

/// The first value that cannot be read decides the error.
pub proof fn lemma_repeated_error<T>(
    step: spec_fn(Seq<T>, int) -> Parsed<T>,
    at: int,
    some: nat,
    count: nat,
)
    requires
        some <= count,
        repeated(step, at, some) is Err,
    ensures
        repeated(step, at, count) == repeated(step, at, some),
    decreases count,
{
    if some < count {
        lemma_repeated_error(step, at, some, (count - 1) as nat);
    }
}

/// The encodings of values, one behind the other.
pub open spec fn joined<T>(items: Seq<T>, encode: spec_fn(T) -> Seq<u8>) -> Seq<u8>
    decreases items.len(),
{
    if items.len() == 0 {
        seq![]
    } else {
        joined(items.drop_last(), encode) + encode(items.last())
    }
}

/// `part` stands in `bytes` at a position.
pub open spec fn stands_at(bytes: Seq<u8>, at: int, part: Seq<u8>) -> bool {
    &&& 0 <= at
    &&& at + part.len() <= bytes.len()
    &&& bytes.subrange(at, at + part.len()) == part
}

/// Of two parts that stand together, each stands in its place.
pub proof fn lemma_stands_split(bytes: Seq<u8>, at: int, first: Seq<u8>, second: Seq<u8>)
    requires
        stands_at(bytes, at, first + second),
    ensures
        stands_at(bytes, at, first),
        stands_at(bytes, at + first.len(), second),
{
    let both = first + second;
    assert forall|i: int| 0 <= i < first.len() implies bytes[at + i] == first[i] by {
        assert(bytes.subrange(at, at + both.len())[i] == both[i]);
    }
    assert forall|i: int| 0 <= i < second.len() implies bytes[at + first.len() + i] == second[i] by {
        assert(bytes.subrange(at, at + both.len())[first.len() + i] == both[first.len() + i]);
    }
    assert(bytes.subrange(at, at + first.len()) =~= first);
    assert(bytes.subrange(at + first.len(), at + first.len() + second.len()) =~= second);
}

/// Values that are read back one by one are read back in a row.
pub proof fn lemma_repeated_round_trip<T>(
    step: spec_fn(Seq<T>, int) -> Parsed<T>,
    encode: spec_fn(T) -> Seq<u8>,
    items: Seq<T>,
    bytes: Seq<u8>,
    at: int,
)
    requires
        stands_at(bytes, at, joined(items, encode)),
        forall|i: int, p: int|
            0 <= i < items.len() && #[trigger] stands_at(bytes, p, encode(items[i])) ==> step(
                items.take(i),
                p,
            ) == Ok::<(T, int), ErrorView>((items[i], p + encode(items[i]).len())),
    ensures
        repeated(step, at, items.len()) == Ok::<(Seq<T>, int), ErrorView>(
            (items, at + joined(items, encode).len()),
        ),
    decreases items.len(),
{
    if items.len() == 0 {
        assert(items =~= Seq::empty());
    } else {
        let rest = items.drop_last();
        let last = items.len() - 1;
        let head = joined(rest, encode);
        lemma_stands_split(bytes, at, head, encode(items.last()));
        assert forall|i: int, p: int|
            0 <= i < rest.len() && #[trigger] stands_at(bytes, p, encode(rest[i])) implies step(
            rest.take(i),
            p,
        ) == Ok::<(T, int), ErrorView>((rest[i], p + encode(rest[i]).len())) by {
            assert(rest[i] == items[i]);
            assert(rest.take(i) =~= items.take(i));
            assert(stands_at(bytes, p, encode(items[i])));
        }
        lemma_repeated_round_trip(step, encode, rest, bytes, at);
        assert(items.take(last) =~= rest);
        assert(stands_at(bytes, at + head.len(), encode(items[last])));
        assert(items =~= rest.push(items[last]));
    }
}

/// Bytes that stand at a position are taken from there.
pub proof fn lemma_take_stands(format: Format, bytes: Seq<u8>, at: int, part: Seq<u8>)
    requires
        stands_at(bytes, at, part),
        bytes.len() <= usize::MAX,
    ensures
        take(format, bytes, at, part.len() as int) == Ok::<(Seq<u8>, int), ErrorView>(
            (part, at + part.len()),
        ),
{
}

/// A number that stands at a position is read from there.
pub proof fn lemma_number_stands(
    format: Format,
    bytes: Seq<u8>,
    at: int,
    value: nat,
    width: nat,
)
    requires
        stands_at(bytes, at, le(value, width)),
        bytes.len() <= usize::MAX,
        value < byte_range(width),
    ensures
        number(format, bytes, at, width) == Ok::<(nat, int), ErrorView>((value, at + width)),
        le(value, width).len() == width,
{
    lemma_le_round_trip(value, width);
    lemma_take_stands(format, bytes, at, le(value, width));
}

/// Text that stands at a position is read from there.
pub proof fn lemma_text_stands(format: Format, bytes: Seq<u8>, at: int, value: Seq<char>)
    requires
        stands_at(bytes, at, encode_utf8(value)),
        bytes.len() <= usize::MAX,
    ensures
        text(format, bytes, at, encode_utf8(value).len() as int) == Ok::<
            (Seq<char>, int),
            ErrorView,
        >((value, at + encode_utf8(value).len())),
{
    lemma_take_stands(format, bytes, at, encode_utf8(value));
    encode_utf8_valid_utf8(value);
    encode_utf8_decode_utf8(value);
}

/// Of two parts that stand one behind the other, both together stand at the first.
pub proof fn lemma_stands_join(bytes: Seq<u8>, at: int, first: Seq<u8>, second: Seq<u8>)
    requires
        stands_at(bytes, at, first),
        stands_at(bytes, at + first.len(), second),
    ensures
        stands_at(bytes, at, first + second),
{
    let both = first + second;
    assert forall|i: int| 0 <= i < both.len() implies bytes[at + i] == both[i] by {
        if i < first.len() {
            assert(bytes.subrange(at, at + first.len())[i] == first[i]);
        } else {
            let j = i - first.len();
            assert(bytes.subrange(
                at + first.len(),
                at + first.len() + second.len(),
            )[j] == second[j]);
        }
    }
    assert(bytes.subrange(at, at + both.len()) =~= both);
}

/// A number that is read stands where it was read, as its bytes.
pub proof fn lemma_number_read(format: Format, bytes: Seq<u8>, at: int, width: nat)
    requires
        0 <= at,
        number(format, bytes, at, width) is Ok,
    ensures
        ({
            let (value, next) = number(format, bytes, at, width)->Ok_0;
            &&& next == at + width
            &&& value < byte_range(width)
            &&& le(value, width).len() == width
            &&& stands_at(bytes, at, le(value, width))
        }),
{
    let part = bytes.subrange(at, at + width);
    lemma_le_value_round_trip(part);
    lemma_le_value_bound(part);
}

/// Values that are read in a row stand where they were read, as their bytes.
pub proof fn lemma_repeated_read<T>(
    step: spec_fn(Seq<T>, int) -> Parsed<T>,
    encode: spec_fn(T) -> Seq<u8>,
    bytes: Seq<u8>,
    at: int,
    count: nat,
)
    requires
        0 <= at <= bytes.len(),
        repeated(step, at, count) is Ok,
        forall|done: Seq<T>, p: int|
            0 <= p && (#[trigger] step(done, p)) is Ok ==> {
                let (value, next) = step(done, p)->Ok_0;
                stands_at(bytes, p, encode(value)) && next == p + encode(value).len()
            },
    ensures
        ({
            let (items, end) = repeated(step, at, count)->Ok_0;
            &&& items.len() == count
            &&& stands_at(bytes, at, joined(items, encode))
            &&& end == at + joined(items, encode).len()
        }),
    decreases count,
{
    if count == 0 {
        assert(bytes.subrange(at, at) =~= seq![]);
    } else {
        lemma_repeated_read(step, encode, bytes, at, (count - 1) as nat);
        let (done, next) = repeated(step, at, (count - 1) as nat)->Ok_0;
        let (value, end) = step(done, next)->Ok_0;
        let items = done.push(value);
        assert(items.drop_last() =~= done);
        lemma_stands_join(bytes, at, joined(done, encode), encode(value));
    }
}

/// An error of one of the values is the error of all.
pub proof fn lemma_repeated_corrupt<T>(
    step: spec_fn(Seq<T>, int) -> Parsed<T>,
    at: int,
    count: nat,
)
    requires
        forall|done: Seq<T>, p: int|
            (#[trigger] step(done, p)) is Err ==> step(done, p)->Err_0 is CorruptStorage,
    ensures
        repeated(step, at, count) is Err ==> repeated(step, at, count)->Err_0 is CorruptStorage,
    decreases count,
{
    if count > 0 {
        lemma_repeated_corrupt(step, at, (count - 1) as nat);
    }
}

/// A number is written with its least byte first: each byte is the digit of its place, to
/// the base of 256.
pub proof fn law_least_byte_comes_first(value: nat, width: nat, i: nat)
    requires
        i < width,
    ensures
        le(value, width).len() == width,
        le(value, width)[i as int] == (value / byte_range(i)) % 256,
    decreases width,
{
    lemma_le_length(value, width);
    if i > 0 {
        law_least_byte_comes_first(value / 256, (width - 1) as nat, (i - 1) as nat);
        lemma_byte_range_positive((i - 1) as nat);
        vstd::arithmetic::div_mod::lemma_div_denominator(
            value as int,
            256,
            byte_range((i - 1) as nat) as int,
        );
    } else {
        assert(value / 1 == value);
    }
}

proof fn lemma_le_length(value: nat, width: nat)
    ensures
        le(value, width).len() == width,
    decreases width,
{
    if width > 0 {
        lemma_le_length(value / 256, (width - 1) as nat);
    }
}

proof fn lemma_byte_range_positive(width: nat)
    ensures
        byte_range(width) > 0,
    decreases width,
{
    if width > 0 {
        lemma_byte_range_positive((width - 1) as nat);
    }
}

/// Signed numbers are stored as they are, modulo `2^64`, and come back.
pub proof fn law_signed_numbers_come_back(value: i64)
    ensures
        signed_bits(value) as int == value as int % 0x1_0000_0000_0000_0000,
        signed_value(signed_bits(value)) == value,
{
}

} // verus!
