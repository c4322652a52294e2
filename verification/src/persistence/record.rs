//! The parts of which log records and segments are made: counts, text, vectors
//! and metadata.
use crate::bits::{double_finite, is_double_finite, is_single_finite, single_finite};
use crate::bytes::{
    bits_of_signed, joined, le, lemma_byte_ranges, lemma_number_stands, lemma_repeated_error,
    lemma_repeated_round_trip, lemma_stands_split, lemma_text_stands, number, put_bytes, put_number,
    repeated, signed_bits, signed_of_bits, signed_value, stands_at, text, Decoder, Format, Parsed,
};
use crate::error::{Error, ErrorView, Result};
use crate::hnsw::codec::{
    component_bytes, corrupt, fits_count, lemma_byte_stands, put_vector, read_count, same_source,
    text_bytes,
};
use crate::metadata::{ascending, lemma_place, place, put, Entries, Metadata, Value, ValueView};
use crate::metric::{all_finite, is_all_finite};
use crate::text::{decimal, decimal_text, join, text_less};
use vstd::prelude::*;
use vstd::utf8::encode_utf8;

verus! {

/// The most items that a count may announce.
pub const MAX_ITEMS: usize = 1_000_000;

/// Bytes to write, or why a value cannot be written.
pub type Encoded = core::result::Result<Seq<u8>, ErrorView>;

/// Two encodings, one behind the other; the first error stands.
pub open spec fn followed(first: Encoded, second: Encoded) -> Encoded {
    match first {
        Err(error) => Err(error),
        Ok(front) => match second {
            Err(error) => Err(error),
            Ok(back) => Ok(front + back),
        },
    }
}

/// The encodings of values in a row; the first error stands.
pub open spec fn all_encoded<T>(items: Seq<T>, encode: spec_fn(T) -> Encoded) -> Encoded
    decreases items.len(),
{
    if items.len() == 0 {
        Ok(seq![])
    } else {
        followed(all_encoded(items.drop_last(), encode), encode(items.last()))
    }
}

/// The first value that cannot be written decides the error.
pub proof fn lemma_all_encoded_error<T>(
    items: Seq<T>,
    encode: spec_fn(T) -> Encoded,
    count: int,
)
    requires
        0 <= count <= items.len(),
        all_encoded(items.subrange(0, count), encode) is Err,
    ensures
        all_encoded(items, encode) == all_encoded(items.subrange(0, count), encode),
    decreases items.len() - count,
{
    if count == items.len() {
        assert(items.subrange(0, count) =~= items);
    } else {
        assert(items.subrange(0, count + 1).drop_last() =~= items.subrange(0, count));
        lemma_all_encoded_error(items, encode, count + 1);
    }
}

/// A count; a reader takes back at most [`MAX_ITEMS`].
pub open spec fn encoded_count(count: nat) -> Encoded {
    if count <= MAX_ITEMS {
        Ok(le(count, 4))
    } else {
        Err(ErrorView::InvalidQuery("batch is too large"@))
    }
}

/// A number of bytes, if it fits the format.
pub open spec fn encoded_size(size: nat) -> Encoded {
    if fits_count(size) {
        Ok(le(size, 4))
    } else {
        Err(ErrorView::InvalidQuery("segment is too large"@))
    }
}

/// The components of a vector; they must be finite.
pub open spec fn encoded_vector(vector: Seq<u32>) -> Encoded {
    if all_finite(vector) {
        Ok(joined(vector, component_bytes()))
    } else {
        Err(ErrorView::InvalidQuery("stored vector components must be finite"@))
    }
}

/// A text behind its length.
pub open spec fn encoded_text(value: Seq<char>) -> Encoded {
    followed(encoded_count(encode_utf8(value).len()), Ok(encode_utf8(value)))
}

/// A value: a tag and its content. A float must be finite.
pub open spec fn encoded_value(value: ValueView) -> Encoded {
    match value {
        ValueView::Keyword(text) => followed(Ok(seq![1u8]), encoded_text(text)),
        ValueView::Integer(n) => Ok(seq![2u8] + le(signed_bits(n), 8)),
        ValueView::Float(bits) => if double_finite(bits) {
            Ok(seq![3u8] + le(bits as nat, 8))
        } else {
            Err(ErrorView::InvalidQuery("metadata floats must be finite"@))
        },
        ValueView::Boolean(b) => Ok(
            seq![4u8] + seq![
                if b {
                    1u8
                } else {
                    0u8
                },
            ],
        ),
    }
}

/// A key and its value.
pub open spec fn encoded_entry() -> spec_fn((Seq<char>, ValueView)) -> Encoded {
    |entry: (Seq<char>, ValueView)| followed(encoded_text(entry.0), encoded_value(entry.1))
}

/// All entries behind their number.
pub open spec fn encoded_metadata(metadata: Entries) -> Encoded {
    followed(encoded_count(metadata.len()), all_encoded(metadata, encoded_entry()))
}

/// That writing to `output` came out as `encoded` says.
pub open spec fn wrote(
    before: Seq<u8>,
    after: Seq<u8>,
    result: Result<()>,
    encoded: Encoded,
) -> bool {
    match encoded {
        Ok(bytes) => result is Ok && after == before + bytes,
        Err(error) => result is Err && result->Err_0@ == error,
    }
}

/// Appends a count.
pub(crate) fn put_count(output: &mut Vec<u8>, count: usize) -> (result: Result<()>)
    ensures
        wrote(old(output)@, final(output)@, result, encoded_count(count as nat)),
{
    if count > MAX_ITEMS {
        return Err(Error::InvalidQuery("batch is too large"));
    }
    put_number(output, count as u64, 4);
    Ok(())
}

/// Appends a number of bytes.
pub(crate) fn put_size(output: &mut Vec<u8>, size: usize) -> (result: Result<()>)
    ensures
        wrote(old(output)@, final(output)@, result, encoded_size(size as nat)),
{
    if size as u64 > 0xffff_ffff {
        return Err(Error::InvalidQuery("segment is too large"));
    }
    put_number(output, size as u64, 4);
    Ok(())
}

/// Appends the components of a vector.
pub(crate) fn put_finite(output: &mut Vec<u8>, vector: &Vec<u32>) -> (result: Result<()>)
    ensures
        wrote(old(output)@, final(output)@, result, encoded_vector(vector@)),
{
    if !is_all_finite(vector) {
        return Err(Error::InvalidQuery("stored vector components must be finite"));
    }
    put_vector(output, vector);
    Ok(())
}

/// Appends text.
pub(crate) fn put_string(output: &mut Vec<u8>, value: &str) -> (result: Result<()>)
    ensures
        wrote(old(output)@, final(output)@, result, encoded_text(value@)),
{
    let bytes = value.as_bytes();
    put_count(output, bytes.len())?;
    put_bytes(output, bytes);
    assert(output@ =~= old(output)@ + (le(bytes@.len(), 4) + bytes@));
    Ok(())
}

/// Appends a value.
pub(crate) fn encode_value(output: &mut Vec<u8>, value: &Value) -> (result: Result<()>)
    ensures
        wrote(old(output)@, final(output)@, result, encoded_value(value@)),
{
    match value {
        Value::Keyword(text) => {
            output.push(1);
            put_string(output, text.as_str())?;
            proof {
                let content = encoded_text(text@)->Ok_0;
                assert(output@ =~= old(output)@ + (seq![1u8] + content));
            }
        },
        Value::Integer(n) => {
            output.push(2);
            put_number(output, bits_of_signed(*n), 8);
            assert(output@ =~= old(output)@ + (seq![2u8] + le(signed_bits(*n), 8)));
        },
        Value::Float(bits) => {
            if !is_double_finite(*bits) {
                return Err(Error::InvalidQuery("metadata floats must be finite"));
            }
            output.push(3);
            put_number(output, *bits, 8);
            assert(output@ =~= old(output)@ + (seq![3u8] + le(*bits as nat, 8)));
        },
        Value::Boolean(b) => {
            output.push(4);
            let mark: u8 = if *b {
                1
            } else {
                0
            };
            output.push(mark);
            assert(output@ =~= old(output)@ + (seq![4u8] + seq![mark]));
        },
    }
    Ok(())
}

/// Appends metadata.
pub(crate) fn put_metadata(output: &mut Vec<u8>, metadata: &Metadata) -> (result: Result<()>)
    ensures
        wrote(old(output)@, final(output)@, result, encoded_metadata(metadata@)),
{
    put_count(output, metadata.len())?;
    let ghost start = output@;
    let ghost entries = metadata@;
    let ghost encode = encoded_entry();
    let mut i: usize = 0;
    proof {
        assert(entries.subrange(0, 0) =~= Seq::empty());
        assert(start =~= start + Seq::<u8>::empty());
    }
    while i < metadata.len()
        invariant
            i <= entries.len(),
            entries == metadata@,
            encode == encoded_entry(),
            encoded_count(entries.len()) is Ok,
            start == old(output)@ + encoded_count(entries.len())->Ok_0,
            all_encoded(entries.subrange(0, i as int), encode) is Ok,
            output@ == start + all_encoded(entries.subrange(0, i as int), encode)->Ok_0,
        decreases entries.len() - i,
    {
        let ghost before = output@;
        proof {
            let next = entries.subrange(0, i + 1);
            assert(next.drop_last() =~= entries.subrange(0, i as int));
            assert(next.last() == entries[i as int]);
            if all_encoded(next, encode) is Err {
                lemma_all_encoded_error(entries, encode, i + 1);
            }
        }
        put_string(output, metadata.key_at(i).as_str())?;
        let ghost middle = output@;
        encode_value(output, metadata.value_at(i))?;
        proof {
            let next = entries.subrange(0, i + 1);
            let head = all_encoded(entries.subrange(0, i as int), encode)->Ok_0;
            let key = encoded_text(entries[i as int].0)->Ok_0;
            let value = encoded_value(entries[i as int].1)->Ok_0;
            assert(output@ =~= start + (head + (key + value)));
        }
        i = i + 1;
    }
    proof {
        assert(entries.subrange(0, i as int) =~= entries);
        let count = encoded_count(entries.len())->Ok_0;
        let body = all_encoded(entries, encode)->Ok_0;
        assert(output@ =~= old(output)@ + (count + body));
    }
    Ok(())
}

/// A count; it announces at most [`MAX_ITEMS`].
pub open spec fn parse_count(bytes: Seq<u8>, at: int) -> Parsed<nat> {
    match number(Format::Record, bytes, at, 4) {
        Err(error) => Err(error),
        Ok((count, next)) => if count > MAX_ITEMS {
            corrupt("WAL item count exceeds limit"@)
        } else {
            Ok((count, next))
        },
    }
}

/// Reads a text behind its length.
pub open spec fn parse_string(bytes: Seq<u8>, at: int) -> Parsed<Seq<char>> {
    match parse_count(bytes, at) {
        Err(error) => Err(error),
        Ok((length, next)) => text(Format::Record, bytes, next, length as int),
    }
}

/// Reads a component; it must be finite.
pub open spec fn record_component(bytes: Seq<u8>) -> spec_fn(Seq<u32>, int) -> Parsed<u32> {
    |done: Seq<u32>, at: int|
        match number(Format::Record, bytes, at, 4) {
            Err(error) => Err(error),
            Ok((bits, next)) => if single_finite(bits as u32) {
                Ok((bits as u32, next))
            } else {
                corrupt("non-finite vector component"@)
            },
        }
}

/// Reads a value.
pub open spec fn parse_value(bytes: Seq<u8>, at: int) -> Parsed<ValueView> {
    match number(Format::Record, bytes, at, 1) {
        Err(error) => Err(error),
        Ok((tag, next)) => if tag == 1 {
            match parse_string(bytes, next) {
                Err(error) => Err(error),
                Ok((text, end)) => Ok((ValueView::Keyword(text), end)),
            }
        } else if tag == 2 {
            match number(Format::Record, bytes, next, 8) {
                Err(error) => Err(error),
                Ok((bits, end)) => Ok((ValueView::Integer(signed_value(bits)), end)),
            }
        } else if tag == 3 {
            match number(Format::Record, bytes, next, 8) {
                Err(error) => Err(error),
                Ok((bits, end)) => if double_finite(bits as u64) {
                    Ok((ValueView::Float(bits as u64), end))
                } else {
                    corrupt("non-finite metadata float"@)
                },
            }
        } else if tag == 4 {
            match number(Format::Record, bytes, next, 1) {
                Err(error) => Err(error),
                Ok((mark, end)) => if mark == 0 {
                    Ok((ValueView::Boolean(false), end))
                } else if mark == 1 {
                    Ok((ValueView::Boolean(true), end))
                } else {
                    corrupt("invalid boolean encoding"@)
                },
            }
        } else {
            corrupt("unknown metadata value tag "@ + decimal(tag))
        },
    }
}

/// Reads a key and its value.
pub open spec fn entry_step(bytes: Seq<u8>) -> spec_fn(
    Seq<(Seq<char>, ValueView)>,
    int,
) -> Parsed<(Seq<char>, ValueView)> {
    |done: Seq<(Seq<char>, ValueView)>, at: int|
        match parse_string(bytes, at) {
            Err(error) => Err(error),
            Ok((key, next)) => match parse_value(bytes, next) {
                Err(error) => Err(error),
                Ok((value, end)) => Ok(((key, value), end)),
            },
        }
}

/// Entries put one by one; of a key that comes twice the later value stays.
pub open spec fn put_all(pairs: Seq<(Seq<char>, ValueView)>) -> Entries
    decreases pairs.len(),
{
    if pairs.len() == 0 {
        seq![]
    } else {
        put(put_all(pairs.drop_last()), pairs.last().0, pairs.last().1)
    }
}

/// Reads entries behind their number.
pub open spec fn parse_metadata(bytes: Seq<u8>, at: int) -> Parsed<Entries> {
    match parse_count(bytes, at) {
        Err(error) => Err(error),
        Ok((count, next)) => match repeated(entry_step(bytes), next, count) {
            Err(error) => Err(error),
            Ok((pairs, end)) => Ok((put_all(pairs), end)),
        },
    }
}

/// Reads a count of items.
pub(crate) fn read_items(decoder: &mut Decoder) -> (result: Result<usize>)
    requires
        old(decoder).wf(),
        old(decoder).format == Format::Record,
    ensures
        same_source(*old(decoder), *final(decoder)),
        match parse_count(old(decoder).bytes@, old(decoder).position as int) {
            Ok((value, next)) => result is Ok && result->Ok_0 == value && final(decoder).position
                == next,
            Err(error) => result is Err && result->Err_0@ == error,
        },
{
    let count: usize = read_count(decoder)?;
    if count > MAX_ITEMS {
        return Err(Error::corrupt("WAL item count exceeds limit"));
    }
    Ok(count)
}

/// Reads text.
pub(crate) fn read_string(decoder: &mut Decoder) -> (result: Result<String>)
    requires
        old(decoder).wf(),
        old(decoder).format == Format::Record,
    ensures
        same_source(*old(decoder), *final(decoder)),
        match parse_string(old(decoder).bytes@, old(decoder).position as int) {
            Ok((value, next)) => result is Ok && result->Ok_0@ == value && final(decoder).position
                == next,
            Err(error) => result is Err && result->Err_0@ == error,
        },
{
    let length: usize = read_items(decoder)?;
    decoder.text(length)
}

/// Reads the components of a vector.
pub(crate) fn read_components(decoder: &mut Decoder, dimension: usize) -> (result: Result<Vec<u32>>)
    requires
        old(decoder).wf(),
        old(decoder).format == Format::Record,
    ensures
        same_source(*old(decoder), *final(decoder)),
        match repeated(
            record_component(old(decoder).bytes@),
            old(decoder).position as int,
            dimension as nat,
        ) {
            Ok((vector, next)) => result is Ok && result->Ok_0@ == vector && final(decoder).position
                == next && vector.len() == dimension,
            Err(error) => result is Err && result->Err_0@ == error,
        },
{
    let ghost bytes = decoder.bytes@;
    let ghost start = decoder.position as int;
    let ghost step = record_component(bytes);
    let mut vector: Vec<u32> = Vec::new();
    let mut i: usize = 0;
    assert(vector@ =~= Seq::empty());
    while i < dimension
        invariant
            i <= dimension,
            same_source(*old(decoder), *decoder),
            decoder.format == Format::Record,
            bytes == decoder.bytes@,
            start == old(decoder).position,
            step == record_component(bytes),
            repeated(step, start, i as nat) == Ok::<(Seq<u32>, int), ErrorView>(
                (vector@, decoder.position as int),
            ),
            vector@.len() == i,
        decreases dimension - i,
    {
        proof {
            lemma_byte_ranges();
            if repeated(step, start, (i + 1) as nat) is Err {
                lemma_repeated_error(step, start, (i + 1) as nat, dimension as nat);
            }
        }
        let bits: u64 = decoder.number(4)?;
        if !is_single_finite(bits as u32) {
            return Err(Error::corrupt("non-finite vector component"));
        }
        vector.push(bits as u32);
        i = i + 1;
    }
    Ok(vector)
}

/// Reads a value.
pub(crate) fn read_value(decoder: &mut Decoder) -> (result: Result<Value>)
    requires
        old(decoder).wf(),
        old(decoder).format == Format::Record,
    ensures
        same_source(*old(decoder), *final(decoder)),
        match parse_value(old(decoder).bytes@, old(decoder).position as int) {
            Ok((value, next)) => result is Ok && result->Ok_0@ == value && final(decoder).position
                == next,
            Err(error) => result is Err && result->Err_0@ == error,
        },
{
    proof {
        lemma_byte_ranges();
    }
    let tag: u8 = decoder.byte()?;
    if tag == 1 {
        Ok(Value::Keyword(read_string(decoder)?))
    } else if tag == 2 {
        let bits: u64 = decoder.number(8)?;
        Ok(Value::Integer(signed_of_bits(bits)))
    } else if tag == 3 {
        let bits: u64 = decoder.number(8)?;
        if !is_double_finite(bits) {
            return Err(Error::corrupt("non-finite metadata float"));
        }
        Ok(Value::Float(bits))
    } else if tag == 4 {
        let mark: u8 = decoder.byte()?;
        if mark == 0 {
            Ok(Value::Boolean(false))
        } else if mark == 1 {
            Ok(Value::Boolean(true))
        } else {
            Err(Error::corrupt("invalid boolean encoding"))
        }
    } else {
        let number = decimal_text(tag as u64);
        Err(Error::CorruptStorage(join("unknown metadata value tag ", number.as_str())))
    }
}

/// Reads metadata.
pub(crate) fn read_metadata(decoder: &mut Decoder) -> (result: Result<Metadata>)
    requires
        old(decoder).wf(),
        old(decoder).format == Format::Record,
    ensures
        same_source(*old(decoder), *final(decoder)),
        match parse_metadata(old(decoder).bytes@, old(decoder).position as int) {
            Ok((value, next)) => result is Ok && result->Ok_0@ == value && final(decoder).position
                == next,
            Err(error) => result is Err && result->Err_0@ == error,
        },
{
    let ghost bytes = decoder.bytes@;
    let count: usize = read_items(decoder)?;
    let ghost start = decoder.position as int;
    let ghost step = entry_step(bytes);
    let ghost mut pairs: Seq<(Seq<char>, ValueView)> = Seq::empty();
    let mut metadata = Metadata::new();
    let mut i: usize = 0;
    while i < count
        invariant
            i <= count,
            same_source(*old(decoder), *decoder),
            decoder.format == Format::Record,
            bytes == decoder.bytes@,
            bytes == old(decoder).bytes@,
            step == entry_step(bytes),
            parse_count(bytes, old(decoder).position as int) == Ok::<(nat, int), ErrorView>(
                (count as nat, start),
            ),
            repeated(step, start, i as nat) == Ok::<(Seq<(Seq<char>, ValueView)>, int), ErrorView>(
                (pairs, decoder.position as int),
            ),
            metadata@ == put_all(pairs),
        decreases count - i,
    {
        proof {
            if repeated(step, start, (i + 1) as nat) is Err {
                lemma_repeated_error(step, start, (i + 1) as nat, count as nat);
            }
        }
        let key = read_string(decoder)?;
        let value = read_value(decoder)?;
        proof {
            let longer = pairs.push((key@, value@));
            assert(longer.drop_last() =~= pairs);
            pairs = longer;
        }
        metadata.insert(key, value);
        i = i + 1;
    }
    Ok(metadata)
}

/// The bytes of an encoding.
pub open spec fn bytes_of<T>(encode: spec_fn(T) -> Encoded) -> spec_fn(T) -> Seq<u8> {
    |item: T| encode(item)->Ok_0
}

/// Where all values can be written, their bytes stand one behind the other.
pub proof fn lemma_all_encoded_joined<T>(items: Seq<T>, encode: spec_fn(T) -> Encoded)
    requires
        all_encoded(items, encode) is Ok,
    ensures
        all_encoded(items, encode)->Ok_0 == joined(items, bytes_of(encode)),
        forall|i: int| 0 <= i < items.len() ==> encode(#[trigger] items[i]) is Ok,
    decreases items.len(),
{
    if items.len() > 0 {
        let rest = items.drop_last();
        lemma_all_encoded_joined(rest, encode);
        assert forall|i: int| 0 <= i < items.len() implies encode(#[trigger] items[i]) is Ok by {
            if i < rest.len() {
                assert(rest[i] == items[i]);
            }
        }
    }
}

/// A count that is not too large is read back.
pub proof fn lemma_count_reads(bytes: Seq<u8>, at: int, count: nat)
    requires
        stands_at(bytes, at, le(count, 4)),
        bytes.len() <= usize::MAX,
        count <= MAX_ITEMS,
    ensures
        parse_count(bytes, at) == Ok::<(nat, int), ErrorView>((count, at + 4)),
        le(count, 4).len() == 4,
{
    lemma_byte_ranges();
    lemma_number_stands(Format::Record, bytes, at, count, 4);
}

/// Text that is not too long for a reader.
pub open spec fn readable_text(value: Seq<char>) -> bool {
    encode_utf8(value).len() <= MAX_ITEMS
}

/// A value that is read back as it was written.
pub open spec fn readable_value(value: ValueView) -> bool {
    match value {
        ValueView::Keyword(text) => readable_text(text),
        ValueView::Float(bits) => double_finite(bits),
        _ => true,
    }
}

/// Metadata that a reader takes back: in order, not too many entries, no text
/// too long, no float that is not finite.
pub open spec fn readable_metadata(metadata: Entries) -> bool {
    &&& ascending(metadata)
    &&& metadata.len() <= MAX_ITEMS
    &&& forall|i: int|
        0 <= i < metadata.len() ==> readable_text((#[trigger] metadata[i]).0) && readable_value(
            metadata[i].1,
        )
}

pub proof fn lemma_string_reads(bytes: Seq<u8>, at: int, value: Seq<char>)
    requires
        stands_at(bytes, at, text_bytes(value)),
        bytes.len() <= usize::MAX,
        readable_text(value),
    ensures
        encoded_text(value) == Ok::<Seq<u8>, ErrorView>(text_bytes(value)),
        parse_string(bytes, at) == Ok::<(Seq<char>, int), ErrorView>(
            (value, at + text_bytes(value).len()),
        ),
{
    let length = encode_utf8(value).len();
    lemma_stands_split(bytes, at, le(length, 4), encode_utf8(value));
    lemma_count_reads(bytes, at, length);
    lemma_text_stands(Format::Record, bytes, at + 4, value);
}

pub proof fn lemma_value_reads(bytes: Seq<u8>, at: int, value: ValueView)
    requires
        readable_value(value),
        encoded_value(value) is Ok,
        stands_at(bytes, at, encoded_value(value)->Ok_0),
        bytes.len() <= usize::MAX,
    ensures
        parse_value(bytes, at) == Ok::<(ValueView, int), ErrorView>(
            (value, at + encoded_value(value)->Ok_0.len()),
        ),
{
    lemma_byte_ranges();
    match value {
        ValueView::Keyword(text) => {
            assert(encoded_value(value)->Ok_0 == seq![1u8] + text_bytes(text));
            lemma_stands_split(bytes, at, seq![1u8], text_bytes(text));
            lemma_byte_stands(Format::Record, bytes, at, 1);
            lemma_string_reads(bytes, at + 1, text);
        },
        ValueView::Integer(n) => {
            lemma_stands_split(bytes, at, seq![2u8], le(signed_bits(n), 8));
            lemma_byte_stands(Format::Record, bytes, at, 2);
            lemma_number_stands(Format::Record, bytes, at + 1, signed_bits(n), 8);
            assert(signed_value(signed_bits(n)) == n);
        },
        ValueView::Float(bits) => {
            lemma_stands_split(bytes, at, seq![3u8], le(bits as nat, 8));
            lemma_byte_stands(Format::Record, bytes, at, 3);
            lemma_number_stands(Format::Record, bytes, at + 1, bits as nat, 8);
        },
        ValueView::Boolean(b) => {
            let mark = if b {
                1u8
            } else {
                0u8
            };
            lemma_stands_split(bytes, at, seq![4u8], seq![mark]);
            lemma_byte_stands(Format::Record, bytes, at, 4);
            lemma_byte_stands(Format::Record, bytes, at + 1, mark);
        },
    }
}

/// Entries in order are put in order.
proof fn lemma_put_all_ascending(entries: Entries)
    requires
        ascending(entries),
    ensures
        put_all(entries) == entries,
    decreases entries.len(),
{
    if entries.len() == 0 {
        assert(entries =~= Seq::empty());
    } else {
        let rest = entries.drop_last();
        let last = entries.len() - 1;
        assert(ascending(rest)) by {
            assert forall|i: int, j: int| 0 <= i < j < rest.len() implies text_less(
                #[trigger] rest[i].0,
                #[trigger] rest[j].0,
            ) by {
                assert(text_less(entries[i].0, entries[j].0));
            }
        }
        lemma_put_all_ascending(rest);
        let key = entries[last].0;
        lemma_place(rest, key);
        let at = place(rest, key);
        if at < rest.len() {
            assert(text_less(entries[at].0, entries[last].0));
        }
        assert(at == rest.len());
        assert(rest.insert(at, entries[last]) =~= entries);
    }
}

/// Metadata is read back.
pub proof fn lemma_metadata_reads(bytes: Seq<u8>, at: int, metadata: Entries)
    requires
        readable_metadata(metadata),
        encoded_metadata(metadata) is Ok,
        stands_at(bytes, at, encoded_metadata(metadata)->Ok_0),
        bytes.len() <= usize::MAX,
    ensures
        parse_metadata(bytes, at) == Ok::<(Entries, int), ErrorView>(
            (metadata, at + encoded_metadata(metadata)->Ok_0.len()),
        ),
{
    let count = le(metadata.len(), 4);
    let encode = encoded_entry();
    let body = all_encoded(metadata, encode)->Ok_0;
    lemma_all_encoded_joined(metadata, encode);
    lemma_stands_split(bytes, at, count, body);
    lemma_count_reads(bytes, at, metadata.len());
    let step = entry_step(bytes);
    let written = bytes_of(encode);
    assert forall|i: int, p: int|
        0 <= i < metadata.len() && #[trigger] stands_at(bytes, p, written(metadata[i])) implies step(
        metadata.take(i),
        p,
    ) == Ok::<((Seq<char>, ValueView), int), ErrorView>(
        (metadata[i], p + written(metadata[i]).len()),
    ) by {
        let (key, value) = metadata[i];
        assert(encode(metadata[i]) is Ok);
        assert(readable_text(metadata[i].0) && readable_value(metadata[i].1));
        let front = text_bytes(key);
        let back = encoded_value(value)->Ok_0;
        assert(written(metadata[i]) == front + back);
        lemma_stands_split(bytes, p, front, back);
        lemma_string_reads(bytes, p, key);
        lemma_value_reads(bytes, p + front.len(), value);
    }
    lemma_repeated_round_trip(step, written, metadata, bytes, at + 4);
    lemma_put_all_ascending(metadata);
}

/// A vector of finite components is read back.
pub proof fn lemma_components_read(bytes: Seq<u8>, at: int, vector: Seq<u32>)
    requires
        stands_at(bytes, at, joined(vector, component_bytes())),
        bytes.len() <= usize::MAX,
        all_finite(vector),
    ensures
        repeated(record_component(bytes), at, vector.len()) == Ok::<(Seq<u32>, int), ErrorView>(
            (vector, at + joined(vector, component_bytes()).len()),
        ),
{
    let step = record_component(bytes);
    let encode = component_bytes();
    assert forall|i: int, p: int|
        0 <= i < vector.len() && #[trigger] stands_at(bytes, p, encode(vector[i])) implies step(
        vector.take(i),
        p,
    ) == Ok::<(u32, int), ErrorView>((vector[i], p + encode(vector[i]).len())) by {
        lemma_byte_ranges();
        lemma_number_stands(Format::Record, bytes, p, vector[i] as nat, 4);
        assert(single_finite(vector[i]));
    }
    lemma_repeated_round_trip(step, encode, vector, bytes, at);
}

} // verus!
