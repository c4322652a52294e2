//! The write-ahead log: one checksummed frame for every commit.
use crate::bytes::{
    joined, le, lemma_byte_ranges, lemma_repeated_error, number, number_from, put_bytes,
    put_number, repeated, le_value, Decoder, Format, Parsed,
};
use crate::checksum::{checksum, crc32c};
use crate::collection::{
    fits, prepared_batch, views, with_points, without_points, Collection, CollectionView, Point,
    PointView, UpsertPoint, UpsertView,
};
use crate::error::{Error, ErrorView, Result};
use crate::hnsw::codec::{component_bytes, corrupt, same_source};
use crate::ids::IdSet;
use crate::metric::{lawful, Kernel};
use crate::persistence::record::{
    all_encoded, encoded_count, encoded_metadata, encoded_text, encoded_vector, followed,
    lemma_all_encoded_error, parse_count, parse_metadata, parse_string, put_count, put_finite,
    put_metadata, put_string, read_components, read_items, read_metadata, read_string, record_component, wrote, Encoded,
};
use crate::text::{decimal, decimal_text, join};
use vstd::prelude::*;
use vstd::slice::slice_subrange;
use vstd::string::*;

verus! {

/// The most bytes that the payload of a frame may have.
pub const MAX_FRAME_BYTES: usize = 268_435_456;

/// The four bytes at the front of a frame.
pub open spec fn wal_magic() -> Seq<u8> {
    seq![0x46u8, 0x56u8, 0x57u8, 0x4cu8]
}

/// A point of a record.
pub open spec fn encoded_point() -> spec_fn(PointView) -> Encoded {
    |point: PointView|
        followed(
            followed(
                followed(encoded_text(point.id), encoded_count(point.vector.len())),
                encoded_vector(point.vector),
            ),
            encoded_metadata(point.metadata),
        )
}

/// An ID.
pub open spec fn encoded_id() -> spec_fn(Seq<char>) -> Encoded {
    |id: Seq<char>| encoded_text(id)
}

/// The record of a written batch.
pub open spec fn encoded_upsert(sequence: u64, points: Seq<PointView>) -> Encoded {
    followed(
        followed(Ok(seq![1u8] + le(sequence as nat, 8)), encoded_count(points.len())),
        all_encoded(points, encoded_point()),
    )
}

/// The record of a deletion.
pub open spec fn encoded_delete(sequence: u64, ids: Seq<Seq<char>>) -> Encoded {
    followed(
        followed(Ok(seq![2u8] + le(sequence as nat, 8)), encoded_count(ids.len())),
        all_encoded(ids, encoded_id()),
    )
}

/// A frame: magic bytes, the length of the payload, the payload, its checksum.
pub open spec fn frame(payload: Seq<u8>) -> Seq<u8> {
    wal_magic() + le(payload.len(), 4) + payload + le(checksum(payload) as nat, 4)
}

/// The frame of a payload; a reader takes back at most [`MAX_FRAME_BYTES`].
pub open spec fn framed(payload: Encoded) -> Encoded {
    match payload {
        Err(error) => Err(error),
        Ok(bytes) => if bytes.len() > MAX_FRAME_BYTES {
            Err(ErrorView::InvalidQuery("WAL record is too large"@))
        } else {
            Ok(frame(bytes))
        },
    }
}

/// An encoding as a result.
pub open spec fn encoding(result: Result<Vec<u8>>, encoded: Encoded) -> bool {
    match encoded {
        Ok(bytes) => result is Ok && result->Ok_0@ == bytes,
        Err(error) => result is Err && result->Err_0@ == error,
    }
}

fn put_point(output: &mut Vec<u8>, point: &Point) -> (result: Result<()>)
    ensures
        wrote(old(output)@, final(output)@, result, (encoded_point())(point@)),
{
    let ghost start = output@;
    put_string(output, point.id.as_str())?;
    put_count(output, point.vector.len())?;
    put_finite(output, &point.vector)?;
    put_metadata(output, &point.metadata)?;
    proof {
        let id = encoded_text(point.id@)->Ok_0;
        let count = encoded_count(point.vector@.len())->Ok_0;
        let vector = joined(point.vector@, component_bytes());
        let metadata = encoded_metadata(point.metadata@)->Ok_0;
        assert(output@ =~= start + (((id + count) + vector) + metadata));
    }
    Ok(())
}

/// The record of a written batch.
pub(crate) fn encode_upsert(sequence: u64, points: &Vec<Point>) -> (result: Result<Vec<u8>>)
    ensures
        encoding(result, encoded_upsert(sequence, views(points@))),
{
    let mut output: Vec<u8> = Vec::new();
    output.push(1);
    assert(output@ =~= seq![1u8]);
    put_number(&mut output, sequence, 8);
    put_count(&mut output, points.len())?;
    let ghost start = output@;
    let ghost all = views(points@);
    let ghost encode = encoded_point();
    let mut i: usize = 0;
    proof {
        assert(all.subrange(0, 0) =~= Seq::empty());
        assert(start =~= start + Seq::<u8>::empty());
    }
    while i < points.len()
        invariant
            i <= points@.len(),
            all == views(points@),
            encode == encoded_point(),
            encoded_count(all.len()) is Ok,
            start == (seq![1u8] + le(sequence as nat, 8)) + encoded_count(all.len())->Ok_0,
            all_encoded(all.subrange(0, i as int), encode) is Ok,
            output@ == start + all_encoded(all.subrange(0, i as int), encode)->Ok_0,
        decreases points.len() - i,
    {
        let ghost before = output@;
        proof {
            let next = all.subrange(0, i + 1);
            assert(next.drop_last() =~= all.subrange(0, i as int));
            assert(next.last() == points@[i as int]@);
            if all_encoded(next, encode) is Err {
                lemma_all_encoded_error(all, encode, i + 1);
            }
        }
        put_point(&mut output, &points[i])?;
        proof {
            let head = all_encoded(all.subrange(0, i as int), encode)->Ok_0;
            let point = encode(all[i as int])->Ok_0;
            assert(output@ =~= start + (head + point));
        }
        i = i + 1;
    }
    assert(all.subrange(0, i as int) =~= all);
    Ok(output)
}

/// The record of a deletion.
fn encode_delete(sequence: u64, ids: &Vec<String>) -> (result: Result<Vec<u8>>)
    ensures
        encoding(result, encoded_delete(sequence, views(ids@))),
{
    let mut output: Vec<u8> = Vec::new();
    output.push(2);
    assert(output@ =~= seq![2u8]);
    put_number(&mut output, sequence, 8);
    put_count(&mut output, ids.len())?;
    let ghost start = output@;
    let ghost all = views(ids@);
    let ghost encode = encoded_id();
    let mut i: usize = 0;
    proof {
        assert(all.subrange(0, 0) =~= Seq::empty());
        assert(start =~= start + Seq::<u8>::empty());
    }
    while i < ids.len()
        invariant
            i <= ids@.len(),
            all == views(ids@),
            encode == encoded_id(),
            encoded_count(all.len()) is Ok,
            start == (seq![2u8] + le(sequence as nat, 8)) + encoded_count(all.len())->Ok_0,
            all_encoded(all.subrange(0, i as int), encode) is Ok,
            output@ == start + all_encoded(all.subrange(0, i as int), encode)->Ok_0,
        decreases ids.len() - i,
    {
        proof {
            let next = all.subrange(0, i + 1);
            assert(next.drop_last() =~= all.subrange(0, i as int));
            assert(next.last() == ids@[i as int]@);
            if all_encoded(next, encode) is Err {
                lemma_all_encoded_error(all, encode, i + 1);
            }
        }
        put_string(&mut output, ids[i].as_str())?;
        proof {
            let head = all_encoded(all.subrange(0, i as int), encode)->Ok_0;
            let id = encode(all[i as int])->Ok_0;
            assert(output@ =~= start + (head + id));
        }
        i = i + 1;
    }
    assert(all.subrange(0, i as int) =~= all);
    Ok(output)
}

/// Puts a payload into a frame.
pub(crate) fn make_frame(payload: &Vec<u8>) -> (result: Result<Vec<u8>>)
    ensures
        encoding(result, framed(Ok(payload@))),
{
    if payload.len() > MAX_FRAME_BYTES {
        return Err(Error::InvalidQuery("WAL record is too large"));
    }
    let mut output: Vec<u8> = Vec::new();
    output.push(0x46);
    output.push(0x56);
    output.push(0x57);
    output.push(0x4c);
    assert(output@ =~= wal_magic());
    put_number(&mut output, payload.len() as u64, 4);
    put_bytes(&mut output, payload.as_slice());
    put_number(&mut output, crc32c(payload.as_slice()) as u64, 4);
    Ok(output)
}

/// The frame of a deletion.
pub(crate) fn delete_frame(sequence: u64, ids: &Vec<String>) -> (result: Result<Vec<u8>>)
    ensures
        encoding(result, framed(encoded_delete(sequence, views(ids@)))),
{
    let payload = encode_delete(sequence, ids)?;
    make_frame(&payload)
}

/// Reads a point of a record; its vector has the dimension of the collection.
pub open spec fn point_step(bytes: Seq<u8>, dimension: usize) -> spec_fn(
    Seq<UpsertView>,
    int,
) -> Parsed<UpsertView> {
    |done: Seq<UpsertView>, at: int|
        match parse_string(bytes, at) {
            Err(error) => Err(error),
            Ok((id, after_id)) => match parse_count(bytes, after_id) {
                Err(error) => Err(error),
                Ok((count, after_count)) => if count != dimension {
                    corrupt(
                        "stored vector dimension "@ + decimal(count)
                            + " differs from collection dimension "@ + decimal(dimension as nat),
                    )
                } else {
                    match repeated(record_component(bytes), after_count, count) {
                        Err(error) => Err(error),
                        Ok((vector, after_vector)) => match parse_metadata(bytes, after_vector) {
                            Err(error) => Err(error),
                            Ok((metadata, end)) => Ok((UpsertView { id, vector, metadata }, end)),
                        },
                    }
                },
            },
        }
}

/// Reads an ID.
pub open spec fn id_step(bytes: Seq<u8>) -> spec_fn(Seq<Seq<char>>, int) -> Parsed<Seq<char>> {
    |done: Seq<Seq<char>>, at: int| parse_string(bytes, at)
}

/// A collection, and the IDs that a record has changed in it.
pub struct Replay {
    pub collection: CollectionView,
    pub changed: Seq<Seq<char>>,
}

/// The IDs of points.
pub open spec fn ids_of(points: Seq<UpsertView>) -> Seq<Seq<char>> {
    Seq::new(points.len(), |i: int| points[i].id)
}

/// What a batch of a record makes of a collection.
pub open spec fn replayed_upsert<K: Kernel>(
    kernel: K,
    before: CollectionView,
    payload: Seq<u8>,
    at: int,
    sequence: u64,
) -> core::result::Result<Replay, ErrorView> {
    match parse_count(payload, at) {
        Err(error) => Err(error),
        Ok((count, next)) => match repeated(
            point_step(payload, before.config.dimension),
            next,
            count,
        ) {
            Err(error) => Err(error),
            Ok((points, end)) => if end != payload.len() {
                corrupt(Format::Record.trailing())
            } else {
                match prepared_batch(kernel, before.config, points, sequence) {
                    Err(error) => Err(error),
                    Ok(batch) => Ok(
                        Replay {
                            collection: CollectionView {
                                config: before.config,
                                points: with_points(before.points, batch),
                                sequence,
                            },
                            changed: ids_of(points),
                        },
                    ),
                }
            },
        },
    }
}

/// What a deletion of a record makes of a collection.
pub open spec fn replayed_delete(
    before: CollectionView,
    payload: Seq<u8>,
    at: int,
    sequence: u64,
) -> core::result::Result<Replay, ErrorView> {
    match parse_count(payload, at) {
        Err(error) => Err(error),
        Ok((count, next)) => if count == 0 {
            corrupt("empty delete WAL record"@)
        } else {
            match repeated(id_step(payload), next, count) {
                Err(error) => Err(error),
                Ok((ids, end)) => if end != payload.len() {
                    corrupt(Format::Record.trailing())
                } else {
                    Ok(
                        Replay {
                            collection: CollectionView {
                                config: before.config,
                                points: without_points(before.points, ids),
                                sequence,
                            },
                            changed: ids,
                        },
                    )
                },
            }
        },
    }
}

/// What a record makes of a collection. A record that the collection already
/// holds changes nothing; a record out of turn is damage.
pub open spec fn replayed<K: Kernel>(
    kernel: K,
    before: CollectionView,
    payload: Seq<u8>,
) -> core::result::Result<Replay, ErrorView> {
    match number(Format::Record, payload, 0, 1) {
        Err(error) => Err(error),
        Ok((operation, after_operation)) => match number(
            Format::Record,
            payload,
            after_operation,
            8,
        ) {
            Err(error) => Err(error),
            Ok((sequence, next)) => if sequence <= before.sequence {
                Ok(Replay { collection: before, changed: seq![] })
            } else if sequence != before.sequence + 1 {
                corrupt(
                    "non-consecutive WAL sequence: expected "@ + decimal(
                        (before.sequence + 1) as nat,
                    ) + ", got "@ + decimal(sequence),
                )
            } else if operation == 1 {
                replayed_upsert(kernel, before, payload, next, sequence as u64)
            } else if operation == 2 {
                replayed_delete(before, payload, next, sequence as u64)
            } else {
                corrupt("unknown WAL operation "@ + decimal(operation))
            },
        },
    }
}

fn read_point(decoder: &mut Decoder, dimension: usize) -> (result: Result<UpsertPoint>)
    requires
        old(decoder).wf(),
        old(decoder).format == Format::Record,
    ensures
        same_source(*old(decoder), *final(decoder)),
        match (point_step(old(decoder).bytes@, dimension))(
            Seq::empty(),
            old(decoder).position as int,
        ) {
            Ok((value, next)) => result is Ok && result->Ok_0@ == value && final(decoder).position
                == next,
            Err(error) => result is Err && result->Err_0@ == error,
        },
{
    let id = read_string(decoder)?;
    let count: usize = read_items(decoder)?;
    if count != dimension {
        let mut message = join("stored vector dimension ", decimal_text(count as u64).as_str());
        message.append(" differs from collection dimension ");
        message.append(decimal_text(dimension as u64).as_str());
        return Err(Error::CorruptStorage(message));
    }
    let vector = read_components(decoder, dimension)?;
    let metadata = read_metadata(decoder)?;
    Ok(UpsertPoint { id, vector, metadata })
}

fn read_points(decoder: &mut Decoder, dimension: usize, count: usize) -> (result: Result<
    Vec<UpsertPoint>,
>)
    requires
        old(decoder).wf(),
        old(decoder).format == Format::Record,
    ensures
        same_source(*old(decoder), *final(decoder)),
        match repeated(
            point_step(old(decoder).bytes@, dimension),
            old(decoder).position as int,
            count as nat,
        ) {
            Ok((points, next)) => result is Ok && views(result->Ok_0@) == points && final(
                decoder).position == next,
            Err(error) => result is Err && result->Err_0@ == error,
        },
{
    let ghost bytes = decoder.bytes@;
    let ghost start = decoder.position as int;
    let ghost step = point_step(bytes, dimension);
    let mut points: Vec<UpsertPoint> = Vec::new();
    let mut i: usize = 0;
    assert(views(points@) =~= Seq::empty());
    while i < count
        invariant
            i <= count,
            same_source(*old(decoder), *decoder),
            decoder.format == Format::Record,
            bytes == decoder.bytes@,
            bytes == old(decoder).bytes@,
            start == old(decoder).position,
            step == point_step(bytes, dimension),
            repeated(step, start, i as nat) == Ok::<(Seq<UpsertView>, int), ErrorView>(
                (views(points@), decoder.position as int),
            ),
        decreases count - i,
    {
        let ghost before = points@;
        proof {
            if repeated(step, start, (i + 1) as nat) is Err {
                lemma_repeated_error(step, start, (i + 1) as nat, count as nat);
            }
            assert(step(views(points@), decoder.position as int) == step(
                Seq::empty(),
                decoder.position as int,
            ));
        }
        let point = read_point(decoder, dimension)?;
        let ghost value = point@;
        points.push(point);
        assert(views(points@) =~= views(before).push(value));
        i = i + 1;
    }
    Ok(points)
}

fn read_ids(decoder: &mut Decoder, count: usize) -> (result: Result<Vec<String>>)
    requires
        old(decoder).wf(),
        old(decoder).format == Format::Record,
    ensures
        same_source(*old(decoder), *final(decoder)),
        match repeated(
            id_step(old(decoder).bytes@),
            old(decoder).position as int,
            count as nat,
        ) {
            Ok((ids, next)) => result is Ok && views(result->Ok_0@) == ids && final(
                decoder).position == next,
            Err(error) => result is Err && result->Err_0@ == error,
        },
{
    let ghost bytes = decoder.bytes@;
    let ghost start = decoder.position as int;
    let ghost step = id_step(bytes);
    let mut ids: Vec<String> = Vec::new();
    let mut i: usize = 0;
    assert(views(ids@) =~= Seq::empty());
    while i < count
        invariant
            i <= count,
            same_source(*old(decoder), *decoder),
            decoder.format == Format::Record,
            bytes == decoder.bytes@,
            bytes == old(decoder).bytes@,
            start == old(decoder).position,
            step == id_step(bytes),
            repeated(step, start, i as nat) == Ok::<(Seq<Seq<char>>, int), ErrorView>(
                (views(ids@), decoder.position as int),
            ),
        decreases count - i,
    {
        let ghost before = ids@;
        proof {
            if repeated(step, start, (i + 1) as nat) is Err {
                lemma_repeated_error(step, start, (i + 1) as nat, count as nat);
            }
        }
        let id = read_string(decoder)?;
        let ghost value = id@;
        ids.push(id);
        assert(views(ids@) =~= views(before).push(value));
        i = i + 1;
    }
    Ok(ids)
}

/// The IDs of points.
fn ids_of_points(points: &Vec<UpsertPoint>) -> (ids: Vec<String>)
    ensures
        views(ids@) == ids_of(views(points@)),
{
    let mut ids: Vec<String> = Vec::new();
    let mut i: usize = 0;
    while i < points.len()
        invariant
            i <= points@.len(),
            ids@.len() == i,
            forall|j: int| 0 <= j < i ==> (#[trigger] ids@[j])@ == points@[j].id@,
        decreases points.len() - i,
    {
        ids.push(points[i].id.clone());
        i = i + 1;
    }
    assert(views(ids@) =~= ids_of(views(points@)));
    ids
}

fn replay_upsert<K: Kernel>(
    kernel: &K,
    collection: &mut Collection,
    decoder: Decoder,
    sequence: u64,
) -> (result: Result<Vec<String>>)
    requires
        lawful(*kernel),
        old(collection).wf(),
        decoder.wf(),
        decoder.format == Format::Record,
        sequence == old(collection)@.sequence + 1,
    ensures
        final(collection).wf(),
        match replayed_upsert(
            *kernel,
            old(collection)@,
            decoder.bytes@,
            decoder.position as int,
            sequence,
        ) {
            Ok(replay) => {
                &&& result is Ok
                &&& views(result->Ok_0@) == replay.changed
                &&& final(collection)@ == replay.collection
            },
            Err(error) => result is Err && result->Err_0@ == error && final(collection)@ == old(
                collection)@,
        },
{
    let mut decoder = decoder;
    let dimension: usize = collection.config().dimension;
    let count: usize = read_items(&mut decoder)?;
    let points = read_points(&mut decoder, dimension, count)?;
    decoder.finish()?;
    let changed = ids_of_points(&points);
    let prepared = collection.prepare_upsert(kernel, points, sequence)?;
    proof {
        assert forall|j: int| 0 <= j < prepared@.len() implies fits(
            collection@.config,
            (#[trigger] prepared@[j])@,
        ) by {
            assert(views(prepared@)[j] == prepared@[j]@);
        }
    }
    collection.apply_prepared_upsert(prepared, sequence);
    Ok(changed)
}

fn replay_delete(collection: &mut Collection, decoder: Decoder, sequence: u64) -> (result: Result<
    Vec<String>,
>)
    requires
        old(collection).wf(),
        decoder.wf(),
        decoder.format == Format::Record,
        sequence == old(collection)@.sequence + 1,
    ensures
        final(collection).wf(),
        match replayed_delete(
            old(collection)@,
            decoder.bytes@,
            decoder.position as int,
            sequence,
        ) {
            Ok(replay) => {
                &&& result is Ok
                &&& views(result->Ok_0@) == replay.changed
                &&& final(collection)@ == replay.collection
            },
            Err(error) => result is Err && result->Err_0@ == error && final(collection)@ == old(
                collection)@,
        },
{
    let mut decoder = decoder;
    let count: usize = read_items(&mut decoder)?;
    if count == 0 {
        return Err(Error::corrupt("empty delete WAL record"));
    }
    let ids = read_ids(&mut decoder, count)?;
    decoder.finish()?;
    collection.apply_delete_at(&ids, sequence);
    Ok(ids)
}

/// Applies a record to a collection, and returns the IDs that it has changed.
/// On an error nothing is changed.
pub(crate) fn apply_payload<K: Kernel>(
    kernel: &K,
    collection: &mut Collection,
    payload: &[u8],
) -> (result: Result<Vec<String>>)
    requires
        lawful(*kernel),
        old(collection).wf(),
    ensures
        final(collection).wf(),
        match replayed(*kernel, old(collection)@, payload@) {
            Ok(replay) => {
                &&& result is Ok
                &&& views(result->Ok_0@) == replay.changed
                &&& final(collection)@ == replay.collection
            },
            Err(error) => result is Err && result->Err_0@ == error && final(collection)@ == old(collection)@,
        },
{
    let mut decoder = Decoder::new(payload, Format::Record);
    proof {
        lemma_byte_ranges();
    }
    let operation: u8 = decoder.byte()?;
    let sequence: u64 = decoder.number(8)?;
    let latest: u64 = collection.latest_sequence();
    if sequence <= latest {
        let none: Vec<String> = Vec::new();
        assert(views(none@) =~= Seq::empty());
        return Ok(none);
    }
    let expected: u64 = latest + 1;
    if sequence != expected {
        let mut message = join(
            "non-consecutive WAL sequence: expected ",
            decimal_text(expected).as_str(),
        );
        message.append(", got ");
        message.append(decimal_text(sequence).as_str());
        return Err(Error::CorruptStorage(message));
    }
    if operation == 1 {
        replay_upsert(kernel, collection, decoder, sequence)
    } else if operation == 2 {
        replay_delete(collection, decoder, sequence)
    } else {
        let number = decimal_text(operation as u64);
        Err(Error::CorruptStorage(join("unknown WAL operation ", number.as_str())))
    }
}

/// What a log leaves: the collection, the IDs changed since the segment that it
/// started from, and the length of the log up to its last whole frame.
pub struct Recovery {
    pub collection: CollectionView,
    pub dirty: Set<Seq<char>>,
    pub valid_length: int,
}

/// What the frames from a position on make of a collection. An incomplete frame
/// at the end was never acknowledged and ends the log; any other damage is an
/// error.
pub open spec fn recovered<K: Kernel>(
    kernel: K,
    collection: CollectionView,
    dirty: Set<Seq<char>>,
    wal: Seq<u8>,
    at: int,
) -> core::result::Result<Recovery, ErrorView>
    decreases wal.len() - at,
{
    let rest = wal.len() - at;
    if at < 0 || rest < 8 {
        Ok(Recovery { collection, dirty, valid_length: at })
    } else if wal.subrange(at, at + 4) != wal_magic() {
        corrupt("invalid WAL magic at byte "@ + decimal(at as nat))
    } else {
        let length = le_value(wal.subrange(at + 4, at + 8)) as int;
        if length > MAX_FRAME_BYTES {
            corrupt("WAL frame at byte "@ + decimal(at as nat) + " exceeds the size limit"@)
        } else if rest < 12 + length {
            Ok(Recovery { collection, dirty, valid_length: at })
        } else {
            let payload = wal.subrange(at + 8, at + 8 + length);
            let stored = le_value(wal.subrange(at + 8 + length, at + 12 + length));
            if checksum(payload) != stored {
                corrupt("WAL checksum mismatch at byte "@ + decimal(at as nat))
            } else {
                match replayed(kernel, collection, payload) {
                    Err(error) => Err(error),
                    Ok(replay) => recovered(
                        kernel,
                        replay.collection,
                        dirty.union(replay.changed.to_set()),
                        wal,
                        at + 12 + length,
                    ),
                }
            }
        }
    }
}

/// Adds IDs to a set.
pub(crate) fn add_ids(set: &mut IdSet, ids: &Vec<String>)
    requires
        old(set).wf(),
    ensures
        final(set).wf(),
        final(set)@ == old(set)@.union(views(ids@).to_set()),
{
    let ghost before = set@;
    let ghost all = views(ids@);
    let mut i: usize = 0;
    assert(set@ =~= before.union(all.subrange(0, 0).to_set()));
    while i < ids.len()
        invariant
            i <= ids@.len(),
            all == views(ids@),
            set.wf(),
            set@ == before.union(all.subrange(0, i as int).to_set()),
        decreases ids.len() - i,
    {
        set.insert(ids[i].clone());
        proof {
            let head = all.subrange(0, i as int);
            let next = all.subrange(0, i + 1);
            assert(next =~= head.push(all[i as int]));
            assert forall|id: Seq<char>| #[trigger]
                next.to_set().contains(id) <==> head.to_set().contains(id) || id == all[i as int] by {
                if head.contains(id) {
                    let x = choose|x: int| 0 <= x < head.len() && head[x] == id;
                    assert(next[x] == id);
                }
                if id == all[i as int] {
                    assert(next[i as int] == id);
                }
                if next.contains(id) {
                    let x = choose|x: int| 0 <= x < next.len() && next[x] == id;
                    if x < i {
                        assert(head[x] == id);
                    }
                }
            }
            assert(set@ =~= before.union(next.to_set()));
        }
        i = i + 1;
    }
    assert(all.subrange(0, i as int) =~= all);
}

/// Applies the frames of a log to a collection, and returns the length of the
/// log up to its last whole frame.
pub(crate) fn recover<K: Kernel>(
    kernel: &K,
    wal: &[u8],
    collection: &mut Collection,
    dirty_ids: &mut IdSet,
) -> (result: Result<usize>)
    requires
        lawful(*kernel),
        old(collection).wf(),
        old(dirty_ids).wf(),
    ensures
        final(collection).wf(),
        final(dirty_ids).wf(),
        match recovered(*kernel, old(collection)@, old(dirty_ids)@, wal@, 0) {
            Ok(recovery) => {
                &&& result is Ok
                &&& result->Ok_0 == recovery.valid_length
                &&& result->Ok_0 <= wal@.len()
                &&& final(collection)@ == recovery.collection
                &&& final(dirty_ids)@ == recovery.dirty
            },
            Err(error) => result is Err && result->Err_0@ == error,
        },
{
    let mut at: usize = 0;
    loop
        invariant
            lawful(*kernel),
            at <= wal@.len(),
            collection.wf(),
            dirty_ids.wf(),
            recovered(*kernel, old(collection)@, old(dirty_ids)@, wal@, 0) == recovered(
                *kernel,
                collection@,
                dirty_ids@,
                wal@,
                at as int,
            ),
        decreases wal@.len() - at,
    {
        let rest: usize = wal.len() - at;
        if rest < 8 {
            return Ok(at);
        }
        let magic = slice_subrange(wal, at, at + 4);
        if magic[0] != 0x46 || magic[1] != 0x56 || magic[2] != 0x57 || magic[3] != 0x4c {
            let position = decimal_text(at as u64);
            return Err(
                Error::CorruptStorage(join("invalid WAL magic at byte ", position.as_str())),
            );
        }
        assert(magic@ =~= wal_magic());
        proof {
            lemma_byte_ranges();
        }
        let length: u64 = number_from(slice_subrange(wal, at + 4, at + 8));
        if length > MAX_FRAME_BYTES as u64 {
            let mut message = join("WAL frame at byte ", decimal_text(at as u64).as_str());
            message.append(" exceeds the size limit");
            return Err(Error::CorruptStorage(message));
        }
        let length: usize = length as usize;
        if rest - 8 < 4 || rest - 12 < length {
            return Ok(at);
        }
        let payload = slice_subrange(wal, at + 8, at + 8 + length);
        let stored: u64 = number_from(slice_subrange(wal, at + 8 + length, at + 12 + length));
        if crc32c(payload) as u64 != stored {
            let position = decimal_text(at as u64);
            return Err(
                Error::CorruptStorage(join("WAL checksum mismatch at byte ", position.as_str())),
            );
        }
        let changed = apply_payload(kernel, collection, payload)?;
        add_ids(dirty_ids, &changed);
        at = at + 12 + length;
    }
}

} // verus!
