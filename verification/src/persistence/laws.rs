//! What the files of a collection promise together.
use crate::bytes::{
    joined, le, le_value, lemma_byte_ranges, lemma_le_round_trip, lemma_le_value_round_trip,
    lemma_number_stands, lemma_repeated_round_trip, lemma_stands_split, lemma_take_stands, repeated, stands_at, Format,
};
use crate::checksum::{checksum, law_checksum_exposes_a_changed_byte};
use crate::collection::{
    lemma_prepared_each, prepared_batch, prepared_point, prepared_points, sound, with_points,
    without_points, CollectionConfig, CollectionView, PointView, UpsertView,
};
use crate::error::ErrorView;
use crate::hnsw::codec::{
    component_bytes, corrupt, graph_bytes, law_graph_round_trips, lemma_byte_stands, tag_of, text_bytes,
    MAX_NODES,
};
use crate::hnsw::model::valid;
use crate::metadata::{ascending, Entries};
use crate::metric::{all_finite, prepared, Kernel, Metric};
use crate::persistence::record::{
    all_encoded, bytes_of, encoded_entry, encoded_metadata, lemma_all_encoded_joined,
    lemma_components_read, lemma_count_reads, lemma_metadata_reads, lemma_string_reads,
    readable_metadata, readable_text, readable_value, Encoded, MAX_ITEMS,
};
use crate::persistence::segment::{
    config_bytes, encoded_manifest, encoded_segment, encoded_stored, manifest_magic, matched,
    meta_magic, parse_config, parse_contents, parse_manifest, parse_record_tag, parse_segment,
    seal_holds, sealed, segment_magic, segment_name, stored_step, ManifestView, SegmentView,
    FORMAT_VERSION, SEGMENT_VERSION,
};
use crate::persistence::wal::{
    encoded_delete, encoded_id, encoded_point, encoded_upsert, frame, framed, id_step, ids_of, point_step,
    recovered, replayed, wal_magic, Recovery, Replay, MAX_FRAME_BYTES,
};
use crate::persistence::{delete_commit, takes_back, upsert_commit, written_ids, PersistedView};
use crate::text::{decimal, padded};
use vstd::prelude::*;
use vstd::utf8::encode_utf8;

verus! {

/// A seal holds over the bytes that it was put on.
proof fn lemma_seal(bytes: Seq<u8>)
    ensures
        sealed(bytes).len() == bytes.len() + 4,
        seal_holds(sealed(bytes)),
        sealed(bytes).subrange(0, bytes.len() as int) == bytes,
{
    let whole = sealed(bytes);
    lemma_byte_ranges();
    lemma_le_round_trip(checksum(bytes) as nat, 4);
    assert(whole.subrange(0, whole.len() - 4) =~= bytes);
    assert(whole.subrange(whole.len() - 4, whole.len() as int) =~= le(
        checksum(bytes) as nat,
        4,
    ));
}

/// A seal does not hold over bytes of which one was changed, be it one of those that it
/// was put on or one of its own.
proof fn lemma_changed_seal(bytes: Seq<u8>, position: int, byte: u8)
    requires
        0 <= position < sealed(bytes).len(),
        byte != sealed(bytes)[position],
    ensures
        !seal_holds(sealed(bytes).update(position, byte)),
{
    let whole = sealed(bytes);
    let changed = whole.update(position, byte);
    let sum = le(checksum(bytes) as nat, 4);
    let end = bytes.len() as int;
    lemma_byte_ranges();
    lemma_le_round_trip(checksum(bytes) as nat, 4);
    let read = changed.subrange(0, end);
    let stored = changed.subrange(end, end + 4);
    if position < end {
        assert(read =~= bytes.update(position, byte));
        assert(stored =~= sum);
        law_checksum_exposes_a_changed_byte(bytes, position, byte);
    } else {
        assert(read =~= bytes);
        assert(stored[position - end] != sum[position - end]);
        lemma_le_value_round_trip(stored);
    }
}

/// The first five bytes under a seal, one byte of which was changed.
proof fn lemma_changed_head(inner: Seq<u8>, position: int, byte: u8, magic: Seq<u8>)
    requires
        magic.len() == 4,
        inner.len() >= 5,
        inner.subrange(0, 4) =~= magic,
        0 <= position < sealed(inner).len(),
        byte != sealed(inner)[position],
    ensures
        ({
            let changed = sealed(inner).update(position, byte);
            position < 5 <==> changed.subrange(0, 4) != magic || changed[4] != inner[4]
        }),
{
    let changed = sealed(inner).update(position, byte);
    assert forall|i: int| 0 <= i < 4 implies inner[i] == magic[i] by {
        assert(inner.subrange(0, 4)[i] == magic[i]);
    }
    if position < 4 {
        assert(changed.subrange(0, 4)[position] != magic[position]);
    } else {
        assert(changed.subrange(0, 4) =~= magic);
    }
}

/// What is said of a file under a seal of which a byte was changed: that it does not
/// begin as it should, where one of its first five bytes was, else that its checksum
/// does not match.
pub open spec fn damage_told<T>(
    position: int,
    header: Seq<char>,
    mismatch: Seq<char>,
) -> core::result::Result<T, ErrorView> {
    if position < 5 {
        corrupt(header)
    } else {
        corrupt(mismatch)
    }
}

/// The settings of a collection are read back as they were stored.
pub proof fn law_settings_survive(config: CollectionConfig)
    requires
        config.dimension > 0,
    ensures
        parse_config(config_bytes(config)) == Ok::<CollectionConfig, ErrorView>(config),
{
    let front = meta_magic() + seq![FORMAT_VERSION, tag_of(config.metric)];
    let dimension = le(config.dimension as nat, 8);
    let inner = front + dimension;
    let bytes = config_bytes(config);
    lemma_byte_ranges();
    lemma_le_round_trip(config.dimension as nat, 8);
    lemma_seal(inner);
    assert forall|i: int| 0 <= i < inner.len() implies bytes[i] == inner[i] by {
        assert(bytes.subrange(0, inner.len() as int)[i] == inner[i]);
    }
    assert(bytes.subrange(0, 4) =~= meta_magic());
    assert(bytes[4] == front[4]);
    assert(bytes[5] == front[5]);
    assert(bytes.subrange(6, 14) =~= dimension);
}

/// Stored settings of which any byte was changed are refused.
pub proof fn law_changed_settings_are_refused(config: CollectionConfig, position: int, byte: u8)
    requires
        0 <= position < config_bytes(config).len(),
        byte != config_bytes(config)[position],
    ensures
        parse_config(config_bytes(config).update(position, byte)) == damage_told::<
            CollectionConfig,
        >(
            position,
            "invalid collection metadata header"@,
            "collection metadata checksum mismatch"@,
        ),
{
    let inner = meta_magic() + seq![FORMAT_VERSION, tag_of(config.metric)] + le(
        config.dimension as nat,
        8,
    );
    let changed = config_bytes(config).update(position, byte);
    lemma_byte_ranges();
    lemma_size_value(config.dimension);
    lemma_seal(inner);
    lemma_changed_seal(inner, position, byte);
    lemma_changed_head(inner, position, byte, meta_magic());
}

proof fn lemma_digits_plain(n: nat, width: nat)
    ensures
        !padded(n, width).contains('/'),
    decreases width,
{
    if width > 0 {
        lemma_digits_plain(n / 10, (width - 1) as nat);
        let head = padded(n / 10, (width - 1) as nat);
        let whole = padded(n, width);
        if whole.contains('/') {
            let i = choose|i: int| 0 <= i < whole.len() && whole[i] == '/';
            if i < head.len() {
                assert(head[i] == '/');
            }
        }
    }
}

/// The manifest of a published segment is read back as it was written.
pub proof fn law_manifest_survives(sequence: u64)
    ensures
        encoded_manifest(sequence, segment_name(sequence)) is Ok,
        parse_manifest(encoded_manifest(sequence, segment_name(sequence))->Ok_0) == Ok::<
            ManifestView,
            ErrorView,
        >(ManifestView { sequence, segment: segment_name(sequence) }),
{
    let name = segment_name(sequence);
    crate::persistence::flush::lemma_segment_name_fits(sequence);
    crate::persistence::flush::lemma_segment_name_length(sequence);
    let head = manifest_magic() + seq![FORMAT_VERSION];
    let number_part = le(sequence as nat, 8);
    let text_part = text_bytes(name);
    let inner = head + number_part + text_part;
    let bytes = encoded_manifest(sequence, name)->Ok_0;
    lemma_byte_ranges();
    lemma_le_round_trip(sequence as nat, 8);
    lemma_le_round_trip(encode_utf8(name).len(), 4);
    lemma_seal(inner);
    assert(bytes == sealed(inner));
    assert forall|i: int| 0 <= i < inner.len() implies bytes[i] == inner[i] by {
        assert(bytes.subrange(0, inner.len() as int)[i] == inner[i]);
    }
    assert(bytes.subrange(0, 4) =~= manifest_magic());
    assert(bytes[4] == head[4]);
    let body = bytes.subrange(5, bytes.len() - 4);
    assert(body =~= number_part + text_part);
    assert(body.subrange(0, body.len() as int) =~= number_part + text_part);
    assert(stands_at(body, 0, number_part + text_part));
    lemma_stands_split(body, 0, number_part, text_part);
    lemma_number_stands(Format::Record, body, 0, sequence as nat, 8);
    lemma_string_reads(body, 8, name);
    lemma_digits_plain(sequence as nat, 20);
    reveal_strlit("segment-");
    reveal_strlit(".fvs");
    let digits = padded(sequence as nat, 20);
    if name.contains('/') {
        let i = choose|i: int| 0 <= i < name.len() && name[i] == '/';
        if i < 8 {
            assert("segment-"@[i] == '/');
        } else if i < 28 {
            assert(digits[i - 8] == '/');
        } else {
            assert(".fvs"@[i - 28] == '/');
        }
    }
    assert(name.subrange(0, 8) =~= "segment-"@);
}

/// A manifest of which any byte was changed is refused.
pub proof fn law_changed_manifest_is_refused(
    sequence: u64,
    segment: Seq<char>,
    position: int,
    byte: u8,
)
    requires
        encoded_manifest(sequence, segment) is Ok,
        0 <= position < encoded_manifest(sequence, segment)->Ok_0.len(),
        byte != encoded_manifest(sequence, segment)->Ok_0[position],
    ensures
        parse_manifest(encoded_manifest(sequence, segment)->Ok_0.update(position, byte))
            == damage_told::<ManifestView>(
            position,
            "invalid manifest header"@,
            "manifest checksum mismatch"@,
        ),
{
    let head = manifest_magic() + seq![FORMAT_VERSION];
    let inner = head + le(sequence as nat, 8) + (le(encode_utf8(segment).len(), 4) + encode_utf8(
        segment,
    ));
    lemma_byte_ranges();
    lemma_le_round_trip(sequence as nat, 8);
    lemma_le_round_trip(encode_utf8(segment).len(), 4);
    lemma_seal(inner);
    assert(encoded_manifest(sequence, segment)->Ok_0 == sealed(inner));
    lemma_changed_seal(inner, position, byte);
    lemma_changed_head(inner, position, byte, manifest_magic());
}

/// A stored point that a reader takes back: finite, and none of its text too long.
pub open spec fn readable_point(point: PointView) -> bool {
    &&& readable_text(point.id)
    &&& all_finite(point.vector)
    &&& readable_metadata(point.metadata)
}

proof fn lemma_stored_reads(
    bytes: Seq<u8>,
    at: int,
    dimension: usize,
    done: Seq<PointView>,
    point: PointView,
)
    requires
        readable_point(point),
        point.vector.len() == dimension,
        (encoded_stored())(point) is Ok,
        stands_at(bytes, at, (encoded_stored())(point)->Ok_0),
        bytes.len() <= usize::MAX,
    ensures
        (stored_step(bytes, dimension))(done, at) == Ok::<(PointView, int), ErrorView>(
            (point, at + (encoded_stored())(point)->Ok_0.len()),
        ),
{
    let id = text_bytes(point.id);
    let sequence = le(point.sequence as nat, 8);
    let vector = joined(point.vector, component_bytes());
    let metadata = encoded_metadata(point.metadata)->Ok_0;
    lemma_byte_ranges();
    assert((encoded_stored())(point)->Ok_0 == ((id + sequence) + vector) + metadata);
    lemma_stands_split(bytes, at, (id + sequence) + vector, metadata);
    lemma_stands_split(bytes, at, id + sequence, vector);
    lemma_stands_split(bytes, at, id, sequence);
    lemma_string_reads(bytes, at, point.id);
    lemma_number_stands(Format::Record, bytes, at + id.len(), point.sequence as nat, 8);
    lemma_components_read(bytes, at + id.len() + 8, point.vector);
    lemma_metadata_reads(bytes, at + id.len() + 8 + vector.len(), point.metadata);
}

/// A segment that a reader takes back.
pub open spec fn readable_segment(segment: SegmentView) -> bool {
    &&& 0 < segment.config.dimension <= MAX_ITEMS
    &&& segment.points.len() <= MAX_ITEMS
    &&& forall|i: int|
        0 <= i < segment.points.len() ==> readable_point(#[trigger] segment.points[i])
            && segment.points[i].vector.len() == segment.config.dimension
    &&& valid(segment.graph)
    &&& forall|i: int|
        0 <= i < segment.graph.nodes.len() ==> all_finite(
            (#[trigger] segment.graph.nodes[i]).vector,
        )
    &&& matched(segment) is Ok
}

proof fn lemma_contents_read(segment: SegmentView, body: Seq<u8>)
    requires
        readable_segment(segment),
        encoded_segment(segment) is Ok,
        body.len() <= usize::MAX,
        ({
            let points = all_encoded(segment.points, encoded_stored())->Ok_0;
            let graph = graph_bytes(segment.graph);
            body == le(segment.sequence as nat, 8) + le(segment.points.len(), 4) + points + (le(
                graph.len(),
                4,
            ) + graph)
        }),
    ensures
        parse_contents(body, segment.config) == Ok::<SegmentView, ErrorView>(segment),
{
    let sequence = le(segment.sequence as nat, 8);
    let count = le(segment.points.len(), 4);
    let encode = encoded_stored();
    let points = all_encoded(segment.points, encode)->Ok_0;
    let graph = graph_bytes(segment.graph);
    let length = le(graph.len(), 4);
    lemma_byte_ranges();
    lemma_le_round_trip(segment.sequence as nat, 8);
    lemma_le_round_trip(segment.points.len(), 4);
    assert(body.subrange(0, body.len() as int) =~= body);
    lemma_stands_split(body, 0, sequence + count + points, length + graph);
    lemma_stands_split(body, 0, sequence + count, points);
    lemma_stands_split(body, 0, sequence, count);
    lemma_number_stands(Format::Record, body, 0, segment.sequence as nat, 8);
    lemma_count_reads(body, 8, segment.points.len());
    lemma_all_encoded_joined(segment.points, encode);
    let step = stored_step(body, segment.config.dimension);
    let written = bytes_of(encode);
    assert forall|i: int, p: int|
        0 <= i < segment.points.len() && #[trigger] stands_at(
            body,
            p,
            written(segment.points[i]),
        ) implies step(segment.points.take(i), p) == Ok::<(PointView, int), ErrorView>(
        (segment.points[i], p + written(segment.points[i]).len()),
    ) by {
        assert(encode(segment.points[i]) is Ok);
        assert(readable_point(segment.points[i]));
        lemma_stored_reads(
            body,
            p,
            segment.config.dimension,
            segment.points.take(i),
            segment.points[i],
        );
    }
    lemma_repeated_round_trip(step, written, segment.points, body, 12);
    let at = 12 + points.len() as int;
    lemma_stands_split(body, at, length, graph);
    lemma_number_stands(Format::Record, body, at, graph.len(), 4);
    lemma_take_stands(Format::Record, body, at + 4, graph);
    assert(segment.graph.nodes.len() <= MAX_NODES);
    law_graph_round_trips(segment.graph);
    reveal(parse_contents);
}

/// Six bytes, eight bytes and the rest, found again under a seal.
proof fn lemma_sealed_parts(front: Seq<u8>, middle: Seq<u8>, rest: Seq<u8>)
    requires
        front.len() == 6,
        middle.len() == 8,
    ensures
        ({
            let bytes = sealed(front + middle + rest);
            &&& bytes.len() == 18 + rest.len()
            &&& seal_holds(bytes)
            &&& bytes.subrange(0, 4) == front.subrange(0, 4)
            &&& bytes[4] == front[4]
            &&& bytes[5] == front[5]
            &&& bytes.subrange(6, 14) == middle
            &&& bytes.subrange(14, bytes.len() - 4) == rest
        }),
{
    let inner = front + middle + rest;
    let bytes = sealed(inner);
    lemma_seal(inner);
    assert forall|i: int| 0 <= i < inner.len() implies bytes[i] == inner[i] by {
        assert(bytes.subrange(0, inner.len() as int)[i] == inner[i]);
    }
    assert(bytes.subrange(0, 4) =~= front.subrange(0, 4));
    assert(bytes.subrange(6, 14) =~= middle);
    assert(bytes.subrange(14, bytes.len() - 4) =~= rest);
}

proof fn lemma_regroup(a: Seq<u8>, b: Seq<u8>, c: Seq<u8>, d: Seq<u8>, e: Seq<u8>)
    ensures
        a + b + c + d + e == a + (b + c + d + e),
{
    assert(a + b + c + d + e =~= a + (b + c + d + e));
}

/// The bytes of a segment, part by part.
proof fn lemma_segment_bytes(segment: SegmentView)
    requires
        encoded_segment(segment) is Ok,
    ensures
        ({
            let points = all_encoded(segment.points, encoded_stored())->Ok_0;
            let graph = graph_bytes(segment.graph);
            let front = segment_magic() + seq![SEGMENT_VERSION, tag_of(segment.config.metric)];
            let rest = le(segment.sequence as nat, 8) + le(segment.points.len(), 4) + points + (le(
                graph.len(),
                4,
            ) + graph);
            encoded_segment(segment)->Ok_0 == sealed(
                front + le(segment.config.dimension as nat, 8) + rest,
            )
        }),
{
    let points = all_encoded(segment.points, encoded_stored())->Ok_0;
    let graph = graph_bytes(segment.graph);
    let front = segment_magic() + seq![SEGMENT_VERSION, tag_of(segment.config.metric)];
    lemma_regroup(
        front + le(segment.config.dimension as nat, 8),
        le(segment.sequence as nat, 8),
        le(segment.points.len(), 4),
        points,
        le(graph.len(), 4) + graph,
    );
}

/// A size is read back from its eight bytes.
proof fn lemma_size_value(size: usize)
    ensures
        le(size as nat, 8).len() == 8,
        le_value(le(size as nat, 8)) == size,
{
    lemma_byte_ranges();
    lemma_le_round_trip(size as nat, 8);
}

/// Settings in front of contents that can be read make a segment that can be read.
proof fn lemma_segment_read(
    bytes: Seq<u8>,
    segment: SegmentView,
    rest: Seq<u8>,
    middle: Seq<u8>,
)
    requires
        0 < segment.config.dimension <= MAX_ITEMS,
        bytes.len() >= 30,
        seal_holds(bytes),
        bytes.subrange(0, 4) == segment_magic(),
        bytes[4] == SEGMENT_VERSION,
        bytes[5] == tag_of(segment.config.metric),
        bytes.subrange(6, 14) == middle,
        le_value(middle) == segment.config.dimension,
        bytes.subrange(14, bytes.len() - 4) == rest,
        parse_contents(rest, segment.config) == Ok::<SegmentView, ErrorView>(segment),
    ensures
        parse_segment(bytes) == Ok::<SegmentView, ErrorView>(segment),
{
    assert(parse_record_tag(bytes[5] as nat) == Ok::<Metric, ErrorView>(segment.config.metric));
}

/// A segment is read back as it was written: settings, sequence, points and graph.
pub proof fn law_segment_survives(segment: SegmentView)
    requires
        readable_segment(segment),
        encoded_segment(segment) is Ok,
        encoded_segment(segment)->Ok_0.len() <= usize::MAX,
    ensures
        parse_segment(encoded_segment(segment)->Ok_0) == Ok::<SegmentView, ErrorView>(segment),
{
    let points = all_encoded(segment.points, encoded_stored())->Ok_0;
    let graph = graph_bytes(segment.graph);
    let front = segment_magic() + seq![SEGMENT_VERSION, tag_of(segment.config.metric)];
    let middle = le(segment.config.dimension as nat, 8);
    let rest = le(segment.sequence as nat, 8) + le(segment.points.len(), 4) + points + (le(
        graph.len(),
        4,
    ) + graph);
    lemma_segment_bytes(segment);
    lemma_size_value(segment.config.dimension);
    lemma_le_round_trip(segment.sequence as nat, 8);
    lemma_le_round_trip(segment.points.len(), 4);
    lemma_sealed_parts(front, middle, rest);
    lemma_contents_read(segment, rest);
    assert(front.subrange(0, 4) =~= segment_magic());
    lemma_segment_read(encoded_segment(segment)->Ok_0, segment, rest, middle);
}

/// A segment of which any byte was changed is refused.
pub proof fn law_changed_segment_is_refused(segment: SegmentView, position: int, byte: u8)
    requires
        encoded_segment(segment) is Ok,
        0 <= position < encoded_segment(segment)->Ok_0.len(),
        byte != encoded_segment(segment)->Ok_0[position],
    ensures
        parse_segment(encoded_segment(segment)->Ok_0.update(position, byte)) == damage_told::<
            SegmentView,
        >(position, "invalid segment header"@, "segment checksum mismatch"@),
{
    let points = all_encoded(segment.points, encoded_stored())->Ok_0;
    let graph = graph_bytes(segment.graph);
    let front = segment_magic() + seq![SEGMENT_VERSION, tag_of(segment.config.metric)];
    let middle = le(segment.config.dimension as nat, 8);
    let rest = le(segment.sequence as nat, 8) + le(segment.points.len(), 4) + points + (le(
        graph.len(),
        4,
    ) + graph);
    let inner = front + middle + rest;
    lemma_byte_ranges();
    lemma_segment_bytes(segment);
    lemma_size_value(segment.config.dimension);
    lemma_le_round_trip(segment.sequence as nat, 8);
    lemma_le_round_trip(segment.points.len(), 4);
    lemma_le_round_trip(graph.len(), 4);
    lemma_seal(inner);
    lemma_changed_seal(inner, position, byte);
    lemma_changed_head(inner, position, byte, segment_magic());
}

/// A commit of a collection: points in their stored form, or IDs to delete.
pub enum Mutation {
    Write(Seq<PointView>),
    Remove(Seq<Seq<char>>),
}

/// What a commit makes of a collection.
pub open spec fn mutated(c: CollectionView, mutation: Mutation) -> CollectionView {
    CollectionView {
        config: c.config,
        points: match mutation {
            Mutation::Write(points) => with_points(c.points, points),
            Mutation::Remove(ids) => without_points(c.points, ids),
        },
        sequence: (c.sequence + 1) as u64,
    }
}

/// The IDs that a commit touches.
pub open spec fn touched(mutation: Mutation) -> Seq<Seq<char>> {
    match mutation {
        Mutation::Write(points) => written_ids(points),
        Mutation::Remove(ids) => ids,
    }
}

/// The record of a commit.
pub open spec fn record_of(c: CollectionView, mutation: Mutation) -> Encoded {
    let sequence = (c.sequence + 1) as u64;
    match mutation {
        Mutation::Write(points) => encoded_upsert(sequence, points),
        Mutation::Remove(ids) => encoded_delete(sequence, ids),
    }
}

/// A commit that a persistent collection logs: its record is not too large for a
/// reader, and a reader can prepare its vectors again.
pub open spec fn loggable(c: CollectionView, mutation: Mutation) -> bool {
    &&& c.sequence < u64::MAX
    &&& framed(record_of(c, mutation)) is Ok
    &&& match mutation {
        Mutation::Write(points) => {
            &&& points.len() > 0
            &&& forall|i: int|
                0 <= i < points.len() ==> {
                    &&& sound(c.config, #[trigger] points[i])
                    &&& points[i].sequence == c.sequence + 1
                    &&& takes_back(c.config, points[i].vector)
                }
        },
        Mutation::Remove(ids) => ids.len() > 0,
    }
}

/// A stored point as a reader of the log has it: its vector is prepared once more.
pub open spec fn restated_point<K: Kernel>(
    kernel: K,
    metric: Metric,
    point: PointView,
) -> PointView {
    PointView { vector: prepared(kernel, metric, point.vector)->Ok_0, ..point }
}

/// Stored points as a reader of the log has them.
pub open spec fn restated_points<K: Kernel>(
    kernel: K,
    metric: Metric,
    points: Seq<PointView>,
) -> Seq<PointView> {
    Seq::new(points.len(), |i: int| restated_point(kernel, metric, points[i]))
}

/// A commit as a reader of the log has it.
pub open spec fn restated<K: Kernel>(kernel: K, metric: Metric, mutation: Mutation) -> Mutation {
    match mutation {
        Mutation::Write(points) => Mutation::Write(restated_points(kernel, metric, points)),
        Mutation::Remove(ids) => mutation,
    }
}

/// Commits as a reader of the log has them.
pub open spec fn restated_all<K: Kernel>(
    kernel: K,
    metric: Metric,
    mutations: Seq<Mutation>,
) -> Seq<Mutation> {
    Seq::new(mutations.len(), |i: int| restated(kernel, metric, mutations[i]))
}

/// Two collections that differ at most in that vectors of the second have been
/// prepared once more: the same commits, the same live IDs, and for each of them the
/// same metadata and sequence.
pub open spec fn alike<K: Kernel>(kernel: K, a: CollectionView, b: CollectionView) -> bool {
    &&& a.config == b.config
    &&& a.sequence == b.sequence
    &&& forall|id: Seq<char>| #[trigger]
        a.points.contains_key(id) == b.points.contains_key(id)
    &&& forall|id: Seq<char>| #[trigger]
        a.points.contains_key(id) ==> b.points[id] == a.points[id] || b.points[id]
            == restated_point(kernel, a.config.metric, a.points[id])
}

/// The points of a batch as a reader has them before it prepares them.
pub open spec fn unprepared(points: Seq<PointView>) -> Seq<UpsertView> {
    Seq::new(
        points.len(),
        |i: int|
            UpsertView {
                id: points[i].id,
                vector: points[i].vector,
                metadata: points[i].metadata,
            },
    )
}

/// Points read back are prepared once more.
proof fn lemma_restated_points<K: Kernel>(
    kernel: K,
    config: CollectionConfig,
    points: Seq<PointView>,
    sequence: u64,
)
    requires
        forall|i: int|
            0 <= i < points.len() ==> {
                &&& sound(config, #[trigger] points[i])
                &&& points[i].sequence == sequence
                &&& takes_back(config, points[i].vector)
            },
    ensures
        prepared_points(kernel, config, unprepared(points), sequence) == Ok::<
            Seq<PointView>,
            ErrorView,
        >(restated_points(kernel, config.metric, points)),
    decreases points.len(),
{
    let raw = unprepared(points);
    let all = restated_points(kernel, config.metric, points);
    if points.len() == 0 {
        assert(all =~= Seq::empty());
    } else {
        let rest = points.drop_last();
        let last = points.len() - 1;
        assert forall|i: int| 0 <= i < rest.len() implies {
            &&& sound(config, #[trigger] rest[i])
            &&& rest[i].sequence == sequence
            &&& takes_back(config, rest[i].vector)
        } by {
            assert(sound(config, points[i]));
        }
        lemma_restated_points(kernel, config, rest, sequence);
        assert(raw.drop_last() =~= unprepared(rest));
        assert(sound(config, points[last]));
        assert(prepared_point(kernel, config, raw.last(), sequence) == Ok::<PointView, ErrorView>(
            all[last],
        ));
        assert(all =~= restated_points(kernel, config.metric, rest).push(all[last]));
    }
}

/// Metadata that can be written is read back.
proof fn lemma_encoded_metadata_readable(metadata: Entries)
    requires
        ascending(metadata),
        encoded_metadata(metadata) is Ok,
    ensures
        readable_metadata(metadata),
{
    lemma_all_encoded_joined(metadata, encoded_entry());
    assert forall|i: int| 0 <= i < metadata.len() implies readable_text((#[trigger] metadata[i]).0)
        && readable_value(metadata[i].1) by {
        assert((encoded_entry())(metadata[i]) is Ok);
    }
}

/// Points that can be logged are read back.
proof fn lemma_logged_readable(points: Seq<PointView>)
    requires
        forall|i: int| 0 <= i < points.len() ==> ascending((#[trigger] points[i]).metadata),
        all_encoded(points, encoded_point()) is Ok,
    ensures
        forall|i: int|
            0 <= i < points.len() ==> readable_point(#[trigger] points[i])
                && points[i].vector.len() <= MAX_ITEMS,
{
    lemma_all_encoded_joined(points, encoded_point());
    assert forall|i: int| 0 <= i < points.len() implies readable_point(#[trigger] points[i])
        && points[i].vector.len() <= MAX_ITEMS by {
        assert((encoded_point())(points[i]) is Ok);
        lemma_encoded_metadata_readable(points[i].metadata);
    }
}

/// Points that can be stored are read back.
pub(crate) proof fn lemma_stored_readable(points: Seq<PointView>)
    requires
        forall|i: int| 0 <= i < points.len() ==> ascending((#[trigger] points[i]).metadata),
        all_encoded(points, encoded_stored()) is Ok,
    ensures
        forall|i: int| 0 <= i < points.len() ==> readable_point(#[trigger] points[i]),
{
    lemma_all_encoded_joined(points, encoded_stored());
    assert forall|i: int| 0 <= i < points.len() implies readable_point(#[trigger] points[i]) by {
        assert((encoded_stored())(points[i]) is Ok);
        lemma_encoded_metadata_readable(points[i].metadata);
    }
}

proof fn lemma_point_reads(
    bytes: Seq<u8>,
    at: int,
    dimension: usize,
    done: Seq<UpsertView>,
    point: PointView,
)
    requires
        readable_point(point),
        point.vector.len() == dimension,
        dimension <= MAX_ITEMS,
        (encoded_point())(point) is Ok,
        stands_at(bytes, at, (encoded_point())(point)->Ok_0),
        bytes.len() <= usize::MAX,
    ensures
        (point_step(bytes, dimension))(done, at) == Ok::<(UpsertView, int), ErrorView>(
            (
                UpsertView { id: point.id, vector: point.vector, metadata: point.metadata },
                at + (encoded_point())(point)->Ok_0.len(),
            ),
        ),
{
    let id = text_bytes(point.id);
    let count = le(point.vector.len(), 4);
    let vector = joined(point.vector, component_bytes());
    let metadata = encoded_metadata(point.metadata)->Ok_0;
    assert((encoded_point())(point)->Ok_0 == ((id + count) + vector) + metadata);
    lemma_stands_split(bytes, at, (id + count) + vector, metadata);
    lemma_stands_split(bytes, at, id + count, vector);
    lemma_stands_split(bytes, at, id, count);
    lemma_string_reads(bytes, at, point.id);
    lemma_count_reads(bytes, at + id.len(), point.vector.len());
    lemma_components_read(bytes, at + id.len() + 4, point.vector);
    lemma_metadata_reads(bytes, at + id.len() + 4 + vector.len(), point.metadata);
}

/// Values that are read back under another form.
proof fn lemma_points_read(
    bytes: Seq<u8>,
    at: int,
    dimension: usize,
    points: Seq<PointView>,
)
    requires
        forall|i: int|
            0 <= i < points.len() ==> readable_point(#[trigger] points[i])
                && points[i].vector.len() == dimension,
        dimension <= MAX_ITEMS,
        all_encoded(points, encoded_point()) is Ok,
        stands_at(bytes, at, all_encoded(points, encoded_point())->Ok_0),
        bytes.len() <= usize::MAX,
    ensures
        repeated(point_step(bytes, dimension), at, points.len()) == Ok::<
            (Seq<UpsertView>, int),
            ErrorView,
        >((unprepared(points), at + all_encoded(points, encoded_point())->Ok_0.len())),
    decreases points.len(),
{
    let encode = encoded_point();
    let raw = unprepared(points);
    if points.len() == 0 {
        assert(raw =~= Seq::empty());
    } else {
        let rest = points.drop_last();
        let last = points.last();
        let front = all_encoded(rest, encode)->Ok_0;
        let back = encode(last)->Ok_0;
        lemma_stands_split(bytes, at, front, back);
        assert forall|i: int| 0 <= i < rest.len() implies readable_point(#[trigger] rest[i])
            && rest[i].vector.len() == dimension by {
            assert(readable_point(points[i]));
        }
        lemma_points_read(bytes, at, dimension, rest);
        assert(readable_point(points[points.len() - 1]));
        lemma_point_reads(bytes, at + front.len(), dimension, unprepared(rest), last);
        assert(raw =~= unprepared(rest).push(
            UpsertView { id: last.id, vector: last.vector, metadata: last.metadata },
        ));
    }
}

/// The front of a record: the operation and the sequence.
pub(crate) proof fn lemma_record_front(payload: Seq<u8>, operation: u8, sequence: u64, rest: Seq<u8>)
    requires
        payload == (seq![operation] + le(sequence as nat, 8)) + rest,
        payload.len() <= usize::MAX,
    ensures
        crate::bytes::number(Format::Record, payload, 0, 1) == Ok::<(nat, int), ErrorView>(
            (operation as nat, 1),
        ),
        crate::bytes::number(Format::Record, payload, 1, 8) == Ok::<(nat, int), ErrorView>(
            (sequence as nat, 9),
        ),
        stands_at(payload, 9, rest),
{
    let front = seq![operation];
    let number_part = le(sequence as nat, 8);
    lemma_byte_ranges();
    lemma_le_round_trip(sequence as nat, 8);
    assert(payload.subrange(0, payload.len() as int) =~= payload);
    lemma_stands_split(payload, 0, front + number_part, rest);
    lemma_stands_split(payload, 0, front, number_part);
    lemma_byte_stands(Format::Record, payload, 0, operation);
    lemma_number_stands(Format::Record, payload, 1, sequence as nat, 8);
}

/// What a logged commit wrote is what reading its record back does, but for one
/// thing: the reader prepares the stored vectors once more.
pub proof fn law_logged_commit_is_replayed<K: Kernel>(
    kernel: K,
    c: CollectionView,
    mutation: Mutation,
)
    requires
        loggable(c, mutation),
    ensures
        replayed(kernel, c, record_of(c, mutation)->Ok_0) == Ok::<Replay, ErrorView>(
            Replay {
                collection: mutated(c, restated(kernel, c.config.metric, mutation)),
                changed: touched(mutation),
            },
        ),
{
    let payload = record_of(c, mutation)->Ok_0;
    let sequence = (c.sequence + 1) as u64;
    match mutation {
        Mutation::Write(points) => {
            let count = le(points.len(), 4);
            let body = all_encoded(points, encoded_point())->Ok_0;
            let front = seq![1u8] + le(sequence as nat, 8);
            assert(payload == (front + count) + body);
            assert((front + count) + body =~= front + (count + body));
            lemma_record_front(payload, 1, sequence, count + body);
            lemma_stands_split(payload, 9, count, body);
            lemma_count_reads(payload, 9, points.len());
            assert forall|i: int| 0 <= i < points.len() implies ascending(
                (#[trigger] points[i]).metadata,
            ) by {
                assert(sound(c.config, points[i]));
            }
            lemma_logged_readable(points);
            assert forall|i: int| 0 <= i < points.len() implies readable_point(#[trigger] points[i])
                && points[i].vector.len() == c.config.dimension by {
                assert(sound(c.config, points[i]));
            }
            assert(sound(c.config, points[0]));
            assert(readable_point(points[0]));
            lemma_points_read(payload, 13, c.config.dimension, points);
            lemma_le_round_trip(sequence as nat, 8);
            lemma_restated_points(kernel, c.config, points, sequence);
            assert(ids_of(unprepared(points)) =~= written_ids(points));
        },
        Mutation::Remove(ids) => {
            let count = le(ids.len(), 4);
            let encode = encoded_id();
            let body = all_encoded(ids, encode)->Ok_0;
            let front = seq![2u8] + le(sequence as nat, 8);
            assert(payload == (front + count) + body);
            assert((front + count) + body =~= front + (count + body));
            lemma_record_front(payload, 2, sequence, count + body);
            lemma_stands_split(payload, 9, count, body);
            lemma_count_reads(payload, 9, ids.len());
            lemma_le_round_trip(sequence as nat, 8);
            lemma_all_encoded_joined(ids, encode);
            let step = id_step(payload);
            let written = bytes_of(encode);
            assert forall|i: int, p: int|
                0 <= i < ids.len() && #[trigger] stands_at(
                    payload,
                    p,
                    written(ids[i]),
                ) implies step(ids.take(i), p) == Ok::<(Seq<char>, int), ErrorView>(
                (ids[i], p + written(ids[i]).len()),
            ) by {
                assert(encode(ids[i]) is Ok);
                assert(readable_text(ids[i]));
                assert(written(ids[i]) == text_bytes(ids[i]));
                lemma_string_reads(payload, p, ids[i]);
            }
            lemma_repeated_round_trip(step, written, ids, payload, 13);
        },
    }
}

/// A record that a collection already holds changes nothing when it is read
/// again, as after a crash between publishing a segment and emptying the log.
pub proof fn law_old_records_are_ignored<K: Kernel>(
    kernel: K,
    c: CollectionView,
    payload: Seq<u8>,
    operation: nat,
    sequence: nat,
)
    requires
        crate::bytes::number(Format::Record, payload, 0, 1) == Ok::<(nat, int), ErrorView>(
            (operation, 1),
        ),
        crate::bytes::number(Format::Record, payload, 1, 8) == Ok::<(nat, int), ErrorView>(
            (sequence, 9),
        ),
        sequence <= c.sequence,
    ensures
        replayed(kernel, c, payload) == Ok::<Replay, ErrorView>(
            Replay { collection: c, changed: seq![] },
        ),
{
}

/// A whole frame in a log is applied, and the reader goes on behind it.
pub(crate) proof fn lemma_whole_frame<K: Kernel>(
    kernel: K,
    c: CollectionView,
    dirty: Set<Seq<char>>,
    log: Seq<u8>,
    at: int,
    payload: Seq<u8>,
)
    requires
        payload.len() <= MAX_FRAME_BYTES,
        stands_at(log, at, frame(payload)),
        replayed(kernel, c, payload) is Ok,
    ensures
        frame(payload).len() == payload.len() + 12,
        recovered(kernel, c, dirty, log, at) == recovered(
            kernel,
            replayed(kernel, c, payload)->Ok_0.collection,
            dirty.union(replayed(kernel, c, payload)->Ok_0.changed.to_set()),
            log,
            at + frame(payload).len(),
        ),
{
    let magic = wal_magic();
    let length = le(payload.len(), 4);
    let seal = le(checksum(payload) as nat, 4);
    lemma_byte_ranges();
    lemma_le_round_trip(payload.len(), 4);
    lemma_le_round_trip(checksum(payload) as nat, 4);
    lemma_stands_split(log, at, magic + length + payload, seal);
    lemma_stands_split(log, at, magic + length, payload);
    lemma_stands_split(log, at, magic, length);
}

/// The front of a frame.
proof fn lemma_frame_front(payload: Seq<u8>)
    requires
        payload.len() <= MAX_FRAME_BYTES,
    ensures
        frame(payload).len() == payload.len() + 12,
        frame(payload).subrange(0, 4) == wal_magic(),
        frame(payload).subrange(4, 8) == le(payload.len(), 4),
        le_value(le(payload.len(), 4)) == payload.len(),
{
    lemma_byte_ranges();
    lemma_le_round_trip(payload.len(), 4);
    lemma_le_round_trip(checksum(payload) as nat, 4);
    assert(frame(payload).subrange(0, 4) =~= wal_magic());
    assert(frame(payload).subrange(4, 8) =~= le(payload.len(), 4));
}

/// An incomplete frame at the end of a log ends the reading where it begins.
pub(crate) proof fn lemma_torn_frame<K: Kernel>(
    kernel: K,
    c: CollectionView,
    dirty: Set<Seq<char>>,
    log: Seq<u8>,
    at: int,
    payload: Seq<u8>,
)
    requires
        0 <= at <= log.len(),
        payload.len() <= MAX_FRAME_BYTES,
        log.len() - at < frame(payload).len(),
        log.subrange(at, log.len() as int) == frame(payload).subrange(0, log.len() - at),
    ensures
        recovered(kernel, c, dirty, log, at) == Ok::<Recovery, ErrorView>(
            Recovery { collection: c, dirty, valid_length: at },
        ),
{
    let whole = frame(payload);
    let rest = log.len() - at;
    lemma_frame_front(payload);
    if rest >= 8 {
        assert forall|i: int| 0 <= i < 8 implies log[at + i] == whole[i] by {
            assert(log.subrange(at, log.len() as int)[i] == whole.subrange(0, rest)[i]);
        }
        assert(log.subrange(at, at + 4) =~= whole.subrange(0, 4));
        assert(log.subrange(at + 4, at + 8) =~= whole.subrange(4, 8));
    }
}

/// The collection after commits in a row.
pub open spec fn history(c: CollectionView, mutations: Seq<Mutation>) -> CollectionView
    decreases mutations.len(),
{
    if mutations.len() == 0 {
        c
    } else {
        mutated(history(c, mutations.drop_last()), mutations.last())
    }
}

/// The IDs touched by commits in a row.
pub open spec fn history_ids(dirty: Set<Seq<char>>, mutations: Seq<Mutation>) -> Set<Seq<char>>
    decreases mutations.len(),
{
    if mutations.len() == 0 {
        dirty
    } else {
        history_ids(dirty, mutations.drop_last()).union(touched(mutations.last()).to_set())
    }
}

/// The log of commits in a row.
pub open spec fn history_log(c: CollectionView, mutations: Seq<Mutation>) -> Seq<u8>
    decreases mutations.len(),
{
    if mutations.len() == 0 {
        seq![]
    } else {
        let before = history(c, mutations.drop_last());
        history_log(c, mutations.drop_last()) + frame(
            record_of(before, mutations.last())->Ok_0,
        )
    }
}

/// Every commit of a row can be logged in its turn.
pub open spec fn all_loggable(c: CollectionView, mutations: Seq<Mutation>) -> bool
    decreases mutations.len(),
{
    mutations.len() > 0 ==> {
        &&& all_loggable(c, mutations.drop_last())
        &&& loggable(history(c, mutations.drop_last()), mutations.last())
    }
}

proof fn lemma_with_restated<K: Kernel>(
    kernel: K,
    metric: Metric,
    a: Map<Seq<char>, PointView>,
    b: Map<Seq<char>, PointView>,
    points: Seq<PointView>,
)
    requires
        forall|id: Seq<char>| #[trigger] a.contains_key(id) == b.contains_key(id),
        forall|id: Seq<char>| #[trigger]
            a.contains_key(id) ==> b[id] == a[id] || b[id] == restated_point(
                kernel,
                metric,
                a[id],
            ),
    ensures
        ({
            let x = with_points(a, points);
            let y = with_points(b, restated_points(kernel, metric, points));
            &&& forall|id: Seq<char>| #[trigger] x.contains_key(id) == y.contains_key(id)
            &&& forall|id: Seq<char>| #[trigger]
                x.contains_key(id) ==> y[id] == x[id] || y[id] == restated_point(
                    kernel,
                    metric,
                    x[id],
                )
        }),
    decreases points.len(),
{
    if points.len() > 0 {
        let rest = points.drop_last();
        let all = restated_points(kernel, metric, points);
        lemma_with_restated(kernel, metric, a, b, rest);
        assert(all.drop_last() =~= restated_points(kernel, metric, rest));
        let x = with_points(a, points);
        let y = with_points(b, all);
        let front = with_points(a, rest);
        assert forall|id: Seq<char>| #[trigger] x.contains_key(id) == y.contains_key(id) by {
            assert(front.contains_key(id) == with_points(
                b,
                restated_points(kernel, metric, rest),
            ).contains_key(id));
        }
        assert forall|id: Seq<char>| #[trigger] x.contains_key(id) implies y[id] == x[id] || y[id]
            == restated_point(kernel, metric, x[id]) by {
            if id != points.last().id {
                assert(front.contains_key(id));
            }
        }
    }
}

proof fn lemma_without_alike<K: Kernel>(
    kernel: K,
    metric: Metric,
    a: Map<Seq<char>, PointView>,
    b: Map<Seq<char>, PointView>,
    ids: Seq<Seq<char>>,
)
    requires
        forall|id: Seq<char>| #[trigger] a.contains_key(id) == b.contains_key(id),
        forall|id: Seq<char>| #[trigger]
            a.contains_key(id) ==> b[id] == a[id] || b[id] == restated_point(
                kernel,
                metric,
                a[id],
            ),
    ensures
        ({
            let x = without_points(a, ids);
            let y = without_points(b, ids);
            &&& forall|id: Seq<char>| #[trigger] x.contains_key(id) == y.contains_key(id)
            &&& forall|id: Seq<char>| #[trigger]
                x.contains_key(id) ==> y[id] == x[id] || y[id] == restated_point(
                    kernel,
                    metric,
                    x[id],
                )
        }),
    decreases ids.len(),
{
    if ids.len() > 0 {
        let rest = ids.drop_last();
        lemma_without_alike(kernel, metric, a, b, rest);
        let x = without_points(a, ids);
        let y = without_points(b, ids);
        let front = without_points(a, rest);
        assert forall|id: Seq<char>| #[trigger] x.contains_key(id) == y.contains_key(id) by {
            assert(front.contains_key(id) == without_points(b, rest).contains_key(id));
        }
        assert forall|id: Seq<char>| #[trigger] x.contains_key(id) implies y[id] == x[id] || y[id]
            == restated_point(kernel, metric, x[id]) by {
            assert(front.contains_key(id));
        }
    }
}

/// A collection read back from its log is the one that was committed, but that the
/// vectors of the commits are prepared once more: the same sequence, the same live IDs,
/// and for each the same metadata and sequence. Where vectors are stored as they are,
/// nothing differs.
pub proof fn law_restated_history_is_alike<K: Kernel>(
    kernel: K,
    c: CollectionView,
    mutations: Seq<Mutation>,
)
    requires
        all_loggable(c, mutations),
    ensures
        alike(
            kernel,
            history(c, mutations),
            history(c, restated_all(kernel, c.config.metric, mutations)),
        ),
        c.config.metric != Metric::Cosine ==> history(
            c,
            restated_all(kernel, c.config.metric, mutations),
        ) == history(c, mutations),
        history(c, mutations).config == c.config,
    decreases mutations.len(),
{
    let metric = c.config.metric;
    if mutations.len() > 0 {
        let rest = mutations.drop_last();
        let all = restated_all(kernel, metric, mutations);
        let last = mutations.last();
        law_restated_history_is_alike(kernel, c, rest);
        assert(all.drop_last() =~= restated_all(kernel, metric, rest));
        let a = history(c, rest);
        let b = history(c, restated_all(kernel, metric, rest));
        match last {
            Mutation::Write(points) => {
                lemma_with_restated(kernel, metric, a.points, b.points, points);
                if metric != Metric::Cosine {
                    let same = restated_points(kernel, metric, points);
                    assert forall|i: int| 0 <= i < points.len() implies same[i] == points[i] by {
                        assert(sound(a.config, points[i]));
                        assert(takes_back(a.config, points[i].vector));
                    }
                    assert(same =~= points);
                }
            },
            Mutation::Remove(ids) => {
                lemma_without_alike(kernel, metric, a.points, b.points, ids);
            },
        }
    }
}

/// Reading a log that begins with the frames of commits comes to where they end.
pub(crate) proof fn lemma_history_read<K: Kernel>(
    kernel: K,
    c: CollectionView,
    dirty: Set<Seq<char>>,
    mutations: Seq<Mutation>,
    log: Seq<u8>,
    at: int,
)
    requires
        all_loggable(c, mutations),
        0 <= at,
        stands_at(log, at, history_log(c, mutations)),
    ensures
        recovered(kernel, c, dirty, log, at) == recovered(
            kernel,
            history(c, restated_all(kernel, c.config.metric, mutations)),
            history_ids(dirty, mutations),
            log,
            at + history_log(c, mutations).len(),
        ),
    decreases mutations.len(),
{
    let metric = c.config.metric;
    if mutations.len() > 0 {
        let rest = mutations.drop_last();
        let last = mutations.last();
        let before = history(c, rest);
        let read = history(c, restated_all(kernel, metric, rest));
        let payload = record_of(before, last)->Ok_0;
        let front = history_log(c, rest);
        lemma_stands_split(log, at, front, frame(payload));
        lemma_history_read(kernel, c, dirty, rest, log, at);
        law_restated_history_is_alike(kernel, c, rest);
        assert(loggable(read, last));
        law_logged_commit_is_replayed(kernel, read, last);
        lemma_whole_frame(
            kernel,
            read,
            history_ids(dirty, rest),
            log,
            at + front.len(),
            payload,
        );
        assert(restated_all(kernel, metric, mutations).drop_last() =~= restated_all(
            kernel,
            metric,
            rest,
        ));
    } else {
        assert(restated_all(kernel, metric, mutations) =~= mutations);
    }
}

/// Committed mutations survive a restart, whatever became of the last one: a log
/// that holds the frames of commits, and behind them any part of one more frame,
/// restores the collection as the whole commits left it, but that their vectors are
/// prepared once more, and the part behind them is cut off. So a log cut at any byte
/// recovers to a commit boundary.
pub proof fn law_committed_mutations_survive<K: Kernel>(
    kernel: K,
    c: CollectionView,
    dirty: Set<Seq<char>>,
    mutations: Seq<Mutation>,
    payload: Seq<u8>,
    cut: int,
)
    requires
        all_loggable(c, mutations),
        payload.len() <= MAX_FRAME_BYTES,
        0 <= cut < frame(payload).len(),
    ensures
        ({
            let log = history_log(c, mutations) + frame(payload).subrange(0, cut);
            let after = history(c, restated_all(kernel, c.config.metric, mutations));
            &&& recovered(kernel, c, dirty, log, 0) == Ok::<Recovery, ErrorView>(
                Recovery {
                    collection: after,
                    dirty: history_ids(dirty, mutations),
                    valid_length: history_log(c, mutations).len() as int,
                },
            )
            &&& alike(kernel, history(c, mutations), after)
        }),
{
    let whole = history_log(c, mutations);
    let torn = frame(payload).subrange(0, cut);
    let log = whole + torn;
    assert(log.subrange(0, whole.len() as int) =~= whole);
    lemma_history_read(kernel, c, dirty, mutations, log, 0);
    law_restated_history_is_alike(kernel, c, mutations);
    assert(log.subrange(whole.len() as int, log.len() as int) =~= torn);
    lemma_torn_frame(
        kernel,
        history(c, restated_all(kernel, c.config.metric, mutations)),
        history_ids(dirty, mutations),
        log,
        whole.len() as int,
        payload,
    );
}

/// A frame with a changed byte, in its magic, its payload or its checksum, is noticed.
proof fn lemma_changed_frame<K: Kernel>(
    kernel: K,
    c: CollectionView,
    dirty: Set<Seq<char>>,
    log: Seq<u8>,
    at: int,
    payload: Seq<u8>,
    position: int,
    byte: u8,
)
    requires
        payload.len() <= MAX_FRAME_BYTES,
        0 <= position < 4 || 8 <= position < frame(payload).len(),
        byte != frame(payload)[position],
        0 <= at,
        stands_at(log, at, frame(payload).update(position, byte)),
    ensures
        recovered(kernel, c, dirty, log, at) == frame_refused(at as nat, position),
{
    let whole = frame(payload);
    let changed = whole.update(position, byte);
    let sum = le(checksum(payload) as nat, 4);
    let end = 8 + payload.len() as int;
    lemma_frame_front(payload);
    lemma_byte_ranges();
    lemma_le_round_trip(checksum(payload) as nat, 4);
    assert forall|i: int| 0 <= i < changed.len() implies log[at + i] == changed[i] by {
        assert(log.subrange(at, at + changed.len())[i] == changed[i]);
    }
    if position < 4 {
        assert(log.subrange(at, at + 4)[position] == byte);
        assert(whole.subrange(0, 4)[position] != byte);
    } else {
        let read = log.subrange(at + 8, at + end);
        let stored = log.subrange(at + end, at + end + 4);
        assert(log.subrange(at, at + 4) =~= whole.subrange(0, 4));
        let length = log.subrange(at + 4, at + 8);
        assert forall|i: int| 0 <= i < 4 implies length[i] == whole.subrange(4, 8)[i] by {
            assert(log[at + (4 + i)] == changed[4 + i]);
        }
        assert(length =~= whole.subrange(4, 8));
        assert forall|i: int| 0 <= i < payload.len() implies read[i] == changed[8 + i] by {
            assert(log[at + (8 + i)] == changed[8 + i]);
        }
        assert forall|i: int| 0 <= i < 4 implies stored[i] == changed[end + i] by {
            assert(log[at + (end + i)] == changed[end + i]);
        }
        if position < end {
            assert(read =~= payload.update(position - 8, byte));
            assert(stored =~= sum);
            law_checksum_exposes_a_changed_byte(payload, position - 8, byte);
        } else {
            assert(read =~= payload);
            assert(stored[position - end] != sum[position - end]);
            lemma_le_value_round_trip(stored);
        }
    }
}

/// What is said of a frame at `at` of which the byte at `position` was changed.
pub open spec fn frame_refused(at: nat, position: int) -> core::result::Result<Recovery, ErrorView> {
    if position < 4 {
        corrupt("invalid WAL magic at byte "@ + decimal(at))
    } else {
        corrupt("WAL checksum mismatch at byte "@ + decimal(at))
    }
}

/// A changed byte in the log is not passed over: where a byte of the magic, of the
/// payload or of the checksum of a frame was changed, reading stops there with an error
/// that says where, whatever was committed before it and whatever stands behind it. (A
/// changed length is another matter: it can make a whole frame look torn.)
pub proof fn law_changed_frame_is_damage<K: Kernel>(
    kernel: K,
    c: CollectionView,
    dirty: Set<Seq<char>>,
    mutations: Seq<Mutation>,
    payload: Seq<u8>,
    behind: Seq<u8>,
    position: int,
    byte: u8,
)
    requires
        all_loggable(c, mutations),
        payload.len() <= MAX_FRAME_BYTES,
        0 <= position < 4 || 8 <= position < frame(payload).len(),
        byte != frame(payload)[position],
    ensures
        recovered(
            kernel,
            c,
            dirty,
            history_log(c, mutations) + frame(payload).update(position, byte) + behind,
            0,
        ) == frame_refused(history_log(c, mutations).len(), position),
{
    let front = history_log(c, mutations);
    let changed = frame(payload).update(position, byte);
    let log = front + changed + behind;
    assert(log.subrange(0, front.len() as int) =~= front);
    assert(log.subrange(front.len() as int, (front.len() + changed.len()) as int) =~= changed);
    lemma_history_read(kernel, c, dirty, mutations, log, 0);
    lemma_changed_frame(
        kernel,
        history(c, restated_all(kernel, c.config.metric, mutations)),
        history_ids(dirty, mutations),
        log,
        front.len() as int,
        payload,
        position,
        byte,
    );
}

/// What a persistent collection logs for a batch is the frame of the commit, what it
/// does is the commit, and a reader takes it back: so the laws of the log are laws of
/// all its commits.
pub proof fn law_upserts_are_logged_commits<K: Kernel>(
    kernel: K,
    v: PersistedView,
    batch: Seq<UpsertView>,
)
    requires
        upsert_commit(kernel, v, batch) is Ok,
        forall|i: int| 0 <= i < batch.len() ==> ascending((#[trigger] batch[i]).metadata),
    ensures
        ({
            let commit = upsert_commit(kernel, v, batch)->Ok_0;
            let sequence = (v.collection.sequence + 1) as u64;
            let mutation = Mutation::Write(
                prepared_batch(kernel, v.collection.config, batch, sequence)->Ok_0,
            );
            &&& loggable(v.collection, mutation)
            &&& commit.frame == frame(record_of(v.collection, mutation)->Ok_0)
            &&& commit.after.collection == mutated(v.collection, mutation)
            &&& commit.after.dirty == v.dirty.union(touched(mutation).to_set())
        }),
{
    let c = v.collection;
    let sequence = (c.sequence + 1) as u64;
    let points = prepared_batch(kernel, c.config, batch, sequence)->Ok_0;
    lemma_prepared_each(kernel, c.config, batch, sequence);
    assert forall|i: int| 0 <= i < points.len() implies {
        &&& sound(c.config, #[trigger] points[i])
        &&& points[i].sequence == c.sequence + 1
        &&& takes_back(c.config, points[i].vector)
    } by {
        assert(prepared_point(kernel, c.config, batch[i], sequence) is Ok);
    }
}

/// The same of deletions.
pub proof fn law_deletions_are_logged_commits(v: PersistedView, ids: Seq<Seq<char>>)
    requires
        delete_commit(v, ids) is Ok,
    ensures
        ({
            let commit = delete_commit(v, ids)->Ok_0;
            let mutation = Mutation::Remove(ids);
            &&& loggable(v.collection, mutation)
            &&& commit.frame == frame(record_of(v.collection, mutation)->Ok_0)
            &&& commit.after.collection == mutated(v.collection, mutation)
            &&& commit.after.dirty == v.dirty.union(touched(mutation).to_set())
        }),
{
}

} // verus!
