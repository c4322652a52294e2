//! The files beside the log: the collection's settings, its segments and the
//! manifest that names the current one.
use crate::bytes::{
    joined, le, le_value, lemma_byte_ranges, lemma_repeated_error, number, number_from, put_bytes,
    put_number, repeated, take, Decoder, Format, Parsed,
};
use crate::checksum::{checksum, crc32c};
use crate::collection::{views, CollectionConfig, Point, PointView};
use crate::error::{Error, ErrorView, Result};
use crate::hnsw::codec::{
    component_bytes, corrupt, graph_bytes, graph_finite, graph_fits, metric_tag, parse_graph,
    read_count, same_source, tag_of, too_large,
};
use crate::hnsw::model::{node_valid, GraphView};
use crate::hnsw::{graph_ids, HnswIndex};
use crate::ids::IdSet;
use crate::metric::Metric;
use crate::persistence::record::{
    all_encoded, encoded_count, encoded_metadata, encoded_size, encoded_text, encoded_vector,
    followed, lemma_all_encoded_error, parse_count, parse_metadata, parse_string, put_count,
    put_finite, put_metadata, put_size, put_string, read_components, read_items, read_metadata, read_string, record_component, wrote, Encoded,
    MAX_ITEMS,
};
use crate::parse::law_padded_numerals_are_read_back;
use crate::persistence::wal::encoding;
use crate::text::{begins_with, decimal, decimal_text, has_char, join, padded, padded_text};
use vstd::arithmetic::power::pow;
use vstd::prelude::*;
use vstd::slice::slice_subrange;
use vstd::string::*;

verus! {

/// The version of the settings and of the manifest.
pub const FORMAT_VERSION: u8 = 1;

/// The version of the segments.
pub const SEGMENT_VERSION: u8 = 2;

/// How stored settings begin.
pub open spec fn meta_magic() -> Seq<u8> {
    seq![0x46u8, 0x56u8, 0x4du8, 0x54u8]
}

/// How a segment begins.
pub open spec fn segment_magic() -> Seq<u8> {
    seq![0x46u8, 0x56u8, 0x53u8, 0x47u8]
}

/// How a manifest begins.
pub open spec fn manifest_magic() -> Seq<u8> {
    seq![0x46u8, 0x56u8, 0x4du8, 0x46u8]
}

/// Bytes with their checksum behind them.
pub open spec fn sealed(bytes: Seq<u8>) -> Seq<u8> {
    bytes + le(checksum(bytes) as nat, 4)
}

/// The last four bytes are the checksum of the bytes before them.
pub open spec fn seal_holds(bytes: Seq<u8>) -> bool {
    checksum(bytes.subrange(0, bytes.len() - 4)) == le_value(
        bytes.subrange(bytes.len() - 4, bytes.len() as int),
    )
}

/// The metric behind a number.
pub open spec fn parse_record_tag(tag: nat) -> core::result::Result<Metric, ErrorView> {
    if tag == 1 {
        Ok(Metric::Cosine)
    } else if tag == 2 {
        Ok(Metric::DotProduct)
    } else if tag == 3 {
        Ok(Metric::Euclidean)
    } else {
        corrupt("unknown metric tag "@ + decimal(tag))
    }
}

fn parse_metric(tag: u8) -> (result: Result<Metric>)
    ensures
        match parse_record_tag(tag as nat) {
            Ok(metric) => result is Ok && result->Ok_0 == metric,
            Err(error) => result is Err && result->Err_0@ == error,
        },
{
    if tag == 1 {
        Ok(Metric::Cosine)
    } else if tag == 2 {
        Ok(Metric::DotProduct)
    } else if tag == 3 {
        Ok(Metric::Euclidean)
    } else {
        let number = decimal_text(tag as u64);
        Err(Error::CorruptStorage(join("unknown metric tag ", number.as_str())))
    }
}

/// Appends the checksum of what is there.
fn seal(output: &mut Vec<u8>)
    ensures
        final(output)@ == sealed(old(output)@),
{
    let crc: u32 = crc32c(output.as_slice());
    put_number(output, crc as u64, 4);
}

/// Whether the last four bytes are the checksum of the bytes before them.
fn is_sealed(bytes: &[u8]) -> (holds: bool)
    requires
        bytes@.len() >= 4,
    ensures
        holds == seal_holds(bytes@),
{
    let length: usize = bytes.len() - 4;
    let stored: u64 = number_from(slice_subrange(bytes, length, bytes.len()));
    crc32c(slice_subrange(bytes, 0, length)) as u64 == stored
}

/// Whether bytes begin with four given ones and a version.
fn is_headed(bytes: &[u8], a: u8, b: u8, c: u8, d: u8, version: u8) -> (headed: bool)
    requires
        bytes@.len() >= 5,
    ensures
        headed == (bytes@.subrange(0, 4) == seq![a, b, c, d] && bytes@[4] == version),
{
    let same: bool = bytes[0] == a && bytes[1] == b && bytes[2] == c && bytes[3] == d;
    proof {
        let front = bytes@.subrange(0, 4);
        let wanted = seq![a, b, c, d];
        if same {
            assert(front =~= wanted);
        } else {
            assert(front[0] == bytes@[0] && front[1] == bytes@[1] && front[2] == bytes@[2]
                && front[3] == bytes@[3]);
            assert(wanted[0] == a && wanted[1] == b && wanted[2] == c && wanted[3] == d);
        }
    }
    same && bytes[4] == version
}

/// The stored settings of a collection.
pub open spec fn config_bytes(config: CollectionConfig) -> Seq<u8> {
    sealed(
        meta_magic() + seq![FORMAT_VERSION, tag_of(config.metric)] + le(
            config.dimension as nat,
            8,
        ),
    )
}

/// The settings that bytes stand for, or what is wrong with them.
pub open spec fn parse_config(bytes: Seq<u8>) -> core::result::Result<
    CollectionConfig,
    ErrorView,
> {
    if bytes.len() != 18 || bytes.subrange(0, 4) != meta_magic() || bytes[4] != FORMAT_VERSION {
        corrupt("invalid collection metadata header"@)
    } else if !seal_holds(bytes) {
        corrupt("collection metadata checksum mismatch"@)
    } else {
        match parse_record_tag(bytes[5] as nat) {
            Err(error) => Err(error),
            Ok(metric) => {
                let dimension = le_value(bytes.subrange(6, 14));
                if dimension > usize::MAX {
                    corrupt("collection dimension is too large"@)
                } else if dimension == 0 {
                    corrupt("collection dimension must be non-zero"@)
                } else {
                    Ok(CollectionConfig { dimension: dimension as usize, metric })
                }
            },
        }
    }
}

/// The stored settings of a collection.
pub fn encode_metadata(config: CollectionConfig) -> (bytes: Vec<u8>)
    ensures
        bytes@ == config_bytes(config),
{
    let mut bytes: Vec<u8> = Vec::new();
    bytes.push(0x46);
    bytes.push(0x56);
    bytes.push(0x4d);
    bytes.push(0x54);
    bytes.push(FORMAT_VERSION);
    bytes.push(metric_tag(config.metric));
    assert(bytes@ =~= meta_magic() + seq![FORMAT_VERSION, tag_of(config.metric)]);
    put_number(&mut bytes, config.dimension as u64, 8);
    seal(&mut bytes);
    bytes
}

/// Reads the stored settings of a collection.
pub fn decode_metadata(bytes: &[u8]) -> (result: Result<CollectionConfig>)
    ensures
        match parse_config(bytes@) {
            Ok(config) => result is Ok && result->Ok_0 == config,
            Err(error) => result is Err && result->Err_0@ == error,
        },
{
    if bytes.len() != 18 || !is_headed(bytes, 0x46, 0x56, 0x4d, 0x54, FORMAT_VERSION) {
        return Err(Error::corrupt("invalid collection metadata header"));
    }
    if !is_sealed(bytes) {
        return Err(Error::corrupt("collection metadata checksum mismatch"));
    }
    let metric = parse_metric(bytes[5])?;
    proof {
        lemma_byte_ranges();
    }
    let dimension: u64 = number_from(slice_subrange(bytes, 6, 14));
    if dimension > usize::MAX as u64 {
        return Err(Error::corrupt("collection dimension is too large"));
    }
    if dimension == 0 {
        return Err(Error::corrupt("collection dimension must be non-zero"));
    }
    Ok(CollectionConfig { dimension: dimension as usize, metric })
}

/// Holds the settings of a collection against the stored ones. Where none are
/// stored, the bytes to store are returned.
pub fn ensure_metadata(stored: Option<&[u8]>, config: CollectionConfig) -> (result: Result<
    Option<Vec<u8>>,
>)
    ensures
        match stored {
            None => result matches Ok(Some(bytes)) && bytes@ == config_bytes(config),
            Some(bytes) => match parse_config(bytes@) {
                Err(error) => result is Err && result->Err_0@ == error,
                Ok(actual) => if actual == config {
                    result == Ok::<Option<Vec<u8>>, Error>(None)
                } else {
                    result is Err && result->Err_0@ == ErrorView::InvalidConfig(
                        "requested configuration differs from persisted collection"@,
                    )
                },
            },
        },
{
    match stored {
        None => Ok(Some(encode_metadata(config))),
        Some(bytes) => {
            let actual = decode_metadata(bytes)?;
            if actual != config {
                return Err(
                    Error::InvalidConfig("requested configuration differs from persisted collection"),
                );
            }
            Ok(None)
        },
    }
}

/// What a manifest names: the current segment and its sequence.
pub struct ManifestView {
    pub sequence: u64,
    pub segment: Seq<char>,
}

/// The current segment and its sequence.
#[derive(Debug, PartialEq, Eq)]
pub struct Manifest {
    pub sequence: u64,
    pub segment: String,
}

impl View for Manifest {
    type V = ManifestView;

    open spec fn view(&self) -> ManifestView {
        ManifestView { sequence: self.sequence, segment: self.segment@ }
    }
}

/// The bytes of a manifest.
pub open spec fn encoded_manifest(sequence: u64, segment: Seq<char>) -> Encoded {
    match followed(
        Ok(manifest_magic() + seq![FORMAT_VERSION] + le(sequence as nat, 8)),
        encoded_text(segment),
    ) {
        Err(error) => Err(error),
        Ok(bytes) => Ok(sealed(bytes)),
    }
}

/// The manifest that bytes stand for, or what is wrong with them.
pub open spec fn parse_manifest(bytes: Seq<u8>) -> core::result::Result<ManifestView, ErrorView> {
    if bytes.len() < 21 || bytes.subrange(0, 4) != manifest_magic() || bytes[4] != FORMAT_VERSION {
        corrupt("invalid manifest header"@)
    } else if !seal_holds(bytes) {
        corrupt("manifest checksum mismatch"@)
    } else {
        let body = bytes.subrange(5, bytes.len() - 4);
        match number(Format::Record, body, 0, 8) {
            Err(error) => Err(error),
            Ok((sequence, next)) => match parse_string(body, next) {
                Err(error) => Err(error),
                Ok((segment, end)) => if end != body.len() {
                    corrupt(Format::Record.trailing())
                } else if segment.contains('/') || !"segment-"@.is_prefix_of(segment) {
                    corrupt("invalid segment name in manifest"@)
                } else {
                    Ok(ManifestView { sequence: sequence as u64, segment })
                },
            },
        }
    }
}

/// The bytes of a manifest.
pub(crate) fn encode_manifest(sequence: u64, segment: &str) -> (result: Result<Vec<u8>>)
    ensures
        encoding(result, encoded_manifest(sequence, segment@)),
{
    let mut bytes: Vec<u8> = Vec::new();
    bytes.push(0x46);
    bytes.push(0x56);
    bytes.push(0x4d);
    bytes.push(0x46);
    bytes.push(FORMAT_VERSION);
    assert(bytes@ =~= manifest_magic() + seq![FORMAT_VERSION]);
    put_number(&mut bytes, sequence, 8);
    put_string(&mut bytes, segment)?;
    seal(&mut bytes);
    Ok(bytes)
}

/// Reads a manifest.
pub fn read_manifest(bytes: &[u8]) -> (result: Result<Manifest>)
    ensures
        match parse_manifest(bytes@) {
            Ok(manifest) => result is Ok && result->Ok_0@ == manifest,
            Err(error) => result is Err && result->Err_0@ == error,
        },
{
    if bytes.len() < 21 || !is_headed(bytes, 0x46, 0x56, 0x4d, 0x46, FORMAT_VERSION) {
        return Err(Error::corrupt("invalid manifest header"));
    }
    if !is_sealed(bytes) {
        return Err(Error::corrupt("manifest checksum mismatch"));
    }
    let body = slice_subrange(bytes, 5, bytes.len() - 4);
    let mut decoder = Decoder::new(body, Format::Record);
    proof {
        lemma_byte_ranges();
    }
    let sequence: u64 = decoder.number(8)?;
    let segment = read_string(&mut decoder)?;
    decoder.finish()?;
    if has_char(segment.as_str(), '/') || !begins_with(segment.as_str(), "segment-") {
        return Err(Error::corrupt("invalid segment name in manifest"));
    }
    Ok(Manifest { sequence, segment })
}

/// The file name of the segment written at a sequence.
pub open spec fn segment_name(sequence: u64) -> Seq<char> {
    "segment-"@ + padded(sequence as nat, 20) + ".fvs"@
}

/// The file name of the segment written at a sequence.
pub(crate) fn name_segment(sequence: u64) -> (name: String)
    ensures
        name@ == segment_name(sequence),
{
    let mut name = join("segment-", padded_text(sequence, 20).as_str());
    name.append(".fvs");
    name
}

/// A segment: everything that a collection held at a sequence.
pub struct SegmentView {
    pub config: CollectionConfig,
    pub sequence: u64,
    pub points: Seq<PointView>,
    pub graph: GraphView,
}

/// A segment read back.
pub struct Segment {
    pub config: CollectionConfig,
    pub sequence: u64,
    pub points: Vec<Point>,
    pub index: HnswIndex,
}

impl View for Segment {
    type V = SegmentView;

    open spec fn view(&self) -> SegmentView {
        SegmentView {
            config: self.config,
            sequence: self.sequence,
            points: views(self.points@),
            graph: self.index@,
        }
    }
}

/// A stored point.
pub open spec fn encoded_stored() -> spec_fn(PointView) -> Encoded {
    |point: PointView|
        followed(
            followed(
                followed(encoded_text(point.id), Ok(le(point.sequence as nat, 8))),
                encoded_vector(point.vector),
            ),
            encoded_metadata(point.metadata),
        )
}

/// A graph behind its length; its vectors must be finite.
pub open spec fn encoded_graph(graph: GraphView) -> Encoded {
    if !graph_finite(graph) {
        Err(ErrorView::InvalidQuery("stored vector components must be finite"@))
    } else if !graph_fits(graph) {
        Err(too_large())
    } else {
        followed(encoded_size(graph_bytes(graph).len()), Ok(graph_bytes(graph)))
    }
}

/// The bytes before the points of a segment.
pub open spec fn segment_head(config: CollectionConfig, sequence: u64) -> Seq<u8> {
    segment_magic() + seq![SEGMENT_VERSION, tag_of(config.metric)] + le(config.dimension as nat, 8)
        + le(sequence as nat, 8)
}

/// The bytes before the points of a segment; a reader takes back a dimension of at
/// most [`MAX_ITEMS`].
pub open spec fn encoded_head(config: CollectionConfig, sequence: u64) -> Encoded {
    if config.dimension > MAX_ITEMS {
        Err(ErrorView::InvalidQuery("dimension is too large for a segment"@))
    } else {
        Ok(segment_head(config, sequence))
    }
}

/// The bytes of a segment.
pub open spec fn encoded_segment(segment: SegmentView) -> Encoded {
    match followed(
        followed(
            followed(
                encoded_head(segment.config, segment.sequence),
                encoded_count(segment.points.len()),
            ),
            all_encoded(segment.points, encoded_stored()),
        ),
        encoded_graph(segment.graph),
    ) {
        Err(error) => Err(error),
        Ok(bytes) => Ok(sealed(bytes)),
    }
}

fn put_stored(output: &mut Vec<u8>, point: &Point) -> (result: Result<()>)
    ensures
        wrote(old(output)@, final(output)@, result, (encoded_stored())(point@)),
{
    let ghost start = output@;
    put_string(output, point.id.as_str())?;
    put_number(output, point.sequence, 8);
    put_finite(output, &point.vector)?;
    put_metadata(output, &point.metadata)?;
    proof {
        let id = encoded_text(point.id@)->Ok_0;
        let sequence = le(point.sequence as nat, 8);
        let vector = joined(point.vector@, component_bytes());
        let metadata = encoded_metadata(point.metadata@)->Ok_0;
        assert(output@ =~= start + (((id + sequence) + vector) + metadata));
    }
    Ok(())
}

fn put_all_stored(output: &mut Vec<u8>, points: &Vec<Point>) -> (result: Result<()>)
    ensures
        wrote(
            old(output)@,
            final(output)@,
            result,
            all_encoded(views(points@), encoded_stored()),
        ),
{
    let ghost start = output@;
    let ghost all = views(points@);
    let ghost encode = encoded_stored();
    let mut i: usize = 0;
    proof {
        assert(all.subrange(0, 0) =~= Seq::empty());
        assert(start =~= start + Seq::<u8>::empty());
    }
    while i < points.len()
        invariant
            i <= points@.len(),
            all == views(points@),
            encode == encoded_stored(),
            start == old(output)@,
            all_encoded(all.subrange(0, i as int), encode) is Ok,
            output@ == start + all_encoded(all.subrange(0, i as int), encode)->Ok_0,
        decreases points.len() - i,
    {
        proof {
            let next = all.subrange(0, i + 1);
            assert(next.drop_last() =~= all.subrange(0, i as int));
            assert(next.last() == points@[i as int]@);
            if all_encoded(next, encode) is Err {
                lemma_all_encoded_error(all, encode, i + 1);
            }
        }
        put_stored(output, &points[i])?;
        proof {
            let head = all_encoded(all.subrange(0, i as int), encode)->Ok_0;
            let point = encode(all[i as int])->Ok_0;
            assert(output@ =~= start + (head + point));
        }
        i = i + 1;
    }
    assert(all.subrange(0, i as int) =~= all);
    Ok(())
}

/// The bytes of a segment.
pub(crate) fn encode_segment(
    config: CollectionConfig,
    sequence: u64,
    points: &Vec<Point>,
    index: &HnswIndex,
) -> (result: Result<Vec<u8>>)
    ensures
        encoding(
            result,
            encoded_segment(
                SegmentView { config, sequence, points: views(points@), graph: index@ },
            ),
        ),
{
    if config.dimension > MAX_ITEMS {
        return Err(Error::InvalidQuery("dimension is too large for a segment"));
    }
    let mut output: Vec<u8> = Vec::new();
    output.push(0x46);
    output.push(0x56);
    output.push(0x53);
    output.push(0x47);
    output.push(SEGMENT_VERSION);
    output.push(metric_tag(config.metric));
    assert(output@ =~= segment_magic() + seq![SEGMENT_VERSION, tag_of(config.metric)]);
    put_number(&mut output, config.dimension as u64, 8);
    put_number(&mut output, sequence, 8);
    put_count(&mut output, points.len())?;
    put_all_stored(&mut output, points)?;
    let ghost front = output@;
    if !index.is_finite() {
        return Err(Error::InvalidQuery("stored vector components must be finite"));
    }
    let graph = index.encode()?;
    put_size(&mut output, graph.len())?;
    put_bytes(&mut output, graph.as_slice());
    proof {
        let count = encoded_size(graph@.len())->Ok_0;
        assert(output@ =~= front + (count + graph@));
    }
    seal(&mut output);
    Ok(output)
}

/// Reads a stored point.
pub open spec fn stored_step(bytes: Seq<u8>, dimension: usize) -> spec_fn(
    Seq<PointView>,
    int,
) -> Parsed<PointView> {
    |done: Seq<PointView>, at: int|
        match parse_string(bytes, at) {
            Err(error) => Err(error),
            Ok((id, after_id)) => match number(Format::Record, bytes, after_id, 8) {
                Err(error) => Err(error),
                Ok((sequence, after_sequence)) => match repeated(
                    record_component(bytes),
                    after_sequence,
                    dimension as nat,
                ) {
                    Err(error) => Err(error),
                    Ok((vector, after_vector)) => match parse_metadata(bytes, after_vector) {
                        Err(error) => Err(error),
                        Ok((metadata, end)) => Ok(
                            (PointView { id, vector, metadata, sequence: sequence as u64 }, end),
                        ),
                    },
                },
            },
        }
}

/// The IDs of points.
pub open spec fn point_ids(points: Seq<PointView>) -> Set<Seq<char>> {
    Set::new(|id: Seq<char>| exists|i: int| 0 <= i < points.len() && (#[trigger] points[i]).id == id)
}

/// The graph of a segment belongs to its points.
pub open spec fn matched(segment: SegmentView) -> core::result::Result<SegmentView, ErrorView> {
    if segment.graph.dimension != segment.config.dimension || segment.graph.metric
        != segment.config.metric || segment.graph.nodes.len() != segment.points.len() {
        corrupt("HNSW graph does not match its segment"@)
    } else if point_ids(segment.points) != graph_ids(segment.graph) {
        corrupt("HNSW graph IDs do not match its segment"@)
    } else {
        Ok(segment)
    }
}

/// The part of a segment behind its settings.
#[verifier::opaque]
pub open spec fn parse_contents(body: Seq<u8>, config: CollectionConfig) -> core::result::Result<
    SegmentView,
    ErrorView,
> {
    match number(Format::Record, body, 0, 8) {
        Err(error) => Err(error),
        Ok((sequence, after_sequence)) => match parse_count(body, after_sequence) {
            Err(error) => Err(error),
            Ok((count, after_count)) => match repeated(
                stored_step(body, config.dimension),
                after_count,
                count,
            ) {
                Err(error) => Err(error),
                Ok((points, after_points)) => match number(Format::Record, body, after_points, 4) {
                    Err(error) => Err(error),
                    Ok((length, after_length)) => match take(
                        Format::Record,
                        body,
                        after_length,
                        length as int,
                    ) {
                        Err(error) => Err(error),
                        Ok((part, end)) => match parse_graph(part) {
                            Err(error) => Err(error),
                            Ok(graph) => if end != body.len() {
                                corrupt(Format::Record.trailing())
                            } else {
                                matched(
                                    SegmentView {
                                        config,
                                        sequence: sequence as u64,
                                        points,
                                        graph,
                                    },
                                )
                            },
                        },
                    },
                },
            },
        },
    }
}

/// The segment that bytes stand for, or what is wrong with them.
pub open spec fn parse_segment(bytes: Seq<u8>) -> core::result::Result<SegmentView, ErrorView> {
    if bytes.len() < 30 || bytes.subrange(0, 4) != segment_magic() || bytes[4] != SEGMENT_VERSION {
        corrupt("invalid segment header"@)
    } else if !seal_holds(bytes) {
        corrupt("segment checksum mismatch"@)
    } else {
        match parse_record_tag(bytes[5] as nat) {
            Err(error) => Err(error),
            Ok(metric) => {
                let dimension = le_value(bytes.subrange(6, 14));
                if dimension > usize::MAX {
                    corrupt("segment dimension is too large"@)
                } else if dimension == 0 || dimension > MAX_ITEMS {
                    corrupt("invalid segment dimension"@)
                } else {
                    parse_contents(
                        bytes.subrange(14, bytes.len() - 4),
                        CollectionConfig { dimension: dimension as usize, metric },
                    )
                }
            },
        }
    }
}

fn read_stored(decoder: &mut Decoder, dimension: usize) -> (result: Result<Point>)
    requires
        old(decoder).wf(),
        old(decoder).format == Format::Record,
    ensures
        same_source(*old(decoder), *final(decoder)),
        match (stored_step(old(decoder).bytes@, dimension))(
            Seq::empty(),
            old(decoder).position as int,
        ) {
            Ok((value, next)) => {
                &&& result is Ok
                &&& result->Ok_0@ == value
                &&& final(decoder).position == next
                &&& value.vector.len() == dimension
            },
            Err(error) => result is Err && result->Err_0@ == error,
        },
{
    proof {
        lemma_byte_ranges();
    }
    let id = read_string(decoder)?;
    let sequence: u64 = decoder.number(8)?;
    let vector = read_components(decoder, dimension)?;
    let metadata = read_metadata(decoder)?;
    Ok(Point { id, vector, metadata, sequence })
}

fn read_all_stored(decoder: &mut Decoder, dimension: usize, count: usize) -> (result: Result<
    Vec<Point>,
>)
    requires
        old(decoder).wf(),
        old(decoder).format == Format::Record,
    ensures
        same_source(*old(decoder), *final(decoder)),
        match repeated(
            stored_step(old(decoder).bytes@, dimension),
            old(decoder).position as int,
            count as nat,
        ) {
            Ok((points, next)) => {
                &&& result is Ok
                &&& views(result->Ok_0@) == points
                &&& final(decoder).position == next
                &&& forall|i: int|
                    0 <= i < points.len() ==> (#[trigger] points[i]).vector.len() == dimension
            },
            Err(error) => result is Err && result->Err_0@ == error,
        },
{
    let ghost bytes = decoder.bytes@;
    let ghost start = decoder.position as int;
    let ghost step = stored_step(bytes, dimension);
    let mut points: Vec<Point> = Vec::new();
    let mut i: usize = 0;
    assert(views(points@) =~= Seq::empty());
    while i < count
        invariant
            i <= count,
            same_source(*old(decoder), *decoder),
            decoder.format == Format::Record,
            bytes == decoder.bytes@,
            bytes == old(decoder).bytes@,
            start == old(decoder).position,
            step == stored_step(bytes, dimension),
            repeated(step, start, i as nat) == Ok::<(Seq<PointView>, int), ErrorView>(
                (views(points@), decoder.position as int),
            ),
            forall|j: int|
                0 <= j < points@.len() ==> (#[trigger] views(points@)[j]).vector.len()
                    == dimension,
        decreases count - i,
    {
        let ghost before = points@;
        proof {
            if repeated(step, start, (i + 1) as nat) is Err {
                lemma_repeated_error(step, start, (i + 1) as nat, count as nat);
            }
            assert(step(views(points@), decoder.position as int) == step(
                Seq::empty(),
                decoder.position as int,
            ));
        }
        let point = read_stored(decoder, dimension)?;
        let ghost value = point@;
        points.push(point);
        proof {
            assert(views(points@) =~= views(before).push(value));
            assert forall|j: int| 0 <= j < points@.len() implies (
            #[trigger] views(points@)[j]).vector.len() == dimension by {
                if j < before.len() {
                    assert(views(points@)[j] == views(before)[j]);
                }
            }
        }
        i = i + 1;
    }
    Ok(points)
}

/// The IDs of points, as a set.
fn ids_of_stored(points: &Vec<Point>) -> (ids: IdSet)
    ensures
        ids.wf(),
        ids@ == point_ids(views(points@)),
{
    let ghost all = views(points@);
    let mut ids = IdSet::new();
    let mut i: usize = 0;
    while i < points.len()
        invariant
            i <= points@.len(),
            all == views(points@),
            ids.wf(),
            forall|id: Seq<char>| #[trigger]
                ids@.contains(id) <==> exists|j: int| 0 <= j < i && (#[trigger] all[j]).id == id,
        decreases points.len() - i,
    {
        let ghost before = ids@;
        ids.insert(points[i].id.clone());
        proof {
            assert(all[i as int] == points@[i as int]@);
            assert forall|id: Seq<char>| #[trigger]
                ids@.contains(id) <==> exists|j: int|
                    0 <= j < i + 1 && (#[trigger] all[j]).id == id by {
                if before.contains(id) {
                    let j = choose|j: int| 0 <= j < i && (#[trigger] all[j]).id == id;
                    assert(0 <= j < i + 1);
                }
                if id == all[i as int].id {
                    assert(all[i as int].id == id);
                }
            }
        }
        i = i + 1;
    }
    assert(ids@ =~= point_ids(all));
    ids
}

/// Whether two sets have the same members.
pub(crate) fn same_ids(a: &IdSet, b: &IdSet) -> (same: bool)
    requires
        a.wf(),
        b.wf(),
    ensures
        same == (a@ == b@),
{
    let left = a.compared(b, false);
    let right = b.compared(a, false);
    let same: bool = left.is_empty() && right.is_empty();
    proof {
        left.lemma_order();
        right.lemma_order();
        if same {
            assert forall|id: Seq<char>| a@.contains(id) <==> b@.contains(id) by {
                assert(!left@.contains(id));
                assert(!right@.contains(id));
            }
            assert(a@ =~= b@);
        } else if a@ == b@ {
            assert(left@ =~= Set::empty());
            assert(right@ =~= Set::empty());
        }
    }
    same
}

/// Reads a segment.
pub fn decode_segment(bytes: &[u8]) -> (result: Result<Segment>)
    ensures
        match parse_segment(bytes@) {
            Ok(segment) => {
                &&& result is Ok
                &&& result->Ok_0@ == segment
                &&& result->Ok_0.index.wf()
                &&& segment.graph.dimension == segment.config.dimension
                &&& segment.graph.metric == segment.config.metric
                &&& forall|i: int|
                    0 <= i < segment.points.len() ==> (#[trigger] segment.points[i]).id.len() > 0
                        && segment.points[i].vector.len() == segment.config.dimension
            },
            Err(error) => result is Err && result->Err_0@ == error,
        },
{
    if bytes.len() < 30 || !is_headed(bytes, 0x46, 0x56, 0x53, 0x47, SEGMENT_VERSION) {
        return Err(Error::corrupt("invalid segment header"));
    }
    if !is_sealed(bytes) {
        return Err(Error::corrupt("segment checksum mismatch"));
    }
    let metric = parse_metric(bytes[5])?;
    proof {
        lemma_byte_ranges();
    }
    let dimension: u64 = number_from(slice_subrange(bytes, 6, 14));
    if dimension > usize::MAX as u64 {
        return Err(Error::corrupt("segment dimension is too large"));
    }
    let dimension: usize = dimension as usize;
    if dimension == 0 || dimension > MAX_ITEMS {
        return Err(Error::corrupt("invalid segment dimension"));
    }
    let body = slice_subrange(bytes, 14, bytes.len() - 4);
    decode_contents(body, CollectionConfig { dimension, metric })
}

fn decode_contents(body: &[u8], config: CollectionConfig) -> (result: Result<Segment>)
    ensures
        match parse_contents(body@, config) {
            Ok(segment) => {
                &&& result is Ok
                &&& result->Ok_0@ == segment
                &&& result->Ok_0.index.wf()
                &&& segment.graph.dimension == segment.config.dimension
                &&& segment.graph.metric == segment.config.metric
                &&& forall|i: int|
                    0 <= i < segment.points.len() ==> (#[trigger] segment.points[i]).id.len() > 0
                        && segment.points[i].vector.len() == segment.config.dimension
            },
            Err(error) => result is Err && result->Err_0@ == error,
        },
{
    let mut decoder = Decoder::new(body, Format::Record);
    proof {
        lemma_byte_ranges();
        reveal(parse_contents);
    }
    let sequence: u64 = decoder.number(8)?;
    let count: usize = read_items(&mut decoder)?;
    let points = read_all_stored(&mut decoder, config.dimension, count)?;
    let length: usize = read_count(&mut decoder)?;
    let part = decoder.take(length)?;
    let index = HnswIndex::decode(part)?;
    decoder.finish()?;
    if index.dimension() != config.dimension || index.metric() != config.metric || index.len()
        != points.len() {
        return Err(Error::corrupt("HNSW graph does not match its segment"));
    }
    let stored = ids_of_stored(&points);
    let known = index.ids();
    if !same_ids(&stored, &known) {
        return Err(Error::corrupt("HNSW graph IDs do not match its segment"));
    }
    proof {
        index.lemma_valid();
        let all = views(points@);
        assert forall|i: int| 0 <= i < all.len() implies (#[trigger] all[i]).id.len() > 0
            && all[i].vector.len() == config.dimension by {
            assert(point_ids(all).contains(all[i].id));
            assert(graph_ids(index@).contains(all[i].id));
            let j = choose|j: int|
                0 <= j < index@.nodes.len() && (#[trigger] index@.nodes[j]).id == all[i].id;
            assert(node_valid(index@, j));
        }
    }
    Ok(Segment { config, sequence, points, index })
}

/// No two segments share a name.
pub proof fn law_segment_names_differ(a: u64, b: u64)
    requires
        segment_name(a) == segment_name(b),
    ensures
        a == b,
{
    let word = "segment-"@;
    law_padded_numerals_are_read_back(a as nat, 20);
    law_padded_numerals_are_read_back(b as nat, 20);
    assert(padded(a as nat, 20) =~= segment_name(a).subrange(
        word.len() as int,
        word.len() as int + 20,
    ));
    assert(padded(b as nat, 20) =~= segment_name(b).subrange(
        word.len() as int,
        word.len() as int + 20,
    ));
    assert(pow(10, 20) == 100_000_000_000_000_000_000) by {
        reveal_with_fuel(pow, 21);
    }
}

/// Every point of a segment has a node, and every node a point.
pub open spec fn node_for_each(segment: SegmentView) -> bool {
    &&& forall|i: int|
        0 <= i < segment.points.len() ==> #[trigger] has_node(segment, segment.points[i].id)
    &&& forall|j: int|
        0 <= j < segment.graph.nodes.len() ==> #[trigger] has_point(
            segment,
            segment.graph.nodes[j].id,
        )
}

/// A node with an ID.
pub open spec fn has_node(segment: SegmentView, id: Seq<char>) -> bool {
    exists|j: int| 0 <= j < segment.graph.nodes.len() && (#[trigger] segment.graph.nodes[j]).id == id
}

/// A point with an ID.
pub open spec fn has_point(segment: SegmentView, id: Seq<char>) -> bool {
    exists|i: int| 0 <= i < segment.points.len() && (#[trigger] segment.points[i]).id == id
}

/// A segment is taken with its graph exactly where the graph is one of its points: of
/// their shape, as many, and with the same IDs.
pub proof fn law_segments_have_their_own_graph(segment: SegmentView)
    ensures
        matched(segment) is Ok <==> {
            &&& segment.graph.dimension == segment.config.dimension
            &&& segment.graph.metric == segment.config.metric
            &&& segment.graph.nodes.len() == segment.points.len()
            &&& node_for_each(segment)
        },
        matched(segment) matches Ok(same) ==> same == segment,
{
    let points = point_ids(segment.points);
    let nodes = graph_ids(segment.graph);
    if points == nodes {
        assert forall|i: int| 0 <= i < segment.points.len() implies #[trigger] has_node(
            segment,
            segment.points[i].id,
        ) by {
            assert(points.contains(segment.points[i].id));
            assert(nodes.contains(segment.points[i].id));
        }
        assert forall|j: int| 0 <= j < segment.graph.nodes.len() implies #[trigger] has_point(
            segment,
            segment.graph.nodes[j].id,
        ) by {
            assert(nodes.contains(segment.graph.nodes[j].id));
            assert(points.contains(segment.graph.nodes[j].id));
        }
    }
    if node_for_each(segment) {
        assert forall|id: Seq<char>| points.contains(id) == nodes.contains(id) by {
            if points.contains(id) {
                let i = choose|i: int|
                    0 <= i < segment.points.len() && (#[trigger] segment.points[i]).id == id;
                assert(has_node(segment, segment.points[i].id));
            }
            if nodes.contains(id) {
                let j = choose|j: int|
                    0 <= j < segment.graph.nodes.len() && (#[trigger] segment.graph.nodes[j]).id
                        == id;
                assert(has_point(segment, segment.graph.nodes[j].id));
            }
        }
        assert(points =~= nodes);
    }
}

} // verus!
