//! The binary form of a graph.
use crate::bits::{is_single_finite, single_finite};
use crate::bytes::{
    joined, le, lemma_byte_ranges, lemma_le_round_trip, lemma_number_stands, lemma_repeated_error,
    lemma_repeated_round_trip, lemma_stands_split, lemma_take_stands, lemma_text_stands, number,
    put_bytes, put_number, repeated, stands_at, take, text, Decoder, Format, Parsed,
};
use crate::collection::views;
use crate::error::{Error, ErrorView, Result};
use crate::hnsw::model::{
    config_verdict, ids_distinct, links_valid, node_valid, valid, GraphView, HnswConfig, NodeView,
    MAX_LEVEL,
};
use crate::hnsw::{validate_config, HnswIndex, Node};
use crate::ids::IdSet;
use crate::metric::{all_finite, is_all_finite, Metric};
use crate::text::{decimal, decimal_text, join};
use vstd::prelude::*;
use vstd::utf8::encode_utf8;

verus! {

/// The version of the format.
pub const GRAPH_VERSION: u8 = 1;

/// The most nodes that a graph may be read back with.
pub const MAX_NODES: usize = 100_000_000;

/// The four bytes at the front.
pub open spec fn graph_magic() -> Seq<u8> {
    seq![0x46u8, 0x56u8, 0x48u8, 0x47u8]
}

/// The number that stands for a metric.
pub open spec fn tag_of(metric: Metric) -> u8 {
    match metric {
        Metric::Cosine => 1,
        Metric::DotProduct => 2,
        Metric::Euclidean => 3,
    }
}

/// The number that stands for a metric.
pub fn metric_tag(metric: Metric) -> (tag: u8)
    ensures
        tag == tag_of(metric),
{
    match metric {
        Metric::Cosine => 1,
        Metric::DotProduct => 2,
        Metric::Euclidean => 3,
    }
}

/// Fits the four bytes of a count.
pub open spec fn fits_count(value: nat) -> bool {
    value <= 0xffff_ffff
}

/// The bytes of a component.
pub open spec fn component_bytes() -> spec_fn(u32) -> Seq<u8> {
    |x: u32| le(x as nat, 4)
}

/// The bytes of a link.
pub open spec fn index_bytes() -> spec_fn(usize) -> Seq<u8> {
    |x: usize| le(x as nat, 4)
}

/// A list of links: its length and its nodes.
pub open spec fn layer_bytes() -> spec_fn(Seq<usize>) -> Seq<u8> {
    |list: Seq<usize>| le(list.len(), 4) + joined(list, index_bytes())
}

/// Text: the number of its bytes and the bytes.
pub open spec fn text_bytes(value: Seq<char>) -> Seq<u8> {
    le(encode_utf8(value).len(), 4) + encode_utf8(value)
}

/// A node: its ID, its vector and its links, layer by layer.
pub open spec fn node_bytes() -> spec_fn(NodeView) -> Seq<u8> {
    |node: NodeView|
        text_bytes(node.id) + (joined(node.vector, component_bytes()) + (le(
            node.neighbors.len(),
            4,
        ) + joined(node.neighbors, layer_bytes())))
}

/// The number that stands for the entry point: all ones where there is none.
pub open spec fn entry_number(entry: Option<usize>) -> nat {
    match entry {
        None => u64::MAX as nat,
        Some(index) => index as nat,
    }
}

/// The bytes before the nodes.
pub open spec fn graph_head(g: GraphView) -> Seq<u8> {
    graph_magic() + seq![GRAPH_VERSION] + le(g.dimension as nat, 8) + seq![tag_of(g.metric)] + le(
        g.config.m as nat,
        4,
    ) + le(g.config.ef_construction as nat, 4) + le(g.nodes.len(), 4) + le(
        entry_number(g.entry_point),
        8,
    ) + le(g.max_level as nat, 4)
}

/// The bytes of a graph.
pub open spec fn graph_bytes(g: GraphView) -> Seq<u8> {
    graph_head(g) + joined(g.nodes, node_bytes())
}

/// The counts of a layer fit the format.
pub open spec fn layer_fits(list: Seq<usize>) -> bool {
    &&& fits_count(list.len())
    &&& forall|i: int| 0 <= i < list.len() ==> fits_count(#[trigger] list[i] as nat)
}

/// The counts of a node fit the format.
pub open spec fn node_fits(node: NodeView) -> bool {
    &&& fits_count(encode_utf8(node.id).len())
    &&& fits_count(node.neighbors.len())
    &&& forall|i: int| 0 <= i < node.neighbors.len() ==> layer_fits(#[trigger] node.neighbors[i])
}

/// Every count and every index of the graph fits its four bytes.
pub open spec fn graph_fits(g: GraphView) -> bool {
    &&& fits_count(g.config.m as nat)
    &&& fits_count(g.config.ef_construction as nat)
    &&& fits_count(g.nodes.len())
    &&& fits_count(g.max_level as nat)
    &&& forall|i: int| 0 <= i < g.nodes.len() ==> node_fits(#[trigger] g.nodes[i])
}

/// Every component of every node is finite.
pub open spec fn graph_finite(g: GraphView) -> bool {
    forall|i: int| 0 <= i < g.nodes.len() ==> all_finite((#[trigger] g.nodes[i]).vector)
}

/// The error where a count does not fit.
pub open spec fn too_large() -> ErrorView {
    ErrorView::InvalidQuery("HNSW graph value exceeds format limit"@)
}

/// Appends a count.
fn put_u32(output: &mut Vec<u8>, value: usize) -> (result: Result<()>)
    ensures
        match result {
            Ok(_) => fits_count(value as nat) && final(output)@ == old(output)@ + le(
                value as nat,
                4,
            ),
            Err(error) => !fits_count(value as nat) && error@ == too_large(),
        },
{
    if value as u64 > 0xffff_ffff {
        return Err(Error::InvalidQuery("HNSW graph value exceeds format limit"));
    }
    put_number(output, value as u64, 4);
    Ok(())
}

fn put_layer(output: &mut Vec<u8>, list: &Vec<usize>) -> (result: Result<()>)
    ensures
        match result {
            Ok(_) => layer_fits(list@) && final(output)@ == old(output)@ + (layer_bytes())(list@),
            Err(error) => !layer_fits(list@) && error@ == too_large(),
        },
{
    put_u32(output, list.len())?;
    let ghost start = output@;
    let mut i: usize = 0;
    proof {
        assert(list@.subrange(0, 0) =~= Seq::empty());
        assert(start =~= start + joined(list@.subrange(0, 0), index_bytes()));
    }
    while i < list.len()
        invariant
            i <= list@.len(),
            forall|j: int| 0 <= j < i ==> fits_count(#[trigger] list@[j] as nat),
            output@ == start + joined(list@.subrange(0, i as int), index_bytes()),
        decreases list.len() - i,
    {
        let ghost before = output@;
        put_u32(output, list[i])?;
        proof {
            let next = list@.subrange(0, i + 1);
            assert(next.drop_last() =~= list@.subrange(0, i as int));
            assert(output@ =~= start + joined(next, index_bytes()));
        }
        i = i + 1;
    }
    proof {
        assert(list@.subrange(0, i as int) =~= list@);
        assert(output@ =~= old(output)@ + (layer_bytes())(list@));
    }
    Ok(())
}

/// Appends the components of a vector.
pub(crate) fn put_vector(output: &mut Vec<u8>, vector: &Vec<u32>)
    ensures
        final(output)@ == old(output)@ + joined(vector@, component_bytes()),
{
    let ghost start = output@;
    let mut i: usize = 0;
    proof {
        assert(vector@.subrange(0, 0) =~= Seq::empty());
        assert(start =~= start + joined(vector@.subrange(0, 0), component_bytes()));
    }
    while i < vector.len()
        invariant
            i <= vector@.len(),
            output@ == start + joined(vector@.subrange(0, i as int), component_bytes()),
        decreases vector.len() - i,
    {
        put_number(output, vector[i] as u64, 4);
        proof {
            let next = vector@.subrange(0, i + 1);
            assert(next.drop_last() =~= vector@.subrange(0, i as int));
            assert(output@ =~= start + joined(next, component_bytes()));
        }
        i = i + 1;
    }
    assert(vector@.subrange(0, i as int) =~= vector@);
}

fn put_node(output: &mut Vec<u8>, node: &Node) -> (result: Result<()>)
    ensures
        match result {
            Ok(_) => node_fits(node@) && final(output)@ == old(output)@ + (node_bytes())(node@),
            Err(error) => !node_fits(node@) && error@ == too_large(),
        },
{
    let id = node.id.as_str().as_bytes();
    put_u32(output, id.len())?;
    put_bytes(output, id);
    put_vector(output, &node.vector);
    put_u32(output, node.neighbors.len())?;
    let ghost start = output@;
    let ghost layers = node@.neighbors;
    let mut i: usize = 0;
    proof {
        assert(layers.subrange(0, 0) =~= Seq::empty());
        assert(start =~= start + joined(layers.subrange(0, 0), layer_bytes()));
    }
    while i < node.neighbors.len()
        invariant
            i <= node.neighbors@.len(),
            layers == node@.neighbors,
            layers.len() == node.neighbors@.len(),
            forall|j: int| 0 <= j < layers.len() ==> #[trigger] layers[j] == node.neighbors@[j]@,
            forall|j: int| 0 <= j < i ==> layer_fits(#[trigger] layers[j]),
            output@ == start + joined(layers.subrange(0, i as int), layer_bytes()),
        decreases node.neighbors.len() - i,
    {
        let ghost before = output@;
        assert(layers[i as int] == node.neighbors@[i as int]@);
        put_layer(output, &node.neighbors[i])?;
        proof {
            let next = layers.subrange(0, i + 1);
            assert(next.drop_last() =~= layers.subrange(0, i as int));
            assert(output@ =~= start + joined(next, layer_bytes()));
        }
        i = i + 1;
    }
    proof {
        assert(layers.subrange(0, i as int) =~= layers);
        assert(output@ =~= old(output)@ + (node_bytes())(node@));
    }
    Ok(())
}

impl HnswIndex {
    /// Whether every component of every node is finite.
    pub(crate) fn is_finite(&self) -> (finite: bool)
        ensures
            finite == graph_finite(self@),
    {
        let mut i: usize = 0;
        while i < self.nodes.len()
            invariant
                i <= self.nodes@.len(),
                forall|j: int| 0 <= j < i ==> all_finite((#[trigger] self@.nodes[j]).vector),
            decreases self.nodes.len() - i,
        {
            assert(self@.nodes[i as int].vector == self.nodes@[i as int].vector@);
            if !is_all_finite(&self.nodes[i].vector) {
                return false;
            }
            i = i + 1;
        }
        true
    }

    /// The binary form of the graph.
    pub fn encode(&self) -> (result: Result<Vec<u8>>)
        ensures
            match result {
                Ok(bytes) => graph_fits(self@) && bytes@ == graph_bytes(self@),
                Err(error) => !graph_fits(self@) && error@ == too_large(),
            },
    {
        let mut output: Vec<u8> = Vec::new();
        output.push(0x46);
        output.push(0x56);
        output.push(0x48);
        output.push(0x47);
        output.push(GRAPH_VERSION);
        assert(output@ =~= graph_magic() + seq![GRAPH_VERSION]);
        put_number(&mut output, self.dimension as u64, 8);
        let ghost before_tag = output@;
        output.push(metric_tag(self.metric));
        assert(output@ =~= before_tag + seq![tag_of(self.metric)]);
        put_u32(&mut output, self.config.m)?;
        put_u32(&mut output, self.config.ef_construction)?;
        put_u32(&mut output, self.nodes.len())?;
        let entry: u64 = match self.entry_point {
            None => u64::MAX,
            Some(index) => index as u64,
        };
        put_number(&mut output, entry, 8);
        put_u32(&mut output, self.max_level)?;
        assert(output@ == graph_head(self@));
        let ghost start = output@;
        let ghost nodes = self@.nodes;
        let mut i: usize = 0;
        proof {
            assert(nodes.subrange(0, 0) =~= Seq::empty());
            assert(start =~= start + joined(nodes.subrange(0, 0), node_bytes()));
        }
        while i < self.nodes.len()
            invariant
                i <= self.nodes@.len(),
                nodes == self@.nodes,
                nodes.len() == self.nodes@.len(),
                forall|j: int| 0 <= j < nodes.len() ==> #[trigger] nodes[j] == self.nodes@[j]@,
                forall|j: int| 0 <= j < i ==> node_fits(#[trigger] nodes[j]),
                output@ == start + joined(nodes.subrange(0, i as int), node_bytes()),
            decreases self.nodes.len() - i,
        {
            let ghost before = output@;
            assert(nodes[i as int] == self.nodes@[i as int]@);
            put_node(&mut output, &self.nodes[i])?;
            proof {
                let next = nodes.subrange(0, i + 1);
                assert(next.drop_last() =~= nodes.subrange(0, i as int));
                assert(output@ =~= start + joined(next, node_bytes()));
            }
            i = i + 1;
        }
        proof {
            assert(nodes.subrange(0, i as int) =~= nodes);
        }
        Ok(output)
    }
}

/// The error of damaged bytes.
pub open spec fn corrupt<T>(message: Seq<char>) -> core::result::Result<T, ErrorView> {
    Err(ErrorView::CorruptStorage(message))
}

/// The metric behind a number.
pub open spec fn parse_tag(tag: nat) -> core::result::Result<Metric, ErrorView> {
    if tag == 1 {
        Ok(Metric::Cosine)
    } else if tag == 2 {
        Ok(Metric::DotProduct)
    } else if tag == 3 {
        Ok(Metric::Euclidean)
    } else {
        corrupt("unknown HNSW metric tag "@ + decimal(tag))
    }
}

/// Reads a text behind its length.
pub open spec fn parse_text(bytes: Seq<u8>, at: int) -> Parsed<Seq<char>> {
    match number(Format::Graph, bytes, at, 4) {
        Err(error) => Err(error),
        Ok((length, next)) => text(Format::Graph, bytes, next, length as int),
    }
}

/// Reads a component; it must be finite.
pub open spec fn component_step(bytes: Seq<u8>) -> spec_fn(Seq<u32>, int) -> Parsed<u32> {
    |done: Seq<u32>, at: int|
        match number(Format::Graph, bytes, at, 4) {
            Err(error) => Err(error),
            Ok((bits, next)) => if single_finite(bits as u32) {
                Ok((bits as u32, next))
            } else {
                corrupt("HNSW graph contains a non-finite vector"@)
            },
        }
}

/// Reads a link.
pub open spec fn index_step(bytes: Seq<u8>) -> spec_fn(Seq<usize>, int) -> Parsed<usize> {
    |done: Seq<usize>, at: int|
        match number(Format::Graph, bytes, at, 4) {
            Err(error) => Err(error),
            Ok((value, next)) => Ok((value as usize, next)),
        }
}

/// Reads a list of links; it has at most `m`.
pub open spec fn layer_step(bytes: Seq<u8>, m: usize) -> spec_fn(
    Seq<Seq<usize>>,
    int,
) -> Parsed<Seq<usize>> {
    |done: Seq<Seq<usize>>, at: int|
        match number(Format::Graph, bytes, at, 4) {
            Err(error) => Err(error),
            Ok((count, next)) => if count > m {
                corrupt("HNSW neighbor list exceeds configured m"@)
            } else {
                repeated(index_step(bytes), next, count)
            },
        }
}

/// The links of a node, layer by layer.
pub open spec fn parse_layers(bytes: Seq<u8>, m: usize, at: int) -> Parsed<Seq<Seq<usize>>> {
    match number(Format::Graph, bytes, at, 4) {
        Err(error) => Err(error),
        Ok((count, next)) => if count == 0 || count > MAX_LEVEL + 1 {
            corrupt("HNSW node has an invalid layer count"@)
        } else {
            repeated(layer_step(bytes, m), next, count)
        },
    }
}

/// An ID is new among nodes.
pub open spec fn is_new(nodes: Seq<NodeView>, id: Seq<char>) -> bool {
    forall|i: int| 0 <= i < nodes.len() ==> (#[trigger] nodes[i]).id != id
}

/// Reads a node; its ID is not empty and new among the nodes before it.
pub open spec fn node_step(bytes: Seq<u8>, dimension: usize, m: usize) -> spec_fn(
    Seq<NodeView>,
    int,
) -> Parsed<NodeView> {
    |done: Seq<NodeView>, at: int|
        match parse_text(bytes, at) {
            Err(error) => Err(error),
            Ok((id, after_id)) => if id.len() == 0 || !is_new(done, id) {
                corrupt("HNSW graph contains an empty or duplicate ID"@)
            } else {
                match repeated(component_step(bytes), after_id, dimension as nat) {
                    Err(error) => Err(error),
                    Ok((vector, after_vector)) => match parse_layers(bytes, m, after_vector) {
                        Err(error) => Err(error),
                        Ok((neighbors, end)) => Ok((NodeView { id, vector, neighbors }, end)),
                    },
                }
            },
        }
}

/// What a graph read back must be beyond its parts: entered at a node of its
/// highest level, and linked between its own nodes.
pub open spec fn checked(g: GraphView) -> core::result::Result<GraphView, ErrorView> {
    if g.nodes.len() == 0 && (g.entry_point is Some || g.max_level != 0) {
        corrupt("empty HNSW graph has an entry point"@)
    } else if g.nodes.len() > 0 && g.entry_point is None {
        corrupt("non-empty HNSW graph has no entry point"@)
    } else if g.nodes.len() > 0 && (g.entry_point->0 >= g.nodes.len()
        || g.nodes[g.entry_point->0 as int].neighbors.len() <= g.max_level) {
        corrupt("invalid HNSW entry point"@)
    } else if !(forall|i: int| 0 <= i < g.nodes.len() ==> #[trigger] leads_within(g, i)) {
        corrupt("HNSW graph contains an invalid neighbor"@)
    } else {
        Ok(g)
    }
}

/// The links of a node lead to other nodes of the graph.
pub open spec fn leads_within(g: GraphView, i: int) -> bool {
    forall|l: int|
        0 <= l < g.nodes[i].neighbors.len() ==> within_graph(
            g.nodes.len(),
            i,
            #[trigger] g.nodes[i].neighbors[l],
        )
}

/// Links that lead to other nodes of the graph.
pub open spec fn within_graph(count: nat, i: int, list: Seq<usize>) -> bool {
    forall|j: int| 0 <= j < list.len() ==> (#[trigger] list[j]) < count && list[j] != i
}

/// The nodes and what follows from the settings before them.
pub open spec fn parse_body(
    bytes: Seq<u8>,
    at: int,
    dimension: usize,
    metric: Metric,
    config: HnswConfig,
) -> core::result::Result<GraphView, ErrorView> {
    match number(Format::Graph, bytes, at, 4) {
        Err(error) => Err(error),
        Ok((count, after_count)) => if count > MAX_NODES {
            corrupt("HNSW node count exceeds limit"@)
        } else {
            match number(Format::Graph, bytes, after_count, 8) {
                Err(error) => Err(error),
                Ok((entry, after_entry)) => if entry != u64::MAX && entry > usize::MAX {
                    corrupt("HNSW entry point is too large"@)
                } else {
                    match number(Format::Graph, bytes, after_entry, 4) {
                        Err(error) => Err(error),
                        Ok((level, after_level)) => if level > MAX_LEVEL {
                            corrupt("HNSW level exceeds limit"@)
                        } else {
                            match repeated(
                                node_step(bytes, dimension, config.m),
                                after_level,
                                count,
                            ) {
                                Err(error) => Err(error),
                                Ok((nodes, end)) => if end != bytes.len() {
                                    corrupt(Format::Graph.trailing())
                                } else {
                                    checked(
                                        GraphView {
                                            dimension,
                                            metric,
                                            config,
                                            nodes,
                                            entry_point: if entry == u64::MAX {
                                                None
                                            } else {
                                                Some(entry as usize)
                                            },
                                            max_level: level as usize,
                                        },
                                    )
                                },
                            }
                        },
                    }
                },
            }
        },
    }
}

/// The settings, from behind the version on, and the body.
pub open spec fn parse_settings(bytes: Seq<u8>, at: int) -> core::result::Result<
    GraphView,
    ErrorView,
> {
    match number(Format::Graph, bytes, at, 8) {
        Err(error) => Err(error),
        Ok((dimension, after_dimension)) => if dimension > usize::MAX {
            corrupt("HNSW dimension is too large"@)
        } else {
            match number(Format::Graph, bytes, after_dimension, 1) {
                Err(error) => Err(error),
                Ok((tag, after_tag)) => match parse_tag(tag) {
                    Err(error) => Err(error),
                    Ok(metric) => match number(Format::Graph, bytes, after_tag, 4) {
                        Err(error) => Err(error),
                        Ok((m, after_m)) => match number(Format::Graph, bytes, after_m, 4) {
                            Err(error) => Err(error),
                            Ok((ef, after_ef)) => {
                                let config = HnswConfig {
                                    m: m as usize,
                                    ef_construction: ef as usize,
                                };
                                match config_verdict(dimension as usize, config) {
                                    Err(error) => corrupt(error.message()),
                                    Ok(_) => parse_body(
                                        bytes,
                                        after_ef,
                                        dimension as usize,
                                        metric,
                                        config,
                                    ),
                                }
                            },
                        },
                    },
                },
            }
        },
    }
}

/// The graph that bytes stand for, or what is wrong with them.
#[verifier::opaque]
pub open spec fn parse_graph(bytes: Seq<u8>) -> core::result::Result<GraphView, ErrorView> {
    match take(Format::Graph, bytes, 0, 4) {
        Err(error) => Err(error),
        Ok((magic, after_magic)) => if magic != graph_magic() {
            corrupt("invalid HNSW graph header"@)
        } else {
            match number(Format::Graph, bytes, after_magic, 1) {
                Err(error) => Err(error),
                Ok((version, after_version)) => if version != GRAPH_VERSION {
                    corrupt("invalid HNSW graph header"@)
                } else {
                    parse_settings(bytes, after_version)
                },
            }
        },
    }
}

/// A decoder that has kept its bytes and its format.
pub open spec fn same_source(before: Decoder, after: Decoder) -> bool {
    &&& after.bytes == before.bytes
    &&& after.format == before.format
    &&& after.wf()
}

/// Reads a count.
pub(crate) fn read_count(decoder: &mut Decoder) -> (result: Result<usize>)
    requires
        old(decoder).wf(),
    ensures
        same_source(*old(decoder), *final(decoder)),
        match number(
            old(decoder).format,
            old(decoder).bytes@,
            old(decoder).position as int,
            4,
        ) {
            Ok((value, next)) => {
                &&& result is Ok
                &&& result->Ok_0 == value
                &&& value <= 0xffff_ffff
                &&& final(decoder).position == next
            },
            Err(error) => result is Err && result->Err_0@ == error,
        },
{
    proof {
        lemma_byte_ranges();
    }
    let value: u64 = decoder.number(4)?;
    Ok(value as usize)
}

fn read_vector(decoder: &mut Decoder, dimension: usize) -> (result: Result<Vec<u32>>)
    requires
        old(decoder).wf(),
        old(decoder).format == Format::Graph,
    ensures
        same_source(*old(decoder), *final(decoder)),
        match repeated(
            component_step(old(decoder).bytes@),
            old(decoder).position as int,
            dimension as nat,
        ) {
            Ok((vector, next)) => result is Ok && result->Ok_0@ == vector && final(decoder).position == next && all_finite(vector) && vector.len() == dimension,
            Err(error) => result is Err && result->Err_0@ == error,
        },
{
    let ghost bytes = decoder.bytes@;
    let ghost start = decoder.position as int;
    let ghost step = component_step(bytes);
    let mut vector: Vec<u32> = Vec::new();
    let mut i: usize = 0;
    assert(vector@ =~= Seq::empty());
    while i < dimension
        invariant
            i <= dimension,
            same_source(*old(decoder), *decoder),
            decoder.format == Format::Graph,
            bytes == decoder.bytes@,
            start == old(decoder).position,
            step == component_step(bytes),
            repeated(step, start, i as nat) == Ok::<(Seq<u32>, int), ErrorView>(
                (vector@, decoder.position as int),
            ),
            vector@.len() == i,
            all_finite(vector@),
        decreases dimension - i,
    {
        proof {
            lemma_byte_ranges();
            if repeated(step, start, (i + 1) as nat) is Err {
                lemma_repeated_error(step, start, (i + 1) as nat, dimension as nat);
            }
        }
        let bits: u64 = decoder.number(4)?;
        if !is_single_finite(bits as u32) {
            return Err(Error::corrupt("HNSW graph contains a non-finite vector"));
        }
        vector.push(bits as u32);
        i = i + 1;
    }
    Ok(vector)
}

fn read_layer(decoder: &mut Decoder, m: usize) -> (result: Result<Vec<usize>>)
    requires
        old(decoder).wf(),
        old(decoder).format == Format::Graph,
    ensures
        same_source(*old(decoder), *final(decoder)),
        match (layer_step(old(decoder).bytes@, m))(
            Seq::empty(),
            old(decoder).position as int,
        ) {
            Ok((list, next)) => result is Ok && result->Ok_0@ == list && final(decoder).position
                == next && list.len() <= m,
            Err(error) => result is Err && result->Err_0@ == error,
        },
{
    let ghost bytes = decoder.bytes@;
    let count: usize = read_count(decoder)?;
    if count > m {
        return Err(Error::corrupt("HNSW neighbor list exceeds configured m"));
    }
    let ghost start = decoder.position as int;
    let ghost step = index_step(bytes);
    let mut list: Vec<usize> = Vec::new();
    let mut i: usize = 0;
    assert(list@ =~= Seq::empty());
    while i < count
        invariant
            i <= count,
            same_source(*old(decoder), *decoder),
            decoder.format == Format::Graph,
            bytes == decoder.bytes@,
            bytes == old(decoder).bytes@,
            step == index_step(bytes),
            count <= m,
            (layer_step(bytes, m))(Seq::empty(), old(decoder).position as int) == repeated(
                step,
                start,
                count as nat,
            ),
            repeated(step, start, i as nat) == Ok::<(Seq<usize>, int), ErrorView>(
                (list@, decoder.position as int),
            ),
            list@.len() == i,
        decreases count - i,
    {
        proof {
            if repeated(step, start, (i + 1) as nat) is Err {
                lemma_repeated_error(step, start, (i + 1) as nat, count as nat);
            }
        }
        list.push(read_count(decoder)?);
        i = i + 1;
    }
    Ok(list)
}

fn read_layers(decoder: &mut Decoder, m: usize) -> (result: Result<Vec<Vec<usize>>>)
    requires
        old(decoder).wf(),
        old(decoder).format == Format::Graph,
    ensures
        same_source(*old(decoder), *final(decoder)),
        match parse_layers(old(decoder).bytes@, m, old(decoder).position as int) {
            Ok((layers, next)) => {
                &&& result is Ok
                &&& views(result->Ok_0@) == layers
                &&& final(decoder).position == next
                &&& 1 <= layers.len() <= MAX_LEVEL + 1
                &&& forall|l: int| 0 <= l < layers.len() ==> (#[trigger] layers[l]).len() <= m
            },
            Err(error) => result is Err && result->Err_0@ == error,
        },
{
    let ghost bytes = decoder.bytes@;
    let count: usize = read_count(decoder)?;
    if count == 0 || count > MAX_LEVEL + 1 {
        return Err(Error::corrupt("HNSW node has an invalid layer count"));
    }
    let ghost start = decoder.position as int;
    let ghost step = layer_step(bytes, m);
    let mut layers: Vec<Vec<usize>> = Vec::new();
    let mut i: usize = 0;
    assert(views(layers@) =~= Seq::empty());
    while i < count
        invariant
            i <= count,
            1 <= count <= MAX_LEVEL + 1,
            same_source(*old(decoder), *decoder),
            decoder.format == Format::Graph,
            bytes == decoder.bytes@,
            bytes == old(decoder).bytes@,
            step == layer_step(bytes, m),
            parse_layers(bytes, m, old(decoder).position as int) == repeated(
                step,
                start,
                count as nat,
            ),
            repeated(step, start, i as nat) == Ok::<(Seq<Seq<usize>>, int), ErrorView>(
                (views(layers@), decoder.position as int),
            ),
            layers@.len() == i,
            forall|l: int| 0 <= l < layers@.len() ==> (#[trigger] layers@[l])@.len() <= m,
        decreases count - i,
    {
        proof {
            if repeated(step, start, (i + 1) as nat) is Err {
                lemma_repeated_error(step, start, (i + 1) as nat, count as nat);
            }
            assert(step(views(layers@), decoder.position as int) == step(
                Seq::empty(),
                decoder.position as int,
            ));
        }
        let ghost before = layers@;
        let list = read_layer(decoder, m)?;
        layers.push(list);
        assert(views(layers@) =~= views(before).push(list@));
        i = i + 1;
    }
    Ok(layers)
}

fn read_text(decoder: &mut Decoder) -> (result: Result<String>)
    requires
        old(decoder).wf(),
        old(decoder).format == Format::Graph,
    ensures
        same_source(*old(decoder), *final(decoder)),
        match parse_text(old(decoder).bytes@, old(decoder).position as int) {
            Ok((value, next)) => result is Ok && result->Ok_0@ == value && final(decoder).position
                == next,
            Err(error) => result is Err && result->Err_0@ == error,
        },
{
    let length: usize = read_count(decoder)?;
    decoder.text(length)
}

fn read_node(
    decoder: &mut Decoder,
    dimension: usize,
    m: usize,
    ids: &mut IdSet,
    Ghost(done): Ghost<Seq<NodeView>>,
) -> (result: Result<Node>)
    requires
        old(decoder).wf(),
        old(decoder).format == Format::Graph,
        old(ids).wf(),
        forall|id: Seq<char>| #[trigger] old(ids)@.contains(id) <==> !is_new(done, id),
    ensures
        same_source(*old(decoder), *final(decoder)),
        final(ids).wf(),
        match (node_step(old(decoder).bytes@, dimension, m))(
            done,
            old(decoder).position as int,
        ) {
            Ok((node, next)) => {
                &&& result is Ok
                &&& result->Ok_0@ == node
                &&& final(decoder).position == next
                &&& final(ids)@ == old(ids)@.insert(node.id)
                &&& is_new(done, node.id)
                &&& node.id.len() > 0
                &&& node.vector.len() == dimension
                &&& all_finite(node.vector)
                &&& 1 <= node.neighbors.len() <= MAX_LEVEL + 1
                &&& forall|l: int|
                    0 <= l < node.neighbors.len() ==> (#[trigger] node.neighbors[l]).len() <= m
            },
            Err(error) => result is Err && result->Err_0@ == error,
        },
{
    let id = read_text(decoder)?;
    if id.as_str().is_empty() {
        return Err(Error::corrupt("HNSW graph contains an empty or duplicate ID"));
    }
    if !ids.insert(id.clone()) {
        return Err(Error::corrupt("HNSW graph contains an empty or duplicate ID"));
    }
    let vector = read_vector(decoder, dimension)?;
    let neighbors = read_layers(decoder, m)?;
    Ok(Node { id, vector, neighbors })
}

fn parse_metric(tag: u8) -> (result: Result<Metric>)
    ensures
        match parse_tag(tag as nat) {
            Ok(metric) => result is Ok && result->Ok_0 == metric,
            Err(error) => result is Err && result->Err_0@ == error,
        },
{
    if tag == 1 {
        Ok(Metric::Cosine)
    } else if tag == 2 {
        Ok(Metric::DotProduct)
    } else if tag == 3 {
        Ok(Metric::Euclidean)
    } else {
        let number = decimal_text(tag as u64);
        Err(Error::CorruptStorage(join("unknown HNSW metric tag ", number.as_str())))
    }
}

/// A node as its own parts have it, apart from where its links lead.
pub open spec fn node_shaped(node: NodeView, dimension: usize, m: usize) -> bool {
    &&& node.id.len() > 0
    &&& node.vector.len() == dimension
    &&& all_finite(node.vector)
    &&& 1 <= node.neighbors.len() <= MAX_LEVEL + 1
    &&& forall|l: int| 0 <= l < node.neighbors.len() ==> (#[trigger] node.neighbors[l]).len() <= m
}

/// Nodes read back: each in shape, no two with one ID.
pub open spec fn nodes_shaped(nodes: Seq<NodeView>, dimension: usize, m: usize) -> bool {
    &&& forall|i: int| 0 <= i < nodes.len() ==> node_shaped(#[trigger] nodes[i], dimension, m)
    &&& ids_distinct(nodes)
}

fn read_nodes(decoder: &mut Decoder, dimension: usize, m: usize, count: usize) -> (result: Result<
    Vec<Node>,
>)
    requires
        old(decoder).wf(),
        old(decoder).format == Format::Graph,
    ensures
        same_source(*old(decoder), *final(decoder)),
        match repeated(
            node_step(old(decoder).bytes@, dimension, m),
            old(decoder).position as int,
            count as nat,
        ) {
            Ok((nodes, next)) => {
                &&& result is Ok
                &&& views(result->Ok_0@) == nodes
                &&& final(decoder).position == next
                &&& nodes.len() == count
                &&& nodes_shaped(nodes, dimension, m)
            },
            Err(error) => result is Err && result->Err_0@ == error,
        },
{
    let ghost bytes = decoder.bytes@;
    let ghost start = decoder.position as int;
    let ghost step = node_step(bytes, dimension, m);
    let mut nodes: Vec<Node> = Vec::new();
    let mut ids = IdSet::new();
    let mut i: usize = 0;
    proof {
        assert(views(nodes@) =~= Seq::empty());
        assert forall|id: Seq<char>| #[trigger] ids@.contains(id) <==> !is_new(
            views(nodes@),
            id,
        ) by {}
    }
    while i < count
        invariant
            i <= count,
            same_source(*old(decoder), *decoder),
            decoder.format == Format::Graph,
            bytes == decoder.bytes@,
            bytes == old(decoder).bytes@,
            start == old(decoder).position,
            step == node_step(bytes, dimension, m),
            repeated(step, start, i as nat) == Ok::<(Seq<NodeView>, int), ErrorView>(
                (views(nodes@), decoder.position as int),
            ),
            nodes@.len() == i,
            nodes_shaped(views(nodes@), dimension, m),
            ids.wf(),
            forall|id: Seq<char>| #[trigger] ids@.contains(id) <==> !is_new(views(nodes@), id),
        decreases count - i,
    {
        proof {
            if repeated(step, start, (i + 1) as nat) is Err {
                lemma_repeated_error(step, start, (i + 1) as nat, count as nat);
            }
        }
        let ghost done = views(nodes@);
        let ghost known = ids@;
        let node = read_node(decoder, dimension, m, &mut ids, Ghost(done))?;
        let ghost view = node@;
        nodes.push(node);
        proof {
            let longer = views(nodes@);
            assert(longer =~= done.push(view));
            assert forall|x: int| 0 <= x < longer.len() implies node_shaped(
                #[trigger] longer[x],
                dimension,
                m,
            ) by {
                if x < done.len() {
                    assert(longer[x] == done[x]);
                }
            }
            assert forall|x: int, y: int| 0 <= x < y < longer.len() implies (
            #[trigger] longer[x]).id != (#[trigger] longer[y]).id by {
                assert(longer[x] == done[x]);
                if y < done.len() {
                    assert(longer[y] == done[y]);
                }
            }
            assert forall|id: Seq<char>| #[trigger] ids@.contains(id) <==> !is_new(longer, id) by {
                if !is_new(done, id) {
                    let x = choose|x: int| 0 <= x < done.len() && (#[trigger] done[x]).id == id;
                    assert(longer[x].id == id);
                }
                if id == view.id {
                    assert(longer[done.len() as int].id == id);
                }
                if !is_new(longer, id) {
                    let x = choose|x: int| 0 <= x < longer.len() && (#[trigger] longer[x]).id == id;
                    if x < done.len() {
                        assert(done[x].id == id);
                    }
                }
            }
        }
        i = i + 1;
    }
    Ok(nodes)
}

/// Whether a list of links leads to other nodes of a graph.
fn is_within_graph(count: usize, node: usize, list: &Vec<usize>) -> (within: bool)
    ensures
        within == within_graph(count as nat, node as int, list@),
{
    let mut j: usize = 0;
    while j < list.len()
        invariant
            j <= list@.len(),
            forall|x: int| 0 <= x < j ==> (#[trigger] list@[x]) < count && list@[x] != node,
        decreases list.len() - j,
    {
        if list[j] >= count || list[j] == node {
            assert(!(list@[j as int] < count && list@[j as int] != node));
            return false;
        }
        j = j + 1;
    }
    true
}

/// Whether the links of all nodes lead to other nodes of the graph.
fn are_within_graph(nodes: &Vec<Node>, Ghost(g): Ghost<GraphView>) -> (within: bool)
    requires
        views(nodes@) == g.nodes,
    ensures
        within == (forall|i: int| 0 <= i < g.nodes.len() ==> #[trigger] leads_within(g, i)),
{
    let mut i: usize = 0;
    while i < nodes.len()
        invariant
            i <= nodes@.len(),
            views(nodes@) == g.nodes,
            forall|x: int| 0 <= x < i ==> #[trigger] leads_within(g, x),
        decreases nodes.len() - i,
    {
        let ghost layers = g.nodes[i as int].neighbors;
        assert(g.nodes[i as int] == nodes@[i as int]@);
        let mut l: usize = 0;
        while l < nodes[i].neighbors.len()
            invariant
                i < nodes@.len(),
                views(nodes@) == g.nodes,
                layers == views(nodes@[i as int].neighbors@),
                layers == g.nodes[i as int].neighbors,
                l <= layers.len(),
                forall|x: int|
                    0 <= x < l ==> within_graph(g.nodes.len(), i as int, #[trigger] layers[x]),
            decreases layers.len() - l,
        {
            assert(layers[l as int] == nodes@[i as int].neighbors@[l as int]@);
            if !is_within_graph(nodes.len(), i, &nodes[i].neighbors[l]) {
                assert(!within_graph(g.nodes.len(), i as int, g.nodes[i as int].neighbors[l as int]));
                assert(!leads_within(g, i as int));
                return false;
            }
            l = l + 1;
        }
        assert(leads_within(g, i as int));
        i = i + 1;
    }
    true
}

pub(crate) proof fn lemma_checked_valid(g: GraphView)
    requires
        config_verdict(g.dimension, g.config) is Ok,
        nodes_shaped(g.nodes, g.dimension, g.config.m),
        g.max_level <= MAX_LEVEL,
        checked(g) is Ok,
    ensures
        valid(g),
{
    assert forall|i: int| 0 <= i < g.nodes.len() implies #[trigger] node_valid(g, i) by {
        assert(node_shaped(g.nodes[i], g.dimension, g.config.m));
        assert(leads_within(g, i));
        assert forall|l: int| 0 <= l < g.nodes[i].neighbors.len() implies links_valid(
            g,
            i,
            #[trigger] g.nodes[i].neighbors[l],
        ) by {
            assert(within_graph(g.nodes.len(), i, g.nodes[i].neighbors[l]));
        }
    }
}

impl HnswIndex {
    /// Reads a graph back from its binary form.
    pub fn decode(bytes: &[u8]) -> (result: Result<HnswIndex>)
        ensures
            match parse_graph(bytes@) {
                Ok(graph) => {
                    &&& result is Ok
                    &&& result->Ok_0@ == graph
                    &&& result->Ok_0.wf()
                    &&& nodes_shaped(graph.nodes, graph.dimension, graph.config.m)
                },
                Err(error) => result is Err && result->Err_0@ == error,
            },
    {
        reveal(parse_graph);
        let mut decoder = Decoder::new(bytes, Format::Graph);
        let magic = decoder.take(4)?;
        if magic[0] != 0x46 || magic[1] != 0x56 || magic[2] != 0x48 || magic[3] != 0x47 {
            return Err(Error::corrupt("invalid HNSW graph header"));
        }
        assert(magic@ =~= graph_magic());
        let version: u8 = decoder.byte()?;
        if version != GRAPH_VERSION {
            return Err(Error::corrupt("invalid HNSW graph header"));
        }
        let dimension: u64 = decoder.number(8)?;
        if dimension > usize::MAX as u64 {
            return Err(Error::corrupt("HNSW dimension is too large"));
        }
        let dimension: usize = dimension as usize;
        let tag: u8 = decoder.byte()?;
        let metric = parse_metric(tag)?;
        let m: usize = read_count(&mut decoder)?;
        let ef_construction: usize = read_count(&mut decoder)?;
        let config = HnswConfig { m, ef_construction };
        match validate_config(dimension, config) {
            Err(error) => {
                return Err(Error::CorruptStorage(error.message()));
            },
            Ok(_) => {},
        }
        HnswIndex::decode_body(decoder, dimension, metric, config)
    }

    fn decode_body(
        decoder: Decoder,
        dimension: usize,
        metric: Metric,
        config: HnswConfig,
    ) -> (result: Result<HnswIndex>)
        requires
            decoder.wf(),
            decoder.format == Format::Graph,
            config_verdict(dimension, config) is Ok,
        ensures
            match parse_body(
                decoder.bytes@,
                decoder.position as int,
                dimension,
                metric,
                config,
            ) {
                Ok(graph) => {
                    &&& result is Ok
                    &&& result->Ok_0@ == graph
                    &&& result->Ok_0.wf()
                    &&& nodes_shaped(graph.nodes, graph.dimension, graph.config.m)
                },
                Err(error) => result is Err && result->Err_0@ == error,
            },
    {
        let mut decoder = decoder;
        let count: usize = read_count(&mut decoder)?;
        if count > MAX_NODES {
            return Err(Error::corrupt("HNSW node count exceeds limit"));
        }
        let entry: u64 = decoder.number(8)?;
        if entry != u64::MAX && entry > usize::MAX as u64 {
            return Err(Error::corrupt("HNSW entry point is too large"));
        }
        let entry_point: Option<usize> = if entry == u64::MAX {
            None
        } else {
            Some(entry as usize)
        };
        let max_level: usize = read_count(&mut decoder)?;
        if max_level > MAX_LEVEL {
            return Err(Error::corrupt("HNSW level exceeds limit"));
        }
        let nodes = read_nodes(&mut decoder, dimension, config.m, count)?;
        decoder.finish()?;
        let ghost graph = GraphView {
            dimension,
            metric,
            config,
            nodes: views(nodes@),
            entry_point,
            max_level,
        };
        if count == 0 {
            if entry_point.is_some() || max_level != 0 {
                return Err(Error::corrupt("empty HNSW graph has an entry point"));
            }
        } else {
            match entry_point {
                None => {
                    return Err(Error::corrupt("non-empty HNSW graph has no entry point"));
                },
                Some(index) => {
                    if index >= count {
                        return Err(Error::corrupt("invalid HNSW entry point"));
                    }
                    assert(graph.nodes[index as int] == nodes@[index as int]@);
                    if nodes[index].neighbors.len() <= max_level {
                        return Err(Error::corrupt("invalid HNSW entry point"));
                    }
                },
            }
        }
        if !are_within_graph(&nodes, Ghost(graph)) {
            return Err(Error::corrupt("HNSW graph contains an invalid neighbor"));
        }
        let index = HnswIndex { dimension, metric, config, nodes, entry_point, max_level };
        proof {
            assert(index@ == graph);
            lemma_checked_valid(graph);
        }
        Ok(index)
    }
}

/// A single byte that stands at a position is read from there.
pub proof fn lemma_byte_stands(format: Format, bytes: Seq<u8>, at: int, value: u8)
    requires
        stands_at(bytes, at, seq![value]),
        bytes.len() <= usize::MAX,
    ensures
        number(format, bytes, at, 1) == Ok::<(nat, int), ErrorView>((value as nat, at + 1)),
{
    lemma_take_stands(format, bytes, at, seq![value]);
    assert(seq![value].drop_first() =~= Seq::empty());
    reveal_with_fuel(crate::bytes::le_value, 2);
}

/// Text is read back.
proof fn lemma_text_round_trip(bytes: Seq<u8>, at: int, value: Seq<char>)
    requires
        stands_at(bytes, at, text_bytes(value)),
        bytes.len() <= usize::MAX,
        fits_count(encode_utf8(value).len()),
    ensures
        parse_text(bytes, at) == Ok::<(Seq<char>, int), ErrorView>(
            (value, at + text_bytes(value).len()),
        ),
{
    let length = encode_utf8(value).len();
    lemma_byte_ranges();
    lemma_stands_split(bytes, at, le(length, 4), encode_utf8(value));
    lemma_number_stands(Format::Graph, bytes, at, length, 4);
    lemma_text_stands(Format::Graph, bytes, at + 4, value);
}

/// A vector is read back.
proof fn lemma_vector_round_trip(bytes: Seq<u8>, at: int, vector: Seq<u32>)
    requires
        stands_at(bytes, at, joined(vector, component_bytes())),
        bytes.len() <= usize::MAX,
        all_finite(vector),
    ensures
        repeated(component_step(bytes), at, vector.len()) == Ok::<(Seq<u32>, int), ErrorView>(
            (vector, at + joined(vector, component_bytes()).len()),
        ),
{
    let step = component_step(bytes);
    let encode = component_bytes();
    assert forall|i: int, p: int|
        0 <= i < vector.len() && #[trigger] stands_at(bytes, p, encode(vector[i])) implies step(
        vector.take(i),
        p,
    ) == Ok::<(u32, int), ErrorView>((vector[i], p + encode(vector[i]).len())) by {
        lemma_byte_ranges();
        lemma_number_stands(Format::Graph, bytes, p, vector[i] as nat, 4);
        assert(single_finite(vector[i]));
    }
    lemma_repeated_round_trip(step, encode, vector, bytes, at);
}

/// A list of links is read back.
proof fn lemma_layer_round_trip(
    bytes: Seq<u8>,
    at: int,
    m: usize,
    done: Seq<Seq<usize>>,
    list: Seq<usize>,
)
    requires
        stands_at(bytes, at, (layer_bytes())(list)),
        bytes.len() <= usize::MAX,
        layer_fits(list),
        list.len() <= m,
    ensures
        (layer_step(bytes, m))(done, at) == Ok::<(Seq<usize>, int), ErrorView>(
            (list, at + (layer_bytes())(list).len()),
        ),
{
    let step = index_step(bytes);
    let encode = index_bytes();
    lemma_byte_ranges();
    lemma_stands_split(bytes, at, le(list.len(), 4), joined(list, encode));
    lemma_number_stands(Format::Graph, bytes, at, list.len(), 4);
    assert forall|i: int, p: int|
        0 <= i < list.len() && #[trigger] stands_at(bytes, p, encode(list[i])) implies step(
        list.take(i),
        p,
    ) == Ok::<(usize, int), ErrorView>((list[i], p + encode(list[i]).len())) by {
        assert(fits_count(list[i] as nat));
        lemma_number_stands(Format::Graph, bytes, p, list[i] as nat, 4);
    }
    lemma_repeated_round_trip(step, encode, list, bytes, at + 4);
}

/// A node is read back.
proof fn lemma_node_round_trip(
    bytes: Seq<u8>,
    at: int,
    dimension: usize,
    m: usize,
    done: Seq<NodeView>,
    node: NodeView,
)
    requires
        stands_at(bytes, at, (node_bytes())(node)),
        bytes.len() <= usize::MAX,
        node_fits(node),
        node_shaped(node, dimension, m),
        is_new(done, node.id),
    ensures
        (node_step(bytes, dimension, m))(done, at) == Ok::<(NodeView, int), ErrorView>(
            (node, at + (node_bytes())(node).len()),
        ),
{
    let id = text_bytes(node.id);
    let vector = joined(node.vector, component_bytes());
    let count = le(node.neighbors.len(), 4);
    let layers = joined(node.neighbors, layer_bytes());
    lemma_byte_ranges();
    lemma_stands_split(bytes, at, id, vector + (count + layers));
    lemma_stands_split(bytes, at + id.len(), vector, count + layers);
    lemma_stands_split(bytes, at + id.len() + vector.len(), count, layers);
    lemma_text_round_trip(bytes, at, node.id);
    lemma_vector_round_trip(bytes, at + id.len(), node.vector);
    let at_count = at + id.len() + vector.len();
    lemma_number_stands(Format::Graph, bytes, at_count, node.neighbors.len(), 4);
    let step = layer_step(bytes, m);
    let encode = layer_bytes();
    assert forall|i: int, p: int|
        0 <= i < node.neighbors.len() && #[trigger] stands_at(
            bytes,
            p,
            encode(node.neighbors[i]),
        ) implies step(node.neighbors.take(i), p) == Ok::<(Seq<usize>, int), ErrorView>(
        (node.neighbors[i], p + encode(node.neighbors[i]).len()),
    ) by {
        assert(layer_fits(node.neighbors[i]));
        lemma_layer_round_trip(bytes, p, m, node.neighbors.take(i), node.neighbors[i]);
    }
    lemma_repeated_round_trip(step, encode, node.neighbors, bytes, at_count + 4);
}

/// What stands in the bytes of a graph before its nodes.
#[verifier::rlimit(50)]
#[verifier::spinoff_prover]
pub(crate) proof fn lemma_head_stands(g: GraphView)
    requires
        graph_fits(g),
        graph_bytes(g).len() <= usize::MAX,
    ensures
        ({
            let bytes = graph_bytes(g);
            &&& stands_at(bytes, 0, graph_magic())
            &&& stands_at(bytes, 4, seq![GRAPH_VERSION])
            &&& stands_at(bytes, 5, le(g.dimension as nat, 8))
            &&& stands_at(bytes, 13, seq![tag_of(g.metric)])
            &&& stands_at(bytes, 14, le(g.config.m as nat, 4))
            &&& stands_at(bytes, 18, le(g.config.ef_construction as nat, 4))
            &&& stands_at(bytes, 22, le(g.nodes.len(), 4))
            &&& stands_at(bytes, 26, le(entry_number(g.entry_point), 8))
            &&& stands_at(bytes, 34, le(g.max_level as nat, 4))
            &&& stands_at(bytes, 38, joined(g.nodes, node_bytes()))
            &&& bytes.len() == 38 + joined(g.nodes, node_bytes()).len()
        }),
{
    let bytes = graph_bytes(g);
    let h1 = graph_magic();
    let h2 = h1 + seq![GRAPH_VERSION];
    let h3 = h2 + le(g.dimension as nat, 8);
    let h4 = h3 + seq![tag_of(g.metric)];
    let h5 = h4 + le(g.config.m as nat, 4);
    let h6 = h5 + le(g.config.ef_construction as nat, 4);
    let h7 = h6 + le(g.nodes.len(), 4);
    let h8 = h7 + le(entry_number(g.entry_point), 8);
    let h9 = h8 + le(g.max_level as nat, 4);
    let body = joined(g.nodes, node_bytes());
    assert(h9 == graph_head(g));
    lemma_le_round_trip(g.dimension as nat, 8);
    lemma_le_round_trip(g.config.m as nat, 4);
    lemma_le_round_trip(g.config.ef_construction as nat, 4);
    lemma_le_round_trip(g.nodes.len(), 4);
    lemma_le_round_trip(entry_number(g.entry_point), 8);
    lemma_le_round_trip(g.max_level as nat, 4);
    assert(bytes.subrange(0, bytes.len() as int) =~= bytes);
    assert(stands_at(bytes, 0, h9 + body));
    lemma_stands_split(bytes, 0, h9, body);
    lemma_stands_split(bytes, 0, h8, le(g.max_level as nat, 4));
    lemma_stands_split(bytes, 0, h7, le(entry_number(g.entry_point), 8));
    lemma_stands_split(bytes, 0, h6, le(g.nodes.len(), 4));
    lemma_stands_split(bytes, 0, h5, le(g.config.ef_construction as nat, 4));
    lemma_stands_split(bytes, 0, h4, le(g.config.m as nat, 4));
    lemma_stands_split(bytes, 0, h3, seq![tag_of(g.metric)]);
    lemma_stands_split(bytes, 0, h2, le(g.dimension as nat, 8));
    lemma_stands_split(bytes, 0, h1, seq![GRAPH_VERSION]);
}

/// The nodes of a graph are read back.
pub(crate) proof fn lemma_nodes_round_trip(g: GraphView, bytes: Seq<u8>)
    requires
        valid(g),
        graph_fits(g),
        forall|i: int| 0 <= i < g.nodes.len() ==> all_finite((#[trigger] g.nodes[i]).vector),
        bytes.len() <= usize::MAX,
        stands_at(bytes, 38, joined(g.nodes, node_bytes())),
    ensures
        repeated(node_step(bytes, g.dimension, g.config.m), 38, g.nodes.len()) == Ok::<
            (Seq<NodeView>, int),
            ErrorView,
        >((g.nodes, 38int + joined(g.nodes, node_bytes()).len())),
{
    let step = node_step(bytes, g.dimension, g.config.m);
    let encode = node_bytes();
    assert forall|i: int, p: int|
        0 <= i < g.nodes.len() && #[trigger] stands_at(bytes, p, encode(g.nodes[i])) implies step(
        g.nodes.take(i),
        p,
    ) == Ok::<(NodeView, int), ErrorView>((g.nodes[i], p + encode(g.nodes[i]).len())) by {
        assert(node_valid(g, i));
        assert(node_fits(g.nodes[i]));
        assert(all_finite(g.nodes[i].vector));
        assert forall|l: int| 0 <= l < g.nodes[i].neighbors.len() implies (
        #[trigger] g.nodes[i].neighbors[l]).len() <= g.config.m by {
            assert(links_valid(g, i, g.nodes[i].neighbors[l]));
        }
        assert forall|x: int| 0 <= x < g.nodes.take(i).len() implies (
        #[trigger] g.nodes.take(i)[x]).id != g.nodes[i].id by {
            assert(g.nodes.take(i)[x] == g.nodes[x]);
            assert(g.nodes[x].id != g.nodes[i].id);
        }
        lemma_node_round_trip(
            bytes,
            p,
            g.dimension,
            g.config.m,
            g.nodes.take(i),
            g.nodes[i],
        );
    }
    lemma_repeated_round_trip(step, encode, g.nodes, bytes, 38);
}

/// A graph survives its binary form: what is read from the bytes of a valid
/// graph is that graph. (A graph with a component that is not finite, or with
/// more nodes than the format allows, is refused when it is read.)
pub proof fn law_graph_round_trips(g: GraphView)
    requires
        valid(g),
        graph_fits(g),
        g.nodes.len() <= MAX_NODES,
        forall|i: int| 0 <= i < g.nodes.len() ==> all_finite((#[trigger] g.nodes[i]).vector),
        graph_bytes(g).len() <= usize::MAX,
    ensures
        parse_graph(graph_bytes(g)) == Ok::<GraphView, ErrorView>(g),
{
    reveal(parse_graph);
    let bytes = graph_bytes(g);
    lemma_byte_ranges();
    lemma_head_stands(g);
    lemma_nodes_round_trip(g, bytes);
    lemma_take_stands(Format::Graph, bytes, 0, graph_magic());
    lemma_byte_stands(Format::Graph, bytes, 4, GRAPH_VERSION);
    lemma_number_stands(Format::Graph, bytes, 5, g.dimension as nat, 8);
    lemma_byte_stands(Format::Graph, bytes, 13, tag_of(g.metric));
    lemma_number_stands(Format::Graph, bytes, 14, g.config.m as nat, 4);
    lemma_number_stands(Format::Graph, bytes, 18, g.config.ef_construction as nat, 4);
    lemma_number_stands(Format::Graph, bytes, 22, g.nodes.len(), 4);
    lemma_number_stands(Format::Graph, bytes, 26, entry_number(g.entry_point), 8);
    lemma_number_stands(Format::Graph, bytes, 34, g.max_level as nat, 4);
    assert forall|i: int| 0 <= i < g.nodes.len() implies #[trigger] leads_within(g, i) by {
        assert(node_valid(g, i));
        assert forall|l: int| 0 <= l < g.nodes[i].neighbors.len() implies within_graph(
            g.nodes.len(),
            i,
            #[trigger] g.nodes[i].neighbors[l],
        ) by {
            assert(links_valid(g, i, g.nodes[i].neighbors[l]));
        }
    }
    assert(checked(g) == Ok::<GraphView, ErrorView>(g));
    assert(parse_body(bytes, 22, g.dimension, g.metric, g.config) == Ok::<GraphView, ErrorView>(g));
    assert(parse_settings(bytes, 5) == Ok::<GraphView, ErrorView>(g));
}

} // verus!
