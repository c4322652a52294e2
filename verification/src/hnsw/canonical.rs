//! Why a graph has one binary form.
use crate::bytes::{
    joined, le, lemma_byte_ranges, lemma_number_read, lemma_number_stands, lemma_repeated_corrupt,
    lemma_repeated_read, lemma_stands_join, lemma_take_stands, number, repeated, stands_at, take,
    Format,
};
use crate::error::ErrorView;
use crate::hnsw::codec::{
    component_bytes, component_step, entry_number, fits_count, graph_bytes, graph_fits, graph_head,
    graph_magic, index_bytes, index_step, layer_bytes, layer_fits, layer_step, lemma_byte_stands,
    lemma_checked_valid, lemma_head_stands, lemma_nodes_round_trip, node_bytes, node_fits,
    node_shaped, node_step, nodes_shaped, parse_body, parse_graph, parse_layers,
    parse_settings, parse_tag, parse_text, tag_of, text_bytes, GRAPH_VERSION, MAX_NODES,
};
use crate::hnsw::model::{valid, GraphView, HnswConfig, NodeView};
use crate::metric::all_finite;
use vstd::prelude::*;
use vstd::utf8::*;

verus! {

proof fn lemma_text_read(bytes: Seq<u8>, at: int)
    requires
        0 <= at,
        parse_text(bytes, at) is Ok,
    ensures
        ({
            let (value, next) = parse_text(bytes, at)->Ok_0;
            &&& stands_at(bytes, at, text_bytes(value))
            &&& next == at + text_bytes(value).len()
            &&& fits_count(encode_utf8(value).len())
        }),
{
    lemma_byte_ranges();
    lemma_number_read(Format::Graph, bytes, at, 4);
    let (length, start) = number(Format::Graph, bytes, at, 4)->Ok_0;
    let part = bytes.subrange(start, start + length);
    decode_utf8_encode_utf8(part);
    lemma_stands_join(bytes, at, le(length, 4), part);
}

proof fn lemma_vector_read(bytes: Seq<u8>, at: int, dimension: nat)
    requires
        0 <= at <= bytes.len(),
        repeated(component_step(bytes), at, dimension) is Ok,
    ensures
        ({
            let (vector, next) = repeated(component_step(bytes), at, dimension)->Ok_0;
            &&& vector.len() == dimension
            &&& all_finite(vector)
            &&& stands_at(bytes, at, joined(vector, component_bytes()))
            &&& next == at + joined(vector, component_bytes()).len()
        }),
{
    let step = component_step(bytes);
    let encode = component_bytes();
    lemma_byte_ranges();
    assert forall|done: Seq<u32>, p: int| 0 <= p && (#[trigger] step(done, p)) is Ok implies {
        let (value, next) = step(done, p)->Ok_0;
        stands_at(bytes, p, encode(value)) && next == p + encode(value).len()
    } by {
        lemma_number_read(Format::Graph, bytes, p, 4);
    }
    lemma_repeated_read(step, encode, bytes, at, dimension);
    lemma_components_finite(bytes, at, dimension);
}

proof fn lemma_components_finite(bytes: Seq<u8>, at: int, dimension: nat)
    requires
        repeated(component_step(bytes), at, dimension) is Ok,
    ensures
        all_finite(repeated(component_step(bytes), at, dimension)->Ok_0.0),
    decreases dimension,
{
    if dimension > 0 {
        lemma_components_finite(bytes, at, (dimension - 1) as nat);
    }
}

proof fn lemma_indices_fit(bytes: Seq<u8>, at: int, count: nat)
    requires
        0 <= at <= bytes.len(),
        repeated(index_step(bytes), at, count) is Ok,
    ensures
        ({
            let (list, next) = repeated(index_step(bytes), at, count)->Ok_0;
            &&& list.len() == count
            &&& forall|i: int| 0 <= i < list.len() ==> fits_count(#[trigger] list[i] as nat)
            &&& stands_at(bytes, at, joined(list, index_bytes()))
            &&& next == at + joined(list, index_bytes()).len()
        }),
    decreases count,
{
    let step = index_step(bytes);
    let encode = index_bytes();
    lemma_byte_ranges();
    assert forall|done: Seq<usize>, p: int| 0 <= p && (#[trigger] step(done, p)) is Ok implies {
        let (value, next) = step(done, p)->Ok_0;
        stands_at(bytes, p, encode(value)) && next == p + encode(value).len()
    } by {
        lemma_number_read(Format::Graph, bytes, p, 4);
    }
    lemma_repeated_read(step, encode, bytes, at, count);
    if count > 0 {
        lemma_indices_fit(bytes, at, (count - 1) as nat);
        let (done, next) = repeated(step, at, (count - 1) as nat)->Ok_0;
        lemma_number_read(Format::Graph, bytes, next, 4);
    }
}

proof fn lemma_layer_read(bytes: Seq<u8>, m: usize, done: Seq<Seq<usize>>, at: int)
    requires
        0 <= at,
        (layer_step(bytes, m))(done, at) is Ok,
    ensures
        ({
            let (list, next) = (layer_step(bytes, m))(done, at)->Ok_0;
            &&& layer_fits(list)
            &&& list.len() <= m
            &&& stands_at(bytes, at, (layer_bytes())(list))
            &&& next == at + (layer_bytes())(list).len()
        }),
{
    lemma_byte_ranges();
    lemma_number_read(Format::Graph, bytes, at, 4);
    let (count, start) = number(Format::Graph, bytes, at, 4)->Ok_0;
    lemma_indices_fit(bytes, start, count);
    let list = repeated(index_step(bytes), start, count)->Ok_0.0;
    lemma_stands_join(bytes, at, le(count, 4), joined(list, index_bytes()));
}

proof fn lemma_layers_fit(bytes: Seq<u8>, m: usize, at: int, count: nat)
    requires
        0 <= at <= bytes.len(),
        repeated(layer_step(bytes, m), at, count) is Ok,
    ensures
        ({
            let (layers, next) = repeated(layer_step(bytes, m), at, count)->Ok_0;
            &&& layers.len() == count
            &&& forall|l: int|
                0 <= l < layers.len() ==> layer_fits(#[trigger] layers[l]) && layers[l].len() <= m
            &&& stands_at(bytes, at, joined(layers, layer_bytes()))
            &&& next == at + joined(layers, layer_bytes()).len()
        }),
    decreases count,
{
    let step = layer_step(bytes, m);
    let encode = layer_bytes();
    assert forall|done: Seq<Seq<usize>>, p: int|
        0 <= p && (#[trigger] step(done, p)) is Ok implies {
        let (value, next) = step(done, p)->Ok_0;
        stands_at(bytes, p, encode(value)) && next == p + encode(value).len()
    } by {
        lemma_layer_read(bytes, m, done, p);
    }
    lemma_repeated_read(step, encode, bytes, at, count);
    if count > 0 {
        lemma_layers_fit(bytes, m, at, (count - 1) as nat);
        let (done, next) = repeated(step, at, (count - 1) as nat)->Ok_0;
        lemma_layer_read(bytes, m, done, next);
    }
}

proof fn lemma_node_read(
    bytes: Seq<u8>,
    dimension: usize,
    m: usize,
    done: Seq<NodeView>,
    at: int,
)
    requires
        0 <= at,
        (node_step(bytes, dimension, m))(done, at) is Ok,
    ensures
        ({
            let (node, next) = (node_step(bytes, dimension, m))(done, at)->Ok_0;
            &&& node_fits(node)
            &&& node_shaped(node, dimension, m)
            &&& stands_at(bytes, at, (node_bytes())(node))
            &&& next == at + (node_bytes())(node).len()
        }),
{
    let (node, end) = (node_step(bytes, dimension, m))(done, at)->Ok_0;
    lemma_byte_ranges();
    lemma_text_read(bytes, at);
    let after_id = parse_text(bytes, at)->Ok_0.1;
    lemma_vector_read(bytes, after_id, dimension as nat);
    let after_vector = repeated(component_step(bytes), after_id, dimension as nat)->Ok_0.1;
    lemma_number_read(Format::Graph, bytes, after_vector, 4);
    let (count, start) = number(Format::Graph, bytes, after_vector, 4)->Ok_0;
    lemma_layers_fit(bytes, m, start, count);
    let layers = joined(node.neighbors, layer_bytes());
    let vector = joined(node.vector, component_bytes());
    lemma_stands_join(bytes, after_vector, le(count, 4), layers);
    lemma_stands_join(bytes, after_id, vector, le(count, 4) + layers);
    lemma_stands_join(bytes, at, text_bytes(node.id), vector + (le(count, 4) + layers));
}

proof fn lemma_nodes_read(bytes: Seq<u8>, dimension: usize, m: usize, at: int, count: nat)
    requires
        0 <= at <= bytes.len(),
        repeated(node_step(bytes, dimension, m), at, count) is Ok,
    ensures
        ({
            let (nodes, next) = repeated(node_step(bytes, dimension, m), at, count)->Ok_0;
            &&& nodes.len() == count
            &&& nodes_shaped(nodes, dimension, m)
            &&& forall|i: int| 0 <= i < nodes.len() ==> node_fits(#[trigger] nodes[i])
            &&& stands_at(bytes, at, joined(nodes, node_bytes()))
            &&& next == at + joined(nodes, node_bytes()).len()
        }),
    decreases count,
{
    let step = node_step(bytes, dimension, m);
    let encode = node_bytes();
    assert forall|done: Seq<NodeView>, p: int| 0 <= p && (#[trigger] step(done, p)) is Ok implies {
        let (value, next) = step(done, p)->Ok_0;
        stands_at(bytes, p, encode(value)) && next == p + encode(value).len()
    } by {
        lemma_node_read(bytes, dimension, m, done, p);
    }
    lemma_repeated_read(step, encode, bytes, at, count);
    if count > 0 {
        lemma_nodes_read(bytes, dimension, m, at, (count - 1) as nat);
        let (done, next) = repeated(step, at, (count - 1) as nat)->Ok_0;
        lemma_node_read(bytes, dimension, m, done, next);
        let (nodes, end) = repeated(step, at, count)->Ok_0;
        assert forall|i: int| 0 <= i < nodes.len() implies node_shaped(
            #[trigger] nodes[i],
            dimension,
            m,
        ) && node_fits(nodes[i]) by {
            if i < done.len() {
                assert(nodes[i] == done[i]);
            }
        }
        assert forall|i: int, j: int| 0 <= i < j < nodes.len() implies (#[trigger] nodes[i]).id != (
        #[trigger] nodes[j]).id by {
            assert(nodes[i] == done[i]);
            if j < done.len() {
                assert(nodes[j] == done[j]);
            }
        }
    }
}

/// The nine parts at the front of a graph, each in its place, make up the front.
proof fn lemma_head_joined(bytes: Seq<u8>, g: GraphView)
    requires
        stands_at(bytes, 0, graph_magic()),
        stands_at(bytes, 4, seq![GRAPH_VERSION]),
        stands_at(bytes, 5, le(g.dimension as nat, 8)),
        stands_at(bytes, 13, seq![tag_of(g.metric)]),
        stands_at(bytes, 14, le(g.config.m as nat, 4)),
        stands_at(bytes, 18, le(g.config.ef_construction as nat, 4)),
        stands_at(bytes, 22, le(g.nodes.len(), 4)),
        stands_at(bytes, 26, le(entry_number(g.entry_point), 8)),
        stands_at(bytes, 34, le(g.max_level as nat, 4)),
        le(g.dimension as nat, 8).len() == 8,
        le(g.config.m as nat, 4).len() == 4,
        le(g.config.ef_construction as nat, 4).len() == 4,
        le(g.nodes.len(), 4).len() == 4,
        le(entry_number(g.entry_point), 8).len() == 8,
        le(g.max_level as nat, 4).len() == 4,
    ensures
        stands_at(bytes, 0, graph_head(g)),
        graph_head(g).len() == 38,
{
    let h1 = graph_magic();
    let h2 = h1 + seq![GRAPH_VERSION];
    let h3 = h2 + le(g.dimension as nat, 8);
    let h4 = h3 + seq![tag_of(g.metric)];
    let h5 = h4 + le(g.config.m as nat, 4);
    let h6 = h5 + le(g.config.ef_construction as nat, 4);
    let h7 = h6 + le(g.nodes.len(), 4);
    let h8 = h7 + le(entry_number(g.entry_point), 8);
    lemma_stands_join(bytes, 0, h1, seq![GRAPH_VERSION]);
    lemma_stands_join(bytes, 0, h2, le(g.dimension as nat, 8));
    lemma_stands_join(bytes, 0, h3, seq![tag_of(g.metric)]);
    lemma_stands_join(bytes, 0, h4, le(g.config.m as nat, 4));
    lemma_stands_join(bytes, 0, h5, le(g.config.ef_construction as nat, 4));
    lemma_stands_join(bytes, 0, h6, le(g.nodes.len(), 4));
    lemma_stands_join(bytes, 0, h7, le(entry_number(g.entry_point), 8));
    lemma_stands_join(bytes, 0, h8, le(g.max_level as nat, 4));
}

/// A byte that is read stands where it was read.
proof fn lemma_byte_read(bytes: Seq<u8>, at: int)
    requires
        0 <= at,
        number(Format::Graph, bytes, at, 1) is Ok,
    ensures
        ({
            let (value, next) = number(Format::Graph, bytes, at, 1)->Ok_0;
            &&& value <= 0xff
            &&& next == at + 1
            &&& stands_at(bytes, at, seq![value as u8])
        }),
{
    lemma_byte_ranges();
    lemma_number_read(Format::Graph, bytes, at, 1);
    let value = number(Format::Graph, bytes, at, 1)->Ok_0.0;
    reveal_with_fuel(le, 2);
    assert(le(value, 1) =~= seq![value as u8]);
}

/// Bytes that are read as a graph are the binary form of that graph: an accepted
/// graph is valid, finite and small enough, and has this one encoding.
#[verifier::rlimit(40)]
#[verifier::spinoff_prover]
pub proof fn law_accepted_bytes_are_the_encoding(bytes: Seq<u8>, g: GraphView)
    requires
        parse_graph(bytes) == Ok::<GraphView, ErrorView>(g),
    ensures
        valid(g),
        graph_fits(g),
        g.nodes.len() <= MAX_NODES,
        forall|i: int| 0 <= i < g.nodes.len() ==> all_finite((#[trigger] g.nodes[i]).vector),
        graph_bytes(g) == bytes,
{
    reveal(parse_graph);
    lemma_byte_ranges();
    assert(bytes.subrange(0, 4) == graph_magic());
    lemma_byte_read(bytes, 4);
    assert(parse_settings(bytes, 5) == Ok::<GraphView, ErrorView>(g));
    lemma_number_read(Format::Graph, bytes, 5, 8);
    lemma_byte_read(bytes, 13);
    lemma_number_read(Format::Graph, bytes, 14, 4);
    lemma_number_read(Format::Graph, bytes, 18, 4);
    let dimension = number(Format::Graph, bytes, 5, 8)->Ok_0.0 as usize;
    let metric = parse_tag(number(Format::Graph, bytes, 13, 1)->Ok_0.0)->Ok_0;
    let config = HnswConfig {
        m: number(Format::Graph, bytes, 14, 4)->Ok_0.0 as usize,
        ef_construction: number(Format::Graph, bytes, 18, 4)->Ok_0.0 as usize,
    };
    assert(parse_body(bytes, 22, dimension, metric, config) == Ok::<GraphView, ErrorView>(g));
    lemma_number_read(Format::Graph, bytes, 22, 4);
    lemma_number_read(Format::Graph, bytes, 26, 8);
    lemma_number_read(Format::Graph, bytes, 34, 4);
    let count = number(Format::Graph, bytes, 22, 4)->Ok_0.0;
    lemma_nodes_read(bytes, dimension, config.m, 38, count);
    lemma_checked_valid(g);
    assert forall|i: int| 0 <= i < g.nodes.len() implies all_finite(
        (#[trigger] g.nodes[i]).vector,
    ) by {
        assert(node_shaped(g.nodes[i], dimension, config.m));
    }
    lemma_head_joined(bytes, g);
    lemma_stands_join(bytes, 0, graph_head(g), joined(g.nodes, node_bytes()));
    assert(bytes.subrange(0, bytes.len() as int) =~= bytes);
}

/// Every refusal of bytes says that they are damaged.
#[verifier::rlimit(40)]
#[verifier::spinoff_prover]
proof fn lemma_refusals_are_corrupt(bytes: Seq<u8>)
    ensures
        parse_graph(bytes) is Err ==> parse_graph(bytes)->Err_0 is CorruptStorage,
{
    reveal(parse_graph);
    if parse_graph(bytes) is Err && take(Format::Graph, bytes, 0, 4) is Ok && number(
        Format::Graph,
        bytes,
        4,
        1,
    ) is Ok && parse_settings(bytes, 5) is Err && number(Format::Graph, bytes, 5, 8) is Ok
        && number(Format::Graph, bytes, 13, 1) is Ok && number(Format::Graph, bytes, 14, 4) is Ok
        && number(Format::Graph, bytes, 18, 4) is Ok && number(Format::Graph, bytes, 22, 4) is Ok {
        let dimension = number(Format::Graph, bytes, 5, 8)->Ok_0.0 as usize;
        let m = number(Format::Graph, bytes, 14, 4)->Ok_0.0 as usize;
        let count = number(Format::Graph, bytes, 22, 4)->Ok_0.0;
        let step = node_step(bytes, dimension, m);
        assert forall|done: Seq<NodeView>, p: int| (#[trigger] step(done, p)) is Err implies step(
            done,
            p,
        )->Err_0 is CorruptStorage by {
            lemma_node_corrupt(bytes, dimension, m, done, p);
        }
        lemma_repeated_corrupt(step, 38, count);
    }
}

proof fn lemma_node_corrupt(
    bytes: Seq<u8>,
    dimension: usize,
    m: usize,
    done: Seq<NodeView>,
    at: int,
)
    ensures
        ({
            let read = (node_step(bytes, dimension, m))(done, at);
            read is Err ==> read->Err_0 is CorruptStorage
        }),
{
    if parse_text(bytes, at) is Ok {
        let after_id = parse_text(bytes, at)->Ok_0.1;
        let components = component_step(bytes);
        assert forall|d: Seq<u32>, p: int| (#[trigger] components(d, p)) is Err implies components(
            d,
            p,
        )->Err_0 is CorruptStorage by {}
        lemma_repeated_corrupt(components, after_id, dimension as nat);
        if repeated(components, after_id, dimension as nat) is Ok {
            let after_vector = repeated(components, after_id, dimension as nat)->Ok_0.1;
            lemma_layers_corrupt(bytes, m, after_vector);
        }
    }
}

proof fn lemma_layers_corrupt(bytes: Seq<u8>, m: usize, at: int)
    ensures
        parse_layers(bytes, m, at) is Err ==> parse_layers(bytes, m, at)->Err_0 is CorruptStorage,
{
    if number(Format::Graph, bytes, at, 4) is Ok {
        let (count, next) = number(Format::Graph, bytes, at, 4)->Ok_0;
        let layers = layer_step(bytes, m);
        assert forall|d: Seq<Seq<usize>>, p: int| (#[trigger] layers(d, p)) is Err implies layers(
            d,
            p,
        )->Err_0 is CorruptStorage by {
            if number(Format::Graph, bytes, p, 4) is Ok {
                let (length, start) = number(Format::Graph, bytes, p, 4)->Ok_0;
                let indices = index_step(bytes);
                assert forall|e: Seq<usize>, q: int| (#[trigger] indices(
                    e,
                    q,
                )) is Err implies indices(e, q)->Err_0 is CorruptStorage by {}
                lemma_repeated_corrupt(indices, start, length);
            }
        }
        lemma_repeated_corrupt(layers, next, count);
    }
}

/// Bytes behind a graph are not taken for a part of it.
#[verifier::rlimit(40)]
#[verifier::spinoff_prover]
proof fn lemma_tail_is_refused(bytes: Seq<u8>, g: GraphView, tail: Seq<u8>)
    requires
        parse_graph(bytes) == Ok::<GraphView, ErrorView>(g),
        tail.len() > 0,
        bytes.len() + tail.len() <= usize::MAX,
    ensures
        parse_graph(bytes + tail) is Err,
{
    law_accepted_bytes_are_the_encoding(bytes, g);
    let longer = bytes + tail;
    lemma_byte_ranges();
    lemma_head_stands(g);
    assert forall|at: int, part: Seq<u8>| #[trigger]
        stands_at(bytes, at, part) implies stands_at(longer, at, part) by {
        assert(longer.subrange(at, at + part.len()) =~= bytes.subrange(at, at + part.len()));
    }
    let body = joined(g.nodes, node_bytes());
    assert(stands_at(longer, 38, body));
    lemma_nodes_round_trip(g, longer);
    assert(stands_at(longer, 0, graph_magic()));
    lemma_take_stands(Format::Graph, longer, 0, graph_magic());
    assert(stands_at(longer, 4, seq![GRAPH_VERSION]));
    lemma_byte_stands(Format::Graph, longer, 4, GRAPH_VERSION);
    lemma_number_stands(Format::Graph, longer, 5, g.dimension as nat, 8);
    lemma_byte_stands(Format::Graph, longer, 13, tag_of(g.metric));
    lemma_number_stands(Format::Graph, longer, 14, g.config.m as nat, 4);
    lemma_number_stands(Format::Graph, longer, 18, g.config.ef_construction as nat, 4);
    lemma_number_stands(Format::Graph, longer, 22, g.nodes.len(), 4);
    lemma_number_stands(Format::Graph, longer, 26, entry_number(g.entry_point), 8);
    lemma_number_stands(Format::Graph, longer, 34, g.max_level as nat, 4);
    reveal(parse_graph);
    assert(parse_body(longer, 22, g.dimension, g.metric, g.config) is Err);
    assert(parse_settings(longer, 5) is Err);
}

/// Of accepted bytes no strict prefix is accepted, and neither are they with anything
/// behind them: both are refused as damaged.
pub proof fn law_accepted_bytes_are_whole(bytes: Seq<u8>, cut: int, tail: Seq<u8>)
    requires
        parse_graph(bytes) is Ok,
        0 <= cut < bytes.len(),
        tail.len() > 0,
        bytes.len() + tail.len() <= usize::MAX,
    ensures
        parse_graph(bytes.take(cut)) is Err,
        parse_graph(bytes.take(cut))->Err_0 is CorruptStorage,
        parse_graph(bytes + tail) is Err,
        parse_graph(bytes + tail)->Err_0 is CorruptStorage,
{
    lemma_tail_is_refused(bytes, parse_graph(bytes)->Ok_0, tail);
    lemma_refusals_are_corrupt(bytes + tail);
    let front = bytes.take(cut);
    lemma_refusals_are_corrupt(front);
    if parse_graph(front) is Ok {
        let back = bytes.skip(cut);
        lemma_tail_is_refused(front, parse_graph(front)->Ok_0, back);
        assert(front + back =~= bytes);
    }
}

} // verus!
