//! The messages of the local interface, independent of the engine.
//!
//! Singles and doubles are held as their bits.
use crate::bits::{double_finite, double_from_integer, integer_double, is_double_finite};
use crate::error::{Error, ErrorView, Result};
use crate::metadata::{
    ascending, law_metadata_reads_back, lemma_place, lemma_put_ascending, lookup, place, put, Entries,
    Metadata, Value, ValueView,
};
use crate::text::text_less;
use vstd::prelude::*;

verus! {

/// The version of the messages.
pub const PROTOCOL_VERSION: u16 = 1;

/// The name of the socket in the runtime directory.
pub const DEFAULT_SOCKET_NAME: &'static str = "focal-vector.sock";

/// The variable that names another socket.
pub const SOCKET_ENV: &'static str = "FOCAL_VECTOR_SOCKET";

/// A message and the version that it is written in.
#[derive(Debug, PartialEq)]
pub struct Envelope<T> {
    pub protocol_version: u16,
    pub payload: T,
}

impl<T> Envelope<T> {
    /// A message in the version of this library.
    pub fn current(payload: T) -> (envelope: Envelope<T>)
        ensures
            envelope == (Envelope { protocol_version: PROTOCOL_VERSION, payload }),
    {
        Envelope { protocol_version: PROTOCOL_VERSION, payload }
    }
}

/// How the closeness of two vectors is measured.
#[derive(Debug, Clone, Copy, PartialEq, Eq, Structural)]
pub enum Metric {
    Cosine,
    DotProduct,
    Euclidean,
}

/// A number of a message: as an integer where it is one that fits, and as the bits
/// of the nearest double where there is one.
#[derive(Debug, Clone, Copy, PartialEq, Eq, Structural)]
pub struct JsonNumber {
    pub integer: Option<i64>,
    pub double: Option<u64>,
}

/// A value of a message.
#[derive(Debug, PartialEq)]
pub enum JsonValue {
    Null,
    Bool(bool),
    Number(JsonNumber),
    String(String),
    Array(Vec<JsonValue>),
    Object(Vec<(String, JsonValue)>),
}

/// A point of a message. The metadata is by key.
#[derive(Debug, PartialEq)]
pub struct Point {
    pub id: String,
    pub vector: Vec<u32>,
    pub metadata: Vec<(String, JsonValue)>,
}

/// A filter of a message.
#[derive(Debug, PartialEq)]
pub enum Filter {
    MatchAll,
    Eq { field: String, value: JsonValue },
    Range { field: String, gte: Option<u64>, lt: Option<u64> },
    And { filters: Vec<Filter> },
    Or { filters: Vec<Filter> },
    Not { filter: Box<Filter> },
}

/// What a client asks for.
#[derive(Debug, PartialEq)]
pub enum Request {
    Hello,
    ListCollections,
    CreateCollection { name: String, dimension: usize, metric: Metric },
    Upsert { collection: String, points: Vec<Point> },
    Delete { collection: String, ids: Vec<String> },
    Query {
        collection: String,
        vector: Vec<u32>,
        k: usize,
        filter: Option<Filter>,
        ef_search: Option<usize>,
    },
    Flush { collection: String },
}

/// A collection of a message.
#[derive(Debug, PartialEq)]
pub struct CollectionInfo {
    pub name: String,
    pub dimension: usize,
    pub metric: Metric,
    pub points: usize,
    pub latest_sequence: u64,
    pub pending_points: usize,
}

/// A search result of a message.
#[derive(Debug, PartialEq)]
pub struct SearchHit {
    pub id: String,
    pub score: u32,
    pub metadata: Vec<(String, JsonValue)>,
    pub sequence: u64,
}

/// What a client is told.
#[derive(Debug, PartialEq)]
pub enum Response {
    Hello { server_version: String },
    Collections { collections: Vec<CollectionInfo> },
    Created { collection: CollectionInfo },
    Sequence { sequence: u64 },
    Query { hits: Vec<SearchHit> },
    Error { code: String, message: String },
}

/// The metadata value that a value of a message stands for.
pub open spec fn value_of(json: JsonValue) -> core::result::Result<ValueView, ErrorView> {
    match json {
        JsonValue::String(text) => Ok(ValueView::Keyword(text@)),
        JsonValue::Bool(b) => Ok(ValueView::Boolean(b)),
        JsonValue::Number(number) => match (number.integer, number.double) {
            (Some(n), _) => Ok(ValueView::Integer(n)),
            (None, Some(bits)) => if double_finite(bits) {
                Ok(ValueView::Float(bits))
            } else {
                Err(ErrorView::InvalidQuery("metadata number is out of range"@))
            },
            (None, None) => Err(ErrorView::InvalidQuery("metadata number is out of range"@)),
        },
        _ => Err(
            ErrorView::InvalidQuery("metadata values must be strings, numbers, or booleans"@),
        ),
    }
}

/// The metadata value that a value of a message stands for.
pub fn metadata_value(json: &JsonValue) -> (result: Result<Value>)
    ensures
        match value_of(*json) {
            Ok(value) => result is Ok && result->Ok_0@ == value,
            Err(error) => result is Err && result->Err_0@ == error,
        },
{
    match json {
        JsonValue::String(text) => Ok(Value::Keyword(text.clone())),
        JsonValue::Bool(b) => Ok(Value::Boolean(*b)),
        JsonValue::Number(number) => match (number.integer, number.double) {
            (Some(n), _) => Ok(Value::Integer(n)),
            (None, Some(bits)) => if is_double_finite(bits) {
                Ok(Value::Float(bits))
            } else {
                Err(Error::InvalidQuery("metadata number is out of range"))
            },
            (None, None) => Err(Error::InvalidQuery("metadata number is out of range")),
        },
        _ => Err(
            Error::InvalidQuery("metadata values must be strings, numbers, or booleans"),
        ),
    }
}

/// A value of a message stands for a metadata value.
pub open spec fn stands_for(json: JsonValue, value: ValueView) -> bool {
    match value {
        ValueView::Keyword(text) => json matches JsonValue::String(t) && t@ == text,
        ValueView::Integer(n) => json == JsonValue::Number(
            JsonNumber { integer: Some(n), double: Some(integer_double(n as int) as u64) },
        ),
        ValueView::Float(bits) => if double_finite(bits) {
            json == JsonValue::Number(JsonNumber { integer: None, double: Some(bits) })
        } else {
            json == JsonValue::Null
        },
        ValueView::Boolean(b) => json == JsonValue::Bool(b),
    }
}

/// A metadata value as a value of a message. A float that is no number is null.
pub fn json_value(value: &Value) -> (json: JsonValue)
    ensures
        stands_for(json, value@),
{
    match value {
        Value::Keyword(text) => JsonValue::String(text.clone()),
        Value::Integer(n) => {
            let bits: u64 = double_from_integer(*n);
            JsonValue::Number(JsonNumber { integer: Some(*n), double: Some(bits) })
        },
        Value::Float(bits) => if is_double_finite(*bits) {
            JsonValue::Number(JsonNumber { integer: None, double: Some(*bits) })
        } else {
            JsonValue::Null
        },
        Value::Boolean(b) => JsonValue::Bool(*b),
    }
}

/// A metadata value that a client is told is the one that it stored. Floats that
/// are no numbers cannot be stored.
pub proof fn law_values_come_back(value: ValueView, json: JsonValue)
    requires
        stands_for(json, value),
        value matches ValueView::Float(bits) ==> double_finite(bits),
    ensures
        value_of(json) == Ok::<ValueView, ErrorView>(value),
{
}

/// The metadata of a message, or the first value that cannot be metadata.
pub open spec fn metadata_of(pairs: Seq<(String, JsonValue)>) -> core::result::Result<
    Entries,
    ErrorView,
>
    decreases pairs.len(),
{
    if pairs.len() == 0 {
        Ok(seq![])
    } else {
        match metadata_of(pairs.drop_last()) {
            Err(error) => Err(error),
            Ok(entries) => match value_of(pairs.last().1) {
                Err(error) => Err(error),
                Ok(value) => Ok(put(entries, pairs.last().0@, value)),
            },
        }
    }
}

proof fn lemma_metadata_error(pairs: Seq<(String, JsonValue)>, count: int)
    requires
        0 <= count <= pairs.len(),
        metadata_of(pairs.subrange(0, count)) is Err,
    ensures
        metadata_of(pairs) == metadata_of(pairs.subrange(0, count)),
    decreases pairs.len() - count,
{
    if count == pairs.len() {
        assert(pairs.subrange(0, count) =~= pairs);
    } else {
        assert(pairs.subrange(0, count + 1).drop_last() =~= pairs.subrange(0, count));
        lemma_metadata_error(pairs, count + 1);
    }
}

/// The metadata of a message.
pub(crate) fn read_metadata(pairs: &Vec<(String, JsonValue)>) -> (result: Result<Metadata>)
    ensures
        match metadata_of(pairs@) {
            Ok(entries) => result is Ok && result->Ok_0@ == entries,
            Err(error) => result is Err && result->Err_0@ == error,
        },
{
    let mut metadata = Metadata::new();
    let mut i: usize = 0;
    assert(pairs@.subrange(0, 0) =~= Seq::empty());
    while i < pairs.len()
        invariant
            i <= pairs@.len(),
            metadata_of(pairs@.subrange(0, i as int)) == Ok::<Entries, ErrorView>(metadata@),
        decreases pairs.len() - i,
    {
        let ghost next = pairs@.subrange(0, i + 1);
        proof {
            assert(next.drop_last() =~= pairs@.subrange(0, i as int));
            assert(next.last() == pairs@[i as int]);
            if metadata_of(next) is Err {
                lemma_metadata_error(pairs@, i + 1);
            }
        }
        let value = metadata_value(&pairs[i].1)?;
        metadata.insert(pairs[i].0.clone(), value);
        i = i + 1;
    }
    assert(pairs@.subrange(0, i as int) =~= pairs@);
    Ok(metadata)
}

/// Pairs of a message stand for metadata.
pub open spec fn shows(pairs: Seq<(String, JsonValue)>, entries: Entries) -> bool {
    &&& pairs.len() == entries.len()
    &&& forall|i: int|
        0 <= i < pairs.len() ==> (#[trigger] pairs[i]).0@ == entries[i].0 && stands_for(
            pairs[i].1,
            entries[i].1,
        )
}

/// Metadata as pairs of a message.
pub(crate) fn write_metadata(metadata: &Metadata) -> (pairs: Vec<(String, JsonValue)>)
    ensures
        shows(pairs@, metadata@),
{
    let mut pairs: Vec<(String, JsonValue)> = Vec::new();
    let mut i: usize = 0;
    while i < metadata.len()
        invariant
            i <= metadata@.len(),
            pairs@.len() == i,
            forall|j: int|
                0 <= j < i ==> (#[trigger] pairs@[j]).0@ == metadata@[j].0 && stands_for(
                    pairs@[j].1,
                    metadata@[j].1,
                ),
        decreases metadata@.len() - i,
    {
        let key = metadata.key_at(i).clone();
        let json = json_value(metadata.value_at(i));
        pairs.push((key, json));
        i = i + 1;
    }
    pairs
}

/// The engine's metric.
pub open spec fn engine_metric(metric: Metric) -> crate::metric::Metric {
    match metric {
        Metric::Cosine => crate::metric::Metric::Cosine,
        Metric::DotProduct => crate::metric::Metric::DotProduct,
        Metric::Euclidean => crate::metric::Metric::Euclidean,
    }
}

/// The engine's metric.
pub fn metric_from_protocol(metric: Metric) -> (engine: crate::metric::Metric)
    ensures
        engine == engine_metric(metric),
{
    match metric {
        Metric::Cosine => crate::metric::Metric::Cosine,
        Metric::DotProduct => crate::metric::Metric::DotProduct,
        Metric::Euclidean => crate::metric::Metric::Euclidean,
    }
}

/// The metric of a message.
pub fn metric_to_protocol(engine: crate::metric::Metric) -> (metric: Metric)
    ensures
        engine_metric(metric) == engine,
{
    match engine {
        crate::metric::Metric::Cosine => Metric::Cosine,
        crate::metric::Metric::DotProduct => Metric::DotProduct,
        crate::metric::Metric::Euclidean => Metric::Euclidean,
    }
}

/// Metadata that a client is told is the metadata that it stored: reading the pairs that
/// stand for metadata gives it back.
pub proof fn law_metadata_comes_back(pairs: Seq<(String, JsonValue)>, entries: Entries)
    requires
        shows(pairs, entries),
        ascending(entries),
        forall|i: int|
            0 <= i < entries.len() ==> ((#[trigger] entries[i]).1 matches ValueView::Float(bits)
                ==> double_finite(bits)),
    ensures
        metadata_of(pairs) == Ok::<Entries, ErrorView>(entries),
    decreases pairs.len(),
{
    if pairs.len() == 0 {
        assert(entries =~= seq![]);
    } else {
        let n = entries.len() - 1;
        let front = entries.drop_last();
        let rest = pairs.drop_last();
        assert forall|i: int| 0 <= i < rest.len() implies (#[trigger] rest[i]).0@ == front[i].0
            && stands_for(rest[i].1, front[i].1) by {
            assert(pairs[i].0@ == entries[i].0);
        }
        assert forall|i: int, j: int| 0 <= i < j < front.len() implies text_less(
            #[trigger] front[i].0,
            #[trigger] front[j].0,
        ) by {
            assert(text_less(entries[i].0, entries[j].0));
        }
        assert forall|i: int| 0 <= i < front.len() implies ((#[trigger] front[i]).1 matches ValueView::Float(bits)
            ==> double_finite(bits)) by {
            assert(front[i] == entries[i]);
        }
        law_metadata_comes_back(rest, front);
        assert(pairs[n].0@ == entries[n].0);
        law_values_come_back(entries[n].1, pairs[n].1);
        assert forall|i: int| 0 <= i < front.len() implies text_less(
            #[trigger] front[i].0,
            entries[n].0,
        ) by {
            assert(text_less(entries[i].0, entries[n].0));
        }
        lemma_place(front, entries[n].0);
        let at = place(front, entries[n].0);
        if at < front.len() {
            assert(text_less(front[at].0, entries[n].0));
        }
        assert(front.insert(at, (entries[n].0, entries[n].1)) =~= entries);
    }
}

/// A message's metadata is read exactly where each of its values can be.
pub proof fn law_metadata_is_read_where_values_are(pairs: Seq<(String, JsonValue)>)
    ensures
        metadata_of(pairs) is Ok <==> forall|i: int|
            0 <= i < pairs.len() ==> value_of((#[trigger] pairs[i]).1) is Ok,
        metadata_of(pairs) matches Ok(entries) ==> ascending(entries),
    decreases pairs.len(),
{
    if pairs.len() > 0 {
        let rest = pairs.drop_last();
        let end = pairs.len() - 1;
        law_metadata_is_read_where_values_are(rest);
        if metadata_of(pairs) is Ok {
            assert forall|i: int| 0 <= i < pairs.len() implies value_of(
                (#[trigger] pairs[i]).1,
            ) is Ok by {
                if i < end {
                    assert(value_of(rest[i].1) is Ok);
                }
            }
            lemma_put_ascending(
                metadata_of(rest)->Ok_0,
                pairs[end].0@,
                value_of(pairs[end].1)->Ok_0,
            );
        } else if metadata_of(rest) is Ok {
            assert(value_of(pairs[end].1) is Err);
        } else {
            let i = choose|i: int| 0 <= i < rest.len() && value_of((#[trigger] rest[i]).1) is Err;
            assert(value_of(pairs[i].1) is Err);
        }
    }
}

/// Of a message's metadata each key has the value of the last pair with that key.
pub proof fn law_last_pair_counts(pairs: Seq<(String, JsonValue)>, i: int)
    requires
        metadata_of(pairs) is Ok,
        0 <= i < pairs.len(),
        forall|j: int| i < j < pairs.len() ==> (#[trigger] pairs[j]).0@ != pairs[i].0@,
    ensures
        lookup(metadata_of(pairs)->Ok_0, pairs[i].0@) == Some(value_of(pairs[i].1)->Ok_0),
    decreases pairs.len(),
{
    let rest = pairs.drop_last();
    let end = pairs.len() - 1;
    let before = metadata_of(rest)->Ok_0;
    law_metadata_is_read_where_values_are(rest);
    law_metadata_reads_back(before, pairs[end].0@, value_of(pairs[end].1)->Ok_0, pairs[i].0@);
    if i < end {
        assert forall|j: int| i < j < rest.len() implies (#[trigger] rest[j]).0@
            != rest[i].0@ by {
            assert(pairs[j].0@ != pairs[i].0@);
        }
        law_last_pair_counts(rest, i);
        assert(pairs[end].0@ != pairs[i].0@);
    }
}

/// A key without a pair has no value in a message's metadata.
pub proof fn law_absent_keys_have_no_value(pairs: Seq<(String, JsonValue)>, key: Seq<char>)
    requires
        metadata_of(pairs) is Ok,
        forall|j: int| 0 <= j < pairs.len() ==> (#[trigger] pairs[j]).0@ != key,
    ensures
        lookup(metadata_of(pairs)->Ok_0, key) is None,
    decreases pairs.len(),
{
    if pairs.len() > 0 {
        let rest = pairs.drop_last();
        let end = pairs.len() - 1;
        let before = metadata_of(rest)->Ok_0;
        law_metadata_is_read_where_values_are(rest);
        assert forall|j: int| 0 <= j < rest.len() implies (#[trigger] rest[j]).0@ != key by {
            assert(pairs[j].0@ != key);
        }
        law_absent_keys_have_no_value(rest, key);
        assert(pairs[end].0@ != key);
        law_metadata_reads_back(before, pairs[end].0@, value_of(pairs[end].1)->Ok_0, key);
    }
}

} // verus!
