//! The rules of the service: limits, authorization and what errors are answered
//! with.
use crate::collection::{UpsertPoint, UpsertView};
use crate::error::{Error, ErrorView, Result};
use crate::filter::Filter;
use crate::parse::{behind, strip_prefix};
use crate::protocol;
use crate::protocol::{metadata_of, metadata_value, read_metadata, value_of};
use crate::text::{decimal, decimal_text, join};
use vstd::prelude::*;
use vstd::string::*;
use vstd::utf8::*;

verus! {

/// The limits of the service, and the token that it asks for.
#[derive(Debug, Clone, PartialEq, Eq)]
pub struct ServerConfig {
    pub bearer_token: Option<String>,
    pub max_body_bytes: usize,
    pub max_batch_points: usize,
    pub max_k: usize,
    pub max_dimension: usize,
    pub max_ef_search: usize,
    pub max_concurrent_operations: usize,
}

impl Default for ServerConfig {
    fn default() -> (config: ServerConfig)
        ensures
            config.bearer_token is None,
            config.max_body_bytes == 16 * 1024 * 1024,
            config.max_batch_points == 1_000,
            config.max_k == 1_000,
            config.max_dimension == 4_096,
            config.max_ef_search == 4_096,
            config.max_concurrent_operations == 64,
    {
        ServerConfig {
            bearer_token: None,
            max_body_bytes: 16 * 1024 * 1024,
            max_batch_points: 1_000,
            max_k: 1_000,
            max_dimension: 4_096,
            max_ef_search: 4_096,
            max_concurrent_operations: 64,
        }
    }
}

impl ServerConfig {
    /// No limit is zero.
    pub open spec fn limited(self) -> bool {
        &&& self.max_body_bytes > 0
        &&& self.max_batch_points > 0
        &&& self.max_k > 0
        &&& self.max_dimension > 0
        &&& self.max_ef_search > 0
        &&& self.max_concurrent_operations > 0
    }
}

/// Whether a service can run with these limits.
pub fn validate_limits(config: &ServerConfig) -> (result: Result<()>)
    ensures
        config.limited() ==> result is Ok,
        !config.limited() ==> result is Err && result->Err_0@ == ErrorView::InvalidConfig(
            "server request limits must be greater than zero"@,
        ),
{
    if config.max_body_bytes == 0 || config.max_batch_points == 0 || config.max_k == 0
        || config.max_dimension == 0 || config.max_ef_search == 0
        || config.max_concurrent_operations == 0 {
        return Err(Error::InvalidConfig("server request limits must be greater than zero"));
    }
    Ok(())
}

/// Whether two byte strings are equal. How long the comparison takes depends on
/// their lengths alone.
pub fn constant_time_equal(left: &[u8], right: &[u8]) -> (equal: bool)
    ensures
        equal == (left@ == right@),
{
    let a: usize = left.len();
    let b: usize = right.len();
    let mut difference: usize = a ^ b;
    assert((a ^ b) == 0 <==> a == b) by (bit_vector);
    let length: usize = if a < b {
        b
    } else {
        a
    };
    let mut index: usize = 0;
    while index < length
        invariant
            a == left@.len(),
            b == right@.len(),
            length >= a,
            length >= b,
            length == a || length == b,
            index <= length,
            a != b ==> difference != 0,
            a == b ==> (difference == 0 <==> forall|i: int|
                0 <= i < index ==> #[trigger] left@[i] == right@[i]),
        decreases length - index,
    {
        let x: u8 = if index < left.len() {
            left[index]
        } else {
            0
        };
        let y: u8 = if index < right.len() {
            right[index]
        } else {
            0
        };
        let before: usize = difference;
        let part: usize = (x ^ y) as usize;
        difference = before | part;
        proof {
            assert((x ^ y) == 0 <==> x == y) by (bit_vector);
            assert((before | part) == 0 <==> before == 0 && part == 0) by (bit_vector);
            if a == b && difference == 0 {
                assert forall|i: int| 0 <= i < index + 1 implies #[trigger] left@[i]
                    == right@[i] by {
                    if i == index {
                        assert(left@[i] == x && right@[i] == y);
                    }
                }
            }
            if a == b && (forall|i: int|
                0 <= i < index + 1 ==> #[trigger] left@[i] == right@[i]) {
                assert(left@[index as int] == right@[index as int]);
                assert forall|i: int| 0 <= i < index implies #[trigger] left@[i] == right@[i] by {}
            }
        }
        index = index + 1;
    }
    proof {
        if a == b && difference == 0 {
            assert(left@ =~= right@);
        }
    }
    difference == 0
}

/// A request may pass: no token is asked for, or its header bears the token.
pub open spec fn authorized(expected: Option<Seq<char>>, header: Option<Seq<char>>) -> bool {
    match expected {
        None => true,
        Some(token) => match header {
            None => false,
            Some(text) => behind(text, "Bearer "@) == Some(token),
        },
    }
}

/// Text that may be missing, as its characters.
pub open spec fn chars_of(text: Option<&str>) -> Option<Seq<char>> {
    match text {
        Some(t) => Some(t@),
        None => None,
    }
}

/// Whether a request may pass.
pub fn authorize(expected: Option<&str>, header: Option<&str>) -> (result: Result<()>)
    ensures
        authorized(chars_of(expected), chars_of(header)) ==> result is Ok,
        !authorized(chars_of(expected), chars_of(header)) ==> result is Err && result->Err_0@
            == ErrorView::Unauthorized,
{
    let token = match expected {
        None => {
            return Ok(());
        },
        Some(token) => token,
    };
    let supplied = match header {
        None => None,
        Some(text) => strip_prefix(text, "Bearer "),
    };
    match supplied {
        None => Err(Error::Unauthorized),
        Some(value) => {
            proof {
                if encode_utf8(value@) == encode_utf8(token@) {
                    crate::text::lemma_encoding_injective(value@, token@);
                }
            }
            if constant_time_equal(value.as_bytes(), token.as_bytes()) {
                Ok(())
            } else {
                Err(Error::Unauthorized)
            }
        },
    }
}

/// The HTTP status that an error is answered with.
pub open spec fn status_code(error: ErrorView) -> u16 {
    match error {
        ErrorView::InvalidDimension { .. } => 400,
        ErrorView::InvalidVector(_) => 400,
        ErrorView::InvalidConfig(_) => 400,
        ErrorView::InvalidConfiguration(_) => 400,
        ErrorView::InvalidQuery(_) => 400,
        ErrorView::NotFound(_) => 404,
        ErrorView::AlreadyExists(_) => 409,
        ErrorView::Unauthorized => 401,
        ErrorView::ResourceExhausted(_) => 429,
        _ => 500,
    }
}

/// The HTTP status that an error is answered with.
pub fn status_of(error: &Error) -> (status: u16)
    ensures
        status == status_code(error@),
{
    match error {
        Error::InvalidDimension { .. } => 400,
        Error::InvalidVector(_) => 400,
        Error::InvalidConfig(_) => 400,
        Error::InvalidConfiguration(_) => 400,
        Error::InvalidQuery(_) => 400,
        Error::NotFound(_) => 404,
        Error::AlreadyExists(_) => 409,
        Error::Unauthorized => 401,
        Error::ResourceExhausted(_) => 429,
        _ => 500,
    }
}

/// Whether a status counts as an error.
pub fn is_error_status(status: u16) -> (is: bool)
    ensures
        is == (400 <= status < 600),
{
    400 <= status && status < 600
}

/// What a number outside its limits is answered with.
pub open spec fn exhausted(text: Seq<char>) -> ErrorView {
    ErrorView::ResourceExhausted(text)
}

/// What is wrong with the dimension of a new collection.
pub open spec fn dimension_fault(limits: ServerConfig, dimension: usize) -> Option<ErrorView> {
    if dimension == 0 || dimension > limits.max_dimension {
        Some(
            exhausted(
                "dimension must be between 1 and "@ + decimal(limits.max_dimension as nat),
            ),
        )
    } else {
        None
    }
}

/// What is wrong with the size of a batch of points.
pub open spec fn upsert_fault(limits: ServerConfig, count: nat) -> Option<ErrorView> {
    if count == 0 || count > limits.max_batch_points {
        Some(
            exhausted(
                "upsert batch must contain 1-"@ + decimal(limits.max_batch_points as nat)
                    + " points"@,
            ),
        )
    } else {
        None
    }
}

/// What is wrong with the size of a batch of IDs.
pub open spec fn delete_fault(limits: ServerConfig, count: nat) -> Option<ErrorView> {
    if count == 0 || count > limits.max_batch_points {
        Some(
            exhausted(
                "delete batch must contain 1-"@ + decimal(limits.max_batch_points as nat)
                    + " IDs"@,
            ),
        )
    } else {
        None
    }
}

/// What is wrong with the size or the breadth of a search.
pub open spec fn query_fault(limits: ServerConfig, k: usize, ef_search: Option<usize>) -> Option<
    ErrorView,
> {
    if k == 0 || k > limits.max_k {
        Some(exhausted("k must be between 1 and "@ + decimal(limits.max_k as nat)))
    } else if ef_search matches Some(ef) && ef > limits.max_ef_search {
        Some(exhausted("ef_search must not exceed "@ + decimal(limits.max_ef_search as nat)))
    } else {
        None
    }
}

/// A check that finds a fault or finds none.
pub open spec fn finds(result: Result<()>, fault: Option<ErrorView>) -> bool {
    match fault {
        Some(error) => result is Err && result->Err_0@ == error,
        None => result is Ok,
    }
}

/// Checks the dimension of a new collection.
pub fn check_dimension(limits: &ServerConfig, dimension: usize) -> (result: Result<()>)
    ensures
        finds(result, dimension_fault(*limits, dimension)),
{
    if dimension == 0 || dimension > limits.max_dimension {
        return Err(
            Error::ResourceExhausted(
                join(
                    "dimension must be between 1 and ",
                    decimal_text(limits.max_dimension as u64).as_str(),
                ),
            ),
        );
    }
    Ok(())
}

/// Checks the size of a batch of points.
pub fn check_upsert(limits: &ServerConfig, count: usize) -> (result: Result<()>)
    ensures
        finds(result, upsert_fault(*limits, count as nat)),
{
    if count == 0 || count > limits.max_batch_points {
        let mut message = join(
            "upsert batch must contain 1-",
            decimal_text(limits.max_batch_points as u64).as_str(),
        );
        message.append(" points");
        return Err(Error::ResourceExhausted(message));
    }
    Ok(())
}

/// Checks the size of a batch of IDs.
pub fn check_delete(limits: &ServerConfig, count: usize) -> (result: Result<()>)
    ensures
        finds(result, delete_fault(*limits, count as nat)),
{
    if count == 0 || count > limits.max_batch_points {
        let mut message = join(
            "delete batch must contain 1-",
            decimal_text(limits.max_batch_points as u64).as_str(),
        );
        message.append(" IDs");
        return Err(Error::ResourceExhausted(message));
    }
    Ok(())
}

/// Checks the size and the breadth of a search.
pub fn check_query(limits: &ServerConfig, k: usize, ef_search: Option<usize>) -> (result: Result<
    (),
>)
    ensures
        finds(result, query_fault(*limits, k, ef_search)),
{
    if k == 0 || k > limits.max_k {
        return Err(
            Error::ResourceExhausted(
                join("k must be between 1 and ", decimal_text(limits.max_k as u64).as_str()),
            ),
        );
    }
    let too_broad: bool = match ef_search {
        Some(ef) => ef > limits.max_ef_search,
        None => false,
    };
    if too_broad {
        return Err(
            Error::ResourceExhausted(
                join(
                    "ef_search must not exceed ",
                    decimal_text(limits.max_ef_search as u64).as_str(),
                ),
            ),
        );
    }
    Ok(())
}

/// A field name is one to 128 bytes.
pub open spec fn valid_field(field: Seq<char>) -> bool {
    field.len() > 0 && encode_utf8(field).len() <= 128
}

/// What is said of another field name.
pub open spec fn bad_field() -> ErrorView {
    ErrorView::InvalidQuery("filter field names must contain 1-128 bytes"@)
}

fn validated_field(field: &String) -> (result: Result<String>)
    ensures
        valid_field(field@) ==> result is Ok && result->Ok_0@ == field@,
        !valid_field(field@) ==> result is Err && result->Err_0@ == bad_field(),
{
    if field.as_str().is_empty() || field.as_str().as_bytes().len() > 128 {
        Err(Error::InvalidQuery("filter field names must contain 1-128 bytes"))
    } else {
        Ok(field.clone())
    }
}

/// The most levels that a filter may have.
pub const MAX_FILTER_DEPTH: usize = 32;

/// The most nodes that a filter may have.
pub const MAX_FILTER_NODES: usize = 1_024;

/// How many of `left` nodes a filter of a message leaves, or what is wrong with it.
/// Nodes are counted in the order in which they stand.
pub open spec fn filter_verdict(filter: protocol::Filter, depth: nat, left: nat) -> core::result::Result<
    nat,
    ErrorView,
>
    decreases filter,
{
    if depth >= MAX_FILTER_DEPTH {
        Err(exhausted("filter nesting exceeds 32 levels"@))
    } else if left == 0 {
        Err(exhausted("filter contains more than 1024 nodes"@))
    } else {
        let rest = (left - 1) as nat;
        match filter {
            protocol::Filter::MatchAll => Ok(rest),
            protocol::Filter::Eq { field, value } => if !valid_field(field@) {
                Err(bad_field())
            } else {
                match value_of(value) {
                    Err(error) => Err(error),
                    Ok(_) => Ok(rest),
                }
            },
            protocol::Filter::Range { field, .. } => if !valid_field(field@) {
                Err(bad_field())
            } else {
                Ok(rest)
            },
            protocol::Filter::And { filters } => list_verdict(filters@, depth + 1, rest),
            protocol::Filter::Or { filters } => list_verdict(filters@, depth + 1, rest),
            protocol::Filter::Not { filter } => filter_verdict(*filter, depth + 1, rest),
        }
    }
}

/// The same of filters in a row.
pub open spec fn list_verdict(filters: Seq<protocol::Filter>, depth: nat, left: nat) -> core::result::Result<
    nat,
    ErrorView,
>
    decreases filters,
{
    if filters.len() == 0 {
        Ok(left)
    } else {
        match list_verdict(filters.subrange(0, filters.len() - 1), depth, left) {
            Err(error) => Err(error),
            Ok(rest) => filter_verdict(filters[filters.len() - 1], depth, rest),
        }
    }
}

/// A filter says what a filter of a message says.
pub open spec fn mirrors(filter: protocol::Filter, engine: Filter) -> bool
    decreases filter,
{
    match filter {
        protocol::Filter::MatchAll => engine is MatchAll,
        protocol::Filter::Eq { field, value } => engine matches Filter::Eq { field: f, value: v }
            && f@ == field@ && value_of(value) == Ok::<crate::metadata::ValueView, ErrorView>(v@),
        protocol::Filter::Range { field, gte, lt } => engine matches Filter::Range {
            field: f,
            gte: g,
            lt: l,
        } && f@ == field@ && g == gte && l == lt,
        protocol::Filter::And { filters } => engine matches Filter::And(list) && list@.len()
            == filters@.len() && forall|i: int|
            0 <= i < filters@.len() ==> mirrors(#[trigger] filters@[i], list@[i]),
        protocol::Filter::Or { filters } => engine matches Filter::Or(list) && list@.len()
            == filters@.len() && forall|i: int|
            0 <= i < filters@.len() ==> mirrors(#[trigger] filters@[i], list@[i]),
        protocol::Filter::Not { filter } => engine matches Filter::Not(inner) && mirrors(
            *filter,
            *inner,
        ),
    }
}

proof fn lemma_list_error(filters: Seq<protocol::Filter>, depth: nat, left: nat, count: int)
    requires
        0 <= count <= filters.len(),
        list_verdict(filters.subrange(0, count), depth, left) is Err,
    ensures
        list_verdict(filters, depth, left) == list_verdict(
            filters.subrange(0, count),
            depth,
            left,
        ),
    decreases filters.len() - count,
{
    if count == filters.len() {
        assert(filters.subrange(0, count) =~= filters);
    } else {
        let longer = filters.subrange(0, count + 1);
        assert(longer.subrange(0, longer.len() - 1) =~= filters.subrange(0, count));
        lemma_list_error(filters, depth, left, count + 1);
    }
}

#[verifier::loop_isolation(false)]
fn filters_bounded(filters: &Vec<protocol::Filter>, depth: usize, remaining: &mut usize) -> (result:
    Result<Vec<Filter>>)
    ensures
        match list_verdict(filters@, depth as nat, *old(remaining) as nat) {
            Ok(left) => {
                &&& result is Ok
                &&& *final(remaining) == left
                &&& result->Ok_0@.len() == filters@.len()
                &&& forall|i: int|
                    0 <= i < filters@.len() ==> mirrors(#[trigger] filters@[i], result->Ok_0@[i])
            },
            Err(error) => result is Err && result->Err_0@ == error,
        },
    decreases filters,
{
    let ghost start = *remaining;
    let mut list: Vec<Filter> = Vec::new();
    let mut i: usize = 0;
    assert(filters@.subrange(0, 0) =~= Seq::empty());
    while i < filters.len()
        invariant
            i <= filters@.len(),
            list@.len() == i,
            list_verdict(filters@.subrange(0, i as int), depth as nat, start as nat) == Ok::<
                nat,
                ErrorView,
            >(*remaining as nat),
            forall|j: int| 0 <= j < i ==> mirrors(#[trigger] filters@[j], list@[j]),
        decreases filters.len() - i,
    {
        let ghost next = filters@.subrange(0, i + 1);
        proof {
            assert(next.subrange(0, next.len() - 1) =~= filters@.subrange(0, i as int));
            assert(next[next.len() - 1] == filters@[i as int]);
            if list_verdict(next, depth as nat, start as nat) is Err {
                lemma_list_error(filters@, depth as nat, start as nat, i + 1);
            }
        }
        let filter = filter_bounded(&filters[i], depth, remaining)?;
        list.push(filter);
        i = i + 1;
    }
    assert(filters@.subrange(0, i as int) =~= filters@);
    Ok(list)
}

/// A filter of a message as a filter of the engine, within the limits.
fn filter_bounded(filter: &protocol::Filter, depth: usize, remaining: &mut usize) -> (result:
    Result<Filter>)
    ensures
        match filter_verdict(*filter, depth as nat, *old(remaining) as nat) {
            Ok(left) => result is Ok && *final(remaining) == left && mirrors(
                *filter,
                result->Ok_0,
            ),
            Err(error) => result is Err && result->Err_0@ == error,
        },
    decreases filter,
{
    if depth >= MAX_FILTER_DEPTH {
        return Err(Error::ResourceExhausted("filter nesting exceeds 32 levels".to_owned()));
    }
    if *remaining == 0 {
        return Err(Error::ResourceExhausted("filter contains more than 1024 nodes".to_owned()));
    }
    *remaining = *remaining - 1;
    match filter {
        protocol::Filter::MatchAll => Ok(Filter::MatchAll),
        protocol::Filter::Eq { field, value } => {
            let field = validated_field(field)?;
            let value = metadata_value(value)?;
            Ok(Filter::Eq { field, value })
        },
        protocol::Filter::Range { field, gte, lt } => {
            let field = validated_field(field)?;
            Ok(Filter::Range { field, gte: *gte, lt: *lt })
        },
        protocol::Filter::And { filters } => {
            let list = filters_bounded(filters, depth + 1, remaining)?;
            Ok(Filter::And(list))
        },
        protocol::Filter::Or { filters } => {
            let list = filters_bounded(filters, depth + 1, remaining)?;
            Ok(Filter::Or(list))
        },
        protocol::Filter::Not { filter } => {
            let inner = filter_bounded(filter, depth + 1, remaining)?;
            Ok(Filter::Not(Box::new(inner)))
        },
    }
}

/// A filter of a message as a filter of the engine, within the limits.
pub fn filter_from_protocol(filter: &protocol::Filter) -> (result: Result<Filter>)
    ensures
        match filter_verdict(*filter, 0, MAX_FILTER_NODES as nat) {
            Ok(_) => result is Ok && mirrors(*filter, result->Ok_0),
            Err(error) => result is Err && result->Err_0@ == error,
        },
{
    let mut remaining: usize = MAX_FILTER_NODES;
    filter_bounded(filter, 0, &mut remaining)
}

/// The number of nodes of a filter.
pub open spec fn filter_nodes(filter: protocol::Filter) -> nat
    decreases filter,
{
    match filter {
        protocol::Filter::And { filters } => 1 + list_nodes(filters@),
        protocol::Filter::Or { filters } => 1 + list_nodes(filters@),
        protocol::Filter::Not { filter } => 1 + filter_nodes(*filter),
        _ => 1,
    }
}

/// The number of nodes of filters in a row.
pub open spec fn list_nodes(filters: Seq<protocol::Filter>) -> nat
    decreases filters,
{
    if filters.len() == 0 {
        0
    } else {
        list_nodes(filters.subrange(0, filters.len() - 1)) + filter_nodes(
            filters[filters.len() - 1],
        )
    }
}

/// A filter of at most so many levels.
pub open spec fn within_levels(filter: protocol::Filter, levels: int) -> bool
    decreases filter,
{
    &&& levels > 0
    &&& match filter {
        protocol::Filter::And { filters } => forall|i: int|
            0 <= i < filters@.len() ==> within_levels(#[trigger] filters@[i], levels - 1),
        protocol::Filter::Or { filters } => forall|i: int|
            0 <= i < filters@.len() ==> within_levels(#[trigger] filters@[i], levels - 1),
        protocol::Filter::Not { filter } => within_levels(*filter, levels - 1),
        _ => true,
    }
}

proof fn lemma_filter_bounds(filter: protocol::Filter, depth: nat, left: nat)
    requires
        filter_verdict(filter, depth, left) is Ok,
    ensures
        filter_nodes(filter) <= left,
        filter_verdict(filter, depth, left)->Ok_0 == left - filter_nodes(filter),
        within_levels(filter, MAX_FILTER_DEPTH - depth),
    decreases filter,
{
    let rest = (left - 1) as nat;
    match filter {
        protocol::Filter::And { filters } => {
            lemma_list_bounds(filters@, depth + 1, rest);
        },
        protocol::Filter::Or { filters } => {
            lemma_list_bounds(filters@, depth + 1, rest);
        },
        protocol::Filter::Not { filter } => {
            lemma_filter_bounds(*filter, depth + 1, rest);
        },
        _ => {},
    }
}

proof fn lemma_list_bounds(filters: Seq<protocol::Filter>, depth: nat, left: nat)
    requires
        list_verdict(filters, depth, left) is Ok,
    ensures
        list_nodes(filters) <= left,
        list_verdict(filters, depth, left)->Ok_0 == left - list_nodes(filters),
        forall|i: int|
            0 <= i < filters.len() ==> within_levels(
                #[trigger] filters[i],
                MAX_FILTER_DEPTH - depth,
            ),
    decreases filters,
{
    if filters.len() > 0 {
        let front = filters.subrange(0, filters.len() - 1);
        lemma_list_bounds(front, depth, left);
        let rest = list_verdict(front, depth, left)->Ok_0;
        lemma_filter_bounds(filters[filters.len() - 1], depth, rest);
        assert forall|i: int| 0 <= i < filters.len() implies within_levels(
            #[trigger] filters[i],
            MAX_FILTER_DEPTH - depth,
        ) by {
            if i < front.len() {
                assert(front[i] == filters[i]);
            }
        }
    }
}

/// A filter that is taken has at most 32 levels and at most 1024 nodes.
pub proof fn law_taken_filters_are_bounded(filter: protocol::Filter)
    requires
        filter_verdict(filter, 0, MAX_FILTER_NODES as nat) is Ok,
    ensures
        within_levels(filter, 32),
        filter_nodes(filter) <= 1_024,
{
    lemma_filter_bounds(filter, 0, MAX_FILTER_NODES as nat);
}

/// A filter of a message and the filter of the engine that is made of it have the
/// same fields, values and bounds in the same places, so that a point that meets
/// one in the engine is one that the client asked for.
pub open spec fn asks(filter: protocol::Filter, metadata: crate::metadata::Entries) -> bool
    decreases filter,
{
    match filter {
        protocol::Filter::MatchAll => true,
        protocol::Filter::Eq { field, value } => match (
            crate::metadata::lookup(metadata, field@),
            value_of(value),
        ) {
            (Some(stored), Ok(wanted)) => stored.equals(wanted),
            _ => false,
        },
        protocol::Filter::Range { field, gte, lt } => match crate::metadata::lookup(
            metadata,
            field@,
        ) {
            Some(stored) => match crate::filter::numeric(stored) {
                Some(number) => crate::filter::within(number, gte, lt),
                None => false,
            },
            None => false,
        },
        protocol::Filter::And { filters } => forall|i: int|
            0 <= i < filters@.len() ==> asks(#[trigger] filters@[i], metadata),
        protocol::Filter::Or { filters } => exists|i: int|
            0 <= i < filters@.len() && asks(#[trigger] filters@[i], metadata),
        protocol::Filter::Not { filter } => !asks(*filter, metadata),
    }
}

/// The filter that the engine applies is met by the points that the filter of the
/// message asks for.
pub proof fn law_filters_keep_their_meaning(
    filter: protocol::Filter,
    engine: Filter,
    metadata: crate::metadata::Entries,
)
    requires
        mirrors(filter, engine),
    ensures
        engine.holds(metadata) == asks(filter, metadata),
    decreases filter,
{
    match filter {
        protocol::Filter::And { filters } => {
            let list = engine->And_0;
            assert forall|i: int| 0 <= i < filters@.len() implies (#[trigger] list@[i]).holds(
                metadata,
            ) == asks(filters@[i], metadata) by {
                assert(mirrors(filters@[i], list@[i]));
                law_filters_keep_their_meaning(filters@[i], list@[i], metadata);
            }
            if engine.holds(metadata) {
                assert forall|i: int| 0 <= i < filters@.len() implies asks(
                    #[trigger] filters@[i],
                    metadata,
                ) by {
                    assert(list[i].holds(metadata));
                }
            }
        },
        protocol::Filter::Or { filters } => {
            let list = engine->Or_0;
            assert forall|i: int| 0 <= i < filters@.len() implies (#[trigger] list@[i]).holds(
                metadata,
            ) == asks(filters@[i], metadata) by {
                assert(mirrors(filters@[i], list@[i]));
                law_filters_keep_their_meaning(filters@[i], list@[i], metadata);
            }
            if asks(filter, metadata) {
                let i = choose|i: int|
                    0 <= i < filters@.len() && asks(#[trigger] filters@[i], metadata);
                assert(list[i].holds(metadata));
            }
            if engine.holds(metadata) {
                let i = choose|i: int| 0 <= i < list.len() && (#[trigger] list[i]).holds(metadata);
                assert(asks(filters@[i], metadata));
            }
        },
        protocol::Filter::Not { filter } => {
            law_filters_keep_their_meaning(*filter, *engine->Not_0, metadata);
        },
        _ => {},
    }
}

/// A point of a message, as a point to be stored.
pub open spec fn point_of(point: protocol::Point) -> core::result::Result<UpsertView, ErrorView> {
    match metadata_of(point.metadata@) {
        Err(error) => Err(error),
        Ok(metadata) => Ok(UpsertView { id: point.id@, vector: point.vector@, metadata }),
    }
}

/// Points of a message, or what is wrong with the first that cannot be stored.
pub open spec fn points_of(points: Seq<protocol::Point>) -> core::result::Result<
    Seq<UpsertView>,
    ErrorView,
>
    decreases points.len(),
{
    if points.len() == 0 {
        Ok(seq![])
    } else {
        match points_of(points.drop_last()) {
            Err(error) => Err(error),
            Ok(front) => match point_of(points.last()) {
                Err(error) => Err(error),
                Ok(point) => Ok(front.push(point)),
            },
        }
    }
}

proof fn lemma_points_error(points: Seq<protocol::Point>, count: int)
    requires
        0 <= count <= points.len(),
        points_of(points.subrange(0, count)) is Err,
    ensures
        points_of(points) == points_of(points.subrange(0, count)),
    decreases points.len() - count,
{
    if count == points.len() {
        assert(points.subrange(0, count) =~= points);
    } else {
        assert(points.subrange(0, count + 1).drop_last() =~= points.subrange(0, count));
        lemma_points_error(points, count + 1);
    }
}

/// A point of a message, as a point to be stored.
pub fn point_from_protocol(point: &protocol::Point) -> (result: Result<UpsertPoint>)
    ensures
        match point_of(*point) {
            Ok(view) => result is Ok && result->Ok_0@ == view,
            Err(error) => result is Err && result->Err_0@ == error,
        },
{
    let metadata = read_metadata(&point.metadata)?;
    Ok(
        UpsertPoint {
            id: point.id.clone(),
            vector: crate::collection::copy_vector(&point.vector),
            metadata,
        },
    )
}

/// Points of a message, as points to be stored.
pub fn points_from_protocol(points: &Vec<protocol::Point>) -> (result: Result<Vec<UpsertPoint>>)
    ensures
        match points_of(points@) {
            Ok(list) => result is Ok && crate::collection::views(result->Ok_0@) == list,
            Err(error) => result is Err && result->Err_0@ == error,
        },
{
    let mut list: Vec<UpsertPoint> = Vec::new();
    let mut i: usize = 0;
    proof {
        assert(points@.subrange(0, 0) =~= Seq::empty());
        assert(crate::collection::views(list@) =~= Seq::empty());
    }
    while i < points.len()
        invariant
            i <= points@.len(),
            points_of(points@.subrange(0, i as int)) == Ok::<Seq<UpsertView>, ErrorView>(
                crate::collection::views(list@),
            ),
        decreases points.len() - i,
    {
        let ghost next = points@.subrange(0, i + 1);
        let ghost before = crate::collection::views(list@);
        proof {
            assert(next.drop_last() =~= points@.subrange(0, i as int));
            assert(next.last() == points@[i as int]);
            if points_of(next) is Err {
                lemma_points_error(points@, i + 1);
            }
        }
        let point = point_from_protocol(&points[i])?;
        let ghost value = point@;
        list.push(point);
        assert(crate::collection::views(list@) =~= before.push(value));
        i = i + 1;
    }
    assert(points@.subrange(0, i as int) =~= points@);
    Ok(list)
}

/// What the service has counted.
#[derive(Debug, Clone, Copy, PartialEq, Eq, Structural)]
pub struct ServiceMetrics {
    pub requests: u64,
    pub errors: u64,
    pub queries: u64,
    pub upserted_points: u64,
    pub deleted_ids: u64,
    pub flushes: u64,
    pub backups: u64,
    pub restores: u64,
}

/// A counter in the text format of a metrics endpoint.
pub open spec fn counter(name: Seq<char>, value: Seq<char>) -> Seq<char> {
    "# TYPE "@ + name + " counter\n"@ + name + " "@ + value + "\n"@
}

fn put_counter(text: &mut String, name: &str, value: &str)
    ensures
        final(text)@ == old(text)@ + counter(name@, value@),
{
    let ghost start = text@;
    text.append("# TYPE ");
    text.append(name);
    text.append(" counter\n");
    text.append(name);
    text.append(" ");
    text.append(value);
    text.append("\n");
    assert(text@ =~= start + counter(name@, value@));
}

impl ServiceMetrics {
    /// The counts in the text format of a metrics endpoint.
    pub open spec fn rendered(self, query_seconds: Seq<char>) -> Seq<char> {
        counter("focal_requests_total"@, decimal(self.requests as nat)) + counter(
            "focal_errors_total"@,
            decimal(self.errors as nat),
        ) + counter("focal_queries_total"@, decimal(self.queries as nat)) + counter(
            "focal_query_seconds_total"@,
            query_seconds,
        ) + counter("focal_upserted_points_total"@, decimal(self.upserted_points as nat)) + counter(
            "focal_deleted_ids_total"@,
            decimal(self.deleted_ids as nat),
        ) + counter("focal_flushes_total"@, decimal(self.flushes as nat)) + counter(
            "focal_backups_total"@,
            decimal(self.backups as nat),
        ) + counter("focal_restores_total"@, decimal(self.restores as nat))
    }

    /// The counts in the text format of a metrics endpoint. The seconds that queries
    /// took come as a numeral.
    pub fn render(&self, query_seconds: &str) -> (text: String)
        ensures
            text@ == self.rendered(query_seconds@),
    {
        let mut text = String::new();
        put_counter(&mut text, "focal_requests_total", decimal_text(self.requests).as_str());
        assert(text@ =~= counter("focal_requests_total"@, decimal(self.requests as nat)));
        put_counter(&mut text, "focal_errors_total", decimal_text(self.errors).as_str());
        put_counter(&mut text, "focal_queries_total", decimal_text(self.queries).as_str());
        put_counter(&mut text, "focal_query_seconds_total", query_seconds);
        put_counter(
            &mut text,
            "focal_upserted_points_total",
            decimal_text(self.upserted_points).as_str(),
        );
        put_counter(
            &mut text,
            "focal_deleted_ids_total",
            decimal_text(self.deleted_ids).as_str(),
        );
        put_counter(&mut text, "focal_flushes_total", decimal_text(self.flushes).as_str());
        put_counter(&mut text, "focal_backups_total", decimal_text(self.backups).as_str());
        put_counter(&mut text, "focal_restores_total", decimal_text(self.restores).as_str());
        text
    }
}

/// The limits let through exactly what lies between one and the limit; a breadth may be
/// absent, and is bounded only above.
pub proof fn law_limits_bound_requests(
    limits: ServerConfig,
    dimension: usize,
    count: nat,
    k: usize,
    ef_search: Option<usize>,
)
    ensures
        dimension_fault(limits, dimension) is None <==> 1 <= dimension <= limits.max_dimension,
        upsert_fault(limits, count) is None <==> 1 <= count <= limits.max_batch_points,
        delete_fault(limits, count) is None <==> 1 <= count <= limits.max_batch_points,
        query_fault(limits, k, ef_search) is None <==> 1 <= k <= limits.max_k && (
        ef_search matches Some(ef) ==> ef <= limits.max_ef_search),
{
}

/// The token opens, in a header of its own form, and nothing else does. Without a token
/// every request passes.
pub proof fn law_only_the_token_opens(token: Seq<char>, header: Option<Seq<char>>)
    ensures
        authorized(None, header),
        authorized(Some(token), header) <==> header == Some("Bearer "@ + token),
{
    let word = "Bearer "@;
    if let Some(text) = header {
        if text == word + token {
            assert(word =~= text.subrange(0, word.len() as int));
            assert(text.subrange(word.len() as int, text.len() as int) =~= token);
        }
        if authorized(Some(token), header) {
            assert(word.is_prefix_of(text));
            assert(text =~= word + token);
        }
    }
}

/// The fields of a filter have names, and its values can be metadata.
pub open spec fn sane(filter: protocol::Filter) -> bool
    decreases filter,
{
    match filter {
        protocol::Filter::MatchAll => true,
        protocol::Filter::Eq { field, value } => valid_field(field@) && value_of(value) is Ok,
        protocol::Filter::Range { field, .. } => valid_field(field@),
        protocol::Filter::And { filters } => forall|i: int|
            0 <= i < filters@.len() ==> sane(#[trigger] filters@[i]),
        protocol::Filter::Or { filters } => forall|i: int|
            0 <= i < filters@.len() ==> sane(#[trigger] filters@[i]),
        protocol::Filter::Not { filter } => sane(*filter),
    }
}

/// Every filter of at most 32 levels and 1024 nodes is taken, where its fields have names
/// and its values can be metadata.
pub proof fn law_bounded_filters_are_taken(filter: protocol::Filter)
    requires
        sane(filter),
        within_levels(filter, 32),
        filter_nodes(filter) <= 1_024,
    ensures
        filter_verdict(filter, 0, MAX_FILTER_NODES as nat) is Ok,
{
    lemma_filter_taken(filter, 0, MAX_FILTER_NODES as nat);
}

proof fn lemma_filter_taken(filter: protocol::Filter, depth: nat, left: nat)
    requires
        sane(filter),
        within_levels(filter, MAX_FILTER_DEPTH - depth),
        filter_nodes(filter) <= left,
    ensures
        filter_verdict(filter, depth, left) is Ok,
        filter_verdict(filter, depth, left)->Ok_0 == left - filter_nodes(filter),
    decreases filter,
{
    let rest = (left - 1) as nat;
    match filter {
        protocol::Filter::And { filters } => {
            lemma_list_taken(filters@, depth + 1, rest);
        },
        protocol::Filter::Or { filters } => {
            lemma_list_taken(filters@, depth + 1, rest);
        },
        protocol::Filter::Not { filter } => {
            lemma_filter_taken(*filter, depth + 1, rest);
        },
        _ => {},
    }
}

proof fn lemma_list_taken(filters: Seq<protocol::Filter>, depth: nat, left: nat)
    requires
        forall|i: int|
            0 <= i < filters.len() ==> sane(#[trigger] filters[i]) && within_levels(
                filters[i],
                MAX_FILTER_DEPTH - depth,
            ),
        list_nodes(filters) <= left,
    ensures
        list_verdict(filters, depth, left) is Ok,
        list_verdict(filters, depth, left)->Ok_0 == left - list_nodes(filters),
    decreases filters,
{
    if filters.len() > 0 {
        let front = filters.subrange(0, filters.len() - 1);
        assert forall|i: int| 0 <= i < front.len() implies sane(#[trigger] front[i])
            && within_levels(front[i], MAX_FILTER_DEPTH - depth) by {
            assert(front[i] == filters[i]);
        }
        lemma_list_taken(front, depth, left);
        let end = filters[filters.len() - 1];
        lemma_filter_taken(end, depth, (left - list_nodes(front)) as nat);
    }
}

/// The points of a message are taken where the metadata of each can be read, and then each
/// stands in its place with its own ID, vector and metadata.
pub proof fn law_points_keep_their_places(points: Seq<protocol::Point>)
    ensures
        points_of(points) is Ok <==> forall|i: int|
            0 <= i < points.len() ==> metadata_of((#[trigger] points[i]).metadata@) is Ok,
        points_of(points) matches Ok(list) ==> list.len() == points.len() && forall|i: int|
            0 <= i < points.len() ==> {
                &&& (#[trigger] list[i]).id == points[i].id@
                &&& list[i].vector == points[i].vector@
                &&& metadata_of(points[i].metadata@) == Ok::<_, ErrorView>(list[i].metadata)
            },
    decreases points.len(),
{
    if points.len() > 0 {
        let rest = points.drop_last();
        let end = points.len() - 1;
        law_points_keep_their_places(rest);
        assert forall|i: int| 0 <= i < rest.len() implies rest[i] == #[trigger] points[i] by {}
        if points_of(points) is Ok {
            assert forall|i: int| 0 <= i < points.len() implies metadata_of(
                (#[trigger] points[i]).metadata@,
            ) is Ok by {
                if i < end {
                    assert(metadata_of(rest[i].metadata@) is Ok);
                }
            }
            let list = points_of(points)->Ok_0;
            let front = points_of(rest)->Ok_0;
            assert forall|i: int| 0 <= i < points.len() implies {
                &&& (#[trigger] list[i]).id == points[i].id@
                &&& list[i].vector == points[i].vector@
                &&& metadata_of(points[i].metadata@) == Ok::<_, ErrorView>(list[i].metadata)
            } by {
                if i < end {
                    assert(list[i] == front[i]);
                    assert(rest[i] == points[i]);
                }
            }
        } else if points_of(rest) is Ok {
            assert(metadata_of(points[end].metadata@) is Err);
        } else {
            let i = choose|i: int|
                0 <= i < rest.len() && metadata_of((#[trigger] rest[i]).metadata@) is Err;
            assert(metadata_of(points[i].metadata@) is Err);
        }
    }
}

} // verus!
