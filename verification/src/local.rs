//! Serving the local interface: what a request asks of the engine, and what its
//! outcome is answered with.
use crate::collection::{copy_vector, views, CollectionConfig, HitView, SearchHit, UpsertPoint};
use crate::database::{CollectionSummary, SummaryView};
use crate::error::{Error, ErrorView, Result};
use crate::filter::Filter;
use crate::protocol;
use crate::protocol::{
    engine_metric, metric_from_protocol, metric_to_protocol, shows, write_metadata, Envelope,
    PROTOCOL_VERSION,
};
use crate::raft_storage::copy_ids;
use crate::server::{
    asks, check_delete, check_dimension, check_query, check_upsert, delete_fault, dimension_fault,
    filter_from_protocol, filter_verdict, law_filters_keep_their_meaning,
    law_points_keep_their_places, mirrors, points_from_protocol, points_of, query_fault,
    status_code, upsert_fault, ServerConfig, MAX_FILTER_NODES,
};
use crate::text::{decimal, decimal_text, join};
use vstd::prelude::*;
use vstd::string::*;

verus! {

/// What a request asks of the engine.
pub enum Operation {
    /// Nothing but the version.
    Hello,
    List,
    Create { name: String, config: CollectionConfig },
    Upsert { collection: String, points: Vec<UpsertPoint> },
    Delete { collection: String, ids: Vec<String> },
    Search {
        collection: String,
        vector: Vec<u32>,
        k: usize,
        filter: Option<Filter>,
        ef_search: Option<usize>,
    },
    Flush { collection: String },
}

/// A filter that may be missing says what the one of the message says.
pub open spec fn mirrors_option(
    filter: Option<protocol::Filter>,
    engine: Option<Filter>,
) -> bool {
    match filter {
        None => engine is None,
        Some(f) => engine is Some && mirrors(f, engine->0),
    }
}

/// What is wrong with the filter of a message, if there is one and anything is.
pub open spec fn filter_fault(filter: Option<protocol::Filter>) -> Option<ErrorView> {
    match filter {
        None => None,
        Some(f) => match filter_verdict(f, 0, MAX_FILTER_NODES as nat) {
            Ok(_) => None,
            Err(error) => Some(error),
        },
    }
}

/// A refusal.
pub open spec fn refused<T>(result: Result<T>, error: ErrorView) -> bool {
    result is Err && result->Err_0@ == error
}

/// What a request asks of the engine, or what it is refused for.
pub open spec fn planned(
    limits: ServerConfig,
    request: protocol::Request,
    result: Result<Operation>,
) -> bool {
    match request {
        protocol::Request::Hello => result == Ok::<Operation, Error>(Operation::Hello),
        protocol::Request::ListCollections => result == Ok::<Operation, Error>(Operation::List),
        protocol::Request::CreateCollection { name, dimension, metric } => match dimension_fault(
            limits,
            dimension,
        ) {
            Some(error) => refused(result, error),
            None => result matches Ok(Operation::Create { name: n, config }) && n@ == name@
                && config == (CollectionConfig { dimension, metric: engine_metric(metric) }),
        },
        protocol::Request::Upsert { collection, points } => match upsert_fault(
            limits,
            points@.len(),
        ) {
            Some(error) => refused(result, error),
            None => match points_of(points@) {
                Err(error) => refused(result, error),
                Ok(list) => result matches Ok(Operation::Upsert { collection: c, points: p })
                    && c@ == collection@ && views(p@) == list,
            },
        },
        protocol::Request::Delete { collection, ids } => match delete_fault(limits, ids@.len()) {
            Some(error) => refused(result, error),
            None => result matches Ok(Operation::Delete { collection: c, ids: i }) && c@
                == collection@ && views(i@) == views(ids@),
        },
        protocol::Request::Query { collection, vector, k, filter, ef_search } => match query_fault(
            limits,
            k,
            ef_search,
        ) {
            Some(error) => refused(result, error),
            None => match filter_fault(filter) {
                Some(error) => refused(result, error),
                None => result matches Ok(
                    Operation::Search {
                        collection: c,
                        vector: v,
                        k: wanted,
                        filter: f,
                        ef_search: ef,
                    },
                ) && c@ == collection@ && v@ == vector@ && wanted == k && ef == ef_search
                    && mirrors_option(filter, f),
            },
        },
        protocol::Request::Flush { collection } => result matches Ok(
            Operation::Flush { collection: c },
        ) && c@ == collection@,
    }
}

/// Decides what a request asks of the engine.
pub fn plan_request(limits: &ServerConfig, request: &protocol::Request) -> (result: Result<
    Operation,
>)
    ensures
        planned(*limits, *request, result),
{
    match request {
        protocol::Request::Hello => Ok(Operation::Hello),
        protocol::Request::ListCollections => Ok(Operation::List),
        protocol::Request::CreateCollection { name, dimension, metric } => {
            check_dimension(limits, *dimension)?;
            let metric = metric_from_protocol(*metric);
            Ok(
                Operation::Create {
                    name: name.clone(),
                    config: CollectionConfig { dimension: *dimension, metric },
                },
            )
        },
        protocol::Request::Upsert { collection, points } => {
            check_upsert(limits, points.len())?;
            let points = points_from_protocol(points)?;
            Ok(Operation::Upsert { collection: collection.clone(), points })
        },
        protocol::Request::Delete { collection, ids } => {
            check_delete(limits, ids.len())?;
            Ok(Operation::Delete { collection: collection.clone(), ids: copy_ids(ids) })
        },
        protocol::Request::Query { collection, vector, k, filter, ef_search } => {
            check_query(limits, *k, *ef_search)?;
            let filter = match filter {
                None => None,
                Some(f) => Some(filter_from_protocol(f)?),
            };
            Ok(
                Operation::Search {
                    collection: collection.clone(),
                    vector: copy_vector(vector),
                    k: *k,
                    filter,
                    ef_search: *ef_search,
                },
            )
        },
        protocol::Request::Flush { collection } => Ok(
            Operation::Flush { collection: collection.clone() },
        ),
    }
}

/// A collection of a message tells what a summary tells.
pub open spec fn tells(info: protocol::CollectionInfo, summary: SummaryView) -> bool {
    &&& info.name@ == summary.name
    &&& info.dimension == summary.state.config.dimension
    &&& engine_metric(info.metric) == summary.state.config.metric
    &&& info.points == summary.state.points
    &&& info.latest_sequence == summary.state.latest_sequence
    &&& info.pending_points == summary.state.pending_points
}

/// The answer to a listing.
pub fn collections_response(outcome: Result<Vec<CollectionSummary>>) -> (result: Result<
    protocol::Response,
>)
    ensures
        match outcome {
            Err(error) => result == Err::<protocol::Response, Error>(error),
            Ok(summaries) => {
                &&& result matches Ok(protocol::Response::Collections { collections })
                &&& collections@.len() == summaries@.len()
                &&& forall|i: int|
                    0 <= i < summaries@.len() ==> tells(
                        #[trigger] collections@[i],
                        summaries@[i]@,
                    )
            },
        },
{
    let summaries = outcome?;
    let mut collections: Vec<protocol::CollectionInfo> = Vec::new();
    let mut i: usize = 0;
    while i < summaries.len()
        invariant
            i <= summaries@.len(),
            collections@.len() == i,
            forall|j: int| 0 <= j < i ==> tells(#[trigger] collections@[j], summaries@[j]@),
        decreases summaries.len() - i,
    {
        let summary = &summaries[i];
        collections.push(
            protocol::CollectionInfo {
                name: summary.name.clone(),
                dimension: summary.config.dimension,
                metric: metric_to_protocol(summary.config.metric),
                points: summary.points,
                latest_sequence: summary.latest_sequence,
                pending_points: summary.pending_points,
            },
        );
        i = i + 1;
    }
    Ok(protocol::Response::Collections { collections })
}

/// The answer to a creation, of which the sequence came back.
pub fn created_response(name: &str, config: CollectionConfig, outcome: Result<u64>) -> (result:
    Result<protocol::Response>)
    ensures
        match outcome {
            Err(error) => result == Err::<protocol::Response, Error>(error),
            Ok(sequence) => {
                &&& result matches Ok(protocol::Response::Created { collection })
                &&& collection.name@ == name@
                &&& collection.dimension == config.dimension
                &&& engine_metric(collection.metric) == config.metric
                &&& collection.points == 0
                &&& collection.latest_sequence == sequence
                &&& collection.pending_points == 0
            },
        },
{
    let latest_sequence: u64 = outcome?;
    Ok(
        protocol::Response::Created {
            collection: protocol::CollectionInfo {
                name: name.to_owned(),
                dimension: config.dimension,
                metric: metric_to_protocol(config.metric),
                points: 0,
                latest_sequence,
                pending_points: 0,
            },
        },
    )
}

/// The answer to a commit or a flush.
pub fn sequence_response(outcome: Result<u64>) -> (result: Result<protocol::Response>)
    ensures
        result == match outcome {
            Err(error) => Err::<protocol::Response, Error>(error),
            Ok(sequence) => Ok(protocol::Response::Sequence { sequence }),
        },
{
    let sequence: u64 = outcome?;
    Ok(protocol::Response::Sequence { sequence })
}

/// A result of a message shows a result of the engine.
pub open spec fn shows_hit(shown: protocol::SearchHit, hit: HitView) -> bool {
    &&& shown.id@ == hit.id
    &&& shown.score == hit.score
    &&& shows(shown.metadata@, hit.metadata)
    &&& shown.sequence == hit.sequence
}

/// The answer to a search.
pub fn query_response(outcome: Result<Vec<SearchHit>>) -> (result: Result<protocol::Response>)
    ensures
        match outcome {
            Err(error) => result == Err::<protocol::Response, Error>(error),
            Ok(hits) => {
                &&& result matches Ok(protocol::Response::Query { hits: shown })
                &&& shown@.len() == hits@.len()
                &&& forall|i: int|
                    0 <= i < hits@.len() ==> shows_hit(#[trigger] shown@[i], hits@[i]@)
            },
        },
{
    let hits = outcome?;
    let mut shown: Vec<protocol::SearchHit> = Vec::new();
    let mut i: usize = 0;
    while i < hits.len()
        invariant
            i <= hits@.len(),
            shown@.len() == i,
            forall|j: int| 0 <= j < i ==> shows_hit(#[trigger] shown@[j], hits@[j]@),
        decreases hits.len() - i,
    {
        let hit = &hits[i];
        let metadata = write_metadata(&hit.metadata);
        shown.push(
            protocol::SearchHit {
                id: hit.id.clone(),
                score: hit.score,
                metadata,
                sequence: hit.sequence,
            },
        );
        i = i + 1;
    }
    Ok(protocol::Response::Query { hits: shown })
}

/// The code that an error is answered with.
pub open spec fn error_code(error: ErrorView) -> Seq<char> {
    match error {
        ErrorView::InvalidDimension { .. } => "invalid_request"@,
        ErrorView::InvalidVector(_) => "invalid_request"@,
        ErrorView::InvalidConfig(_) => "invalid_request"@,
        ErrorView::InvalidConfiguration(_) => "invalid_request"@,
        ErrorView::InvalidQuery(_) => "invalid_request"@,
        ErrorView::NotFound(_) => "not_found"@,
        ErrorView::AlreadyExists(_) => "already_exists"@,
        ErrorView::Unauthorized => "unauthorized"@,
        ErrorView::ResourceExhausted(_) => "resource_exhausted"@,
        _ => "internal"@,
    }
}

/// A response that tells of an error.
pub open spec fn tells_error(response: protocol::Response, code: Seq<char>, message: Seq<char>) -> bool {
    response matches protocol::Response::Error { code: c, message: m } && c@ == code && m@
        == message
}

/// The answer to a request that failed.
pub fn error_response(error: &Error) -> (response: protocol::Response)
    ensures
        tells_error(response, error_code(error@), error@.message()),
{
    let code: &'static str = match error {
        Error::InvalidDimension { .. } => "invalid_request",
        Error::InvalidVector(_) => "invalid_request",
        Error::InvalidConfig(_) => "invalid_request",
        Error::InvalidConfiguration(_) => "invalid_request",
        Error::InvalidQuery(_) => "invalid_request",
        Error::NotFound(_) => "not_found",
        Error::AlreadyExists(_) => "already_exists",
        Error::Unauthorized => "unauthorized",
        Error::ResourceExhausted(_) => "resource_exhausted",
        _ => "internal",
    };
    protocol::Response::Error { code: code.to_owned(), message: error.message() }
}

/// The answer to a request, whichever way it came out.
pub fn final_response(outcome: Result<protocol::Response>) -> (response: protocol::Response)
    ensures
        match outcome {
            Ok(r) => response == r,
            Err(error) => tells_error(response, error_code(error@), error@.message()),
        },
{
    match outcome {
        Ok(response) => response,
        Err(error) => error_response(&error),
    }
}

/// The request in an envelope of this version; of any other message, the answer.
/// A message that could not be decoded comes with the reason.
pub fn open_envelope(decoded: core::result::Result<Envelope<protocol::Request>, String>) -> (result:
    core::result::Result<protocol::Request, protocol::Response>)
    ensures
        match decoded {
            Err(reason) => {
                let error = ErrorView::InvalidConfiguration(
                    "invalid local IPC request: "@ + reason@,
                );
                result is Err && tells_error(result->Err_0, error_code(error), error.message())
            },
            Ok(envelope) => if envelope.protocol_version == PROTOCOL_VERSION {
                result == Ok::<protocol::Request, protocol::Response>(envelope.payload)
            } else {
                result is Err && tells_error(
                    result->Err_0,
                    "unsupported_protocol"@,
                    "client sent protocol version "@ + decimal(envelope.protocol_version as nat)
                        + "; server supports "@ + decimal(PROTOCOL_VERSION as nat),
                )
            },
        },
{
    match decoded {
        Err(reason) => {
            let error = Error::InvalidConfiguration(
                join("invalid local IPC request: ", reason.as_str()),
            );
            Err(error_response(&error))
        },
        Ok(envelope) => if envelope.protocol_version == PROTOCOL_VERSION {
            Ok(envelope.payload)
        } else {
            let mut message = join(
                "client sent protocol version ",
                decimal_text(envelope.protocol_version as u64).as_str(),
            );
            message.append("; server supports ");
            message.append(decimal_text(PROTOCOL_VERSION as u64).as_str());
            Err(
                protocol::Response::Error { code: "unsupported_protocol".to_owned(), message },
            )
        },
    }
}

/// Whether a connection may be served: only that of the service's own user.
pub fn check_peer(peer: u32, own: u32) -> (result: Result<()>)
    ensures
        peer == own ==> result is Ok,
        peer != own ==> refused(result, ErrorView::Unauthorized),
{
    if peer != own {
        return Err(Error::Unauthorized);
    }
    Ok(())
}

/// Whether a request is small enough.
pub fn check_body(limits: &ServerConfig, length: usize) -> (result: Result<()>)
    ensures
        length <= limits.max_body_bytes ==> result is Ok,
        length > limits.max_body_bytes ==> refused(
            result,
            ErrorView::ResourceExhausted(
                "local IPC request exceeds the configured body limit"@,
            ),
        ),
{
    if length > limits.max_body_bytes {
        return Err(
            Error::ResourceExhausted(
                "local IPC request exceeds the configured body limit".to_owned(),
            ),
        );
    }
    Ok(())
}

/// Whether the directory of a socket may be used: a directory of the service's own
/// user.
pub fn check_socket_parent(is_directory: bool, owner: u32, own: u32) -> (result: Result<()>)
    ensures
        is_directory && owner == own ==> result is Ok,
        !is_directory || owner != own ==> refused(result, ErrorView::Unauthorized),
{
    if !is_directory || owner != own {
        return Err(Error::Unauthorized);
    }
    Ok(())
}

/// What stands where a socket is to be made.
#[derive(Debug, Clone, Copy, PartialEq, Eq, Structural)]
pub enum SocketPlace {
    Nothing,
    Socket { owner: u32, active: bool },
    Other,
}

/// Whether what stands there is to be removed first.
pub fn judge_socket_place(place: SocketPlace, own: u32, path: &str) -> (result: Result<bool>)
    ensures
        match place {
            SocketPlace::Nothing => result == Ok::<bool, Error>(false),
            SocketPlace::Socket { owner, active } => if owner != own {
                refused(
                    result,
                    ErrorView::InvalidConfiguration(
                        "refusing to replace non-socket or foreign-owned path "@ + path@,
                    ),
                )
            } else if active {
                refused(
                    result,
                    ErrorView::AlreadyExists("active local IPC socket "@ + path@),
                )
            } else {
                result == Ok::<bool, Error>(true)
            },
            SocketPlace::Other => refused(
                result,
                ErrorView::InvalidConfiguration(
                    "refusing to replace non-socket or foreign-owned path "@ + path@,
                ),
            ),
        },
{
    match place {
        SocketPlace::Nothing => Ok(false),
        SocketPlace::Socket { owner, active } => if owner != own {
            Err(
                Error::InvalidConfiguration(
                    join("refusing to replace non-socket or foreign-owned path ", path),
                ),
            )
        } else if active {
            Err(Error::AlreadyExists(join("active local IPC socket ", path)))
        } else {
            Ok(true)
        },
        SocketPlace::Other => Err(
            Error::InvalidConfiguration(
                join("refusing to replace non-socket or foreign-owned path ", path),
            ),
        ),
    }
}

/// A request that is let through asks the engine for what the client asked for, within the
/// limits: the same points in the same places, the same IDs, and a search for as many
/// results of the same vector under a filter that admits the same points.
pub proof fn law_operations_keep_the_request(
    limits: ServerConfig,
    request: protocol::Request,
    result: Result<Operation>,
    metadata: crate::metadata::Entries,
)
    requires
        planned(limits, request, result),
        result is Ok,
    ensures
        match request {
            protocol::Request::Upsert { collection, points } => {
                &&& 1 <= points@.len() <= limits.max_batch_points
                &&& result->Ok_0 matches Operation::Upsert { collection: c, points: p }
                &&& c@ == collection@
                &&& p@.len() == points@.len()
                &&& forall|i: int|
                    0 <= i < p@.len() ==> (#[trigger] p@[i]).id@ == points@[i].id@ && p@[i].vector@
                        == points@[i].vector@
            },
            protocol::Request::Delete { collection, ids } => {
                &&& 1 <= ids@.len() <= limits.max_batch_points
                &&& result->Ok_0 matches Operation::Delete { collection: c, ids: i }
                &&& c@ == collection@
                &&& views(i@) == views(ids@)
            },
            protocol::Request::Query { collection, vector, k, filter, ef_search } => {
                &&& 1 <= k <= limits.max_k
                &&& result->Ok_0 matches Operation::Search {
                    collection: c,
                    vector: v,
                    k: wanted,
                    filter: f,
                    ef_search: ef,
                }
                &&& c@ == collection@
                &&& v@ == vector@
                &&& wanted == k
                &&& ef == ef_search
                &&& filter is Some == f is Some
                &&& filter is Some ==> f->0.holds(metadata) == asks(filter->0, metadata)
            },
            _ => true,
        },
{
    match request {
        protocol::Request::Upsert { collection, points } => {
            law_points_keep_their_places(points@);
            let p = result->Ok_0->Upsert_points;
            let list = points_of(points@)->Ok_0;
            assert forall|i: int| 0 <= i < p@.len() implies (#[trigger] p@[i]).id@
                == points@[i].id@ && p@[i].vector@ == points@[i].vector@ by {
                assert(views(p@)[i] == p@[i]@);
                assert(list[i].id == points@[i].id@);
            }
            assert(views(p@).len() == p@.len());
        },
        protocol::Request::Query { filter, .. } => {
            if let Some(f) = filter {
                law_filters_keep_their_meaning(f, result->Ok_0->filter->0, metadata);
            }
        },
        _ => {},
    }
}

/// The code that a local client is told and the status that a client of the service is
/// told are of one kind.
pub proof fn law_codes_and_statuses_agree(error: ErrorView)
    ensures
        status_code(error) == 400 ==> error_code(error) == "invalid_request"@,
        status_code(error) == 401 ==> error_code(error) == "unauthorized"@,
        status_code(error) == 404 ==> error_code(error) == "not_found"@,
        status_code(error) == 409 ==> error_code(error) == "already_exists"@,
        status_code(error) == 429 ==> error_code(error) == "resource_exhausted"@,
        status_code(error) == 500 ==> error_code(error) == "internal"@,
        [400u16, 401, 404, 409, 429, 500]@.contains(status_code(error)),
{
    let all = [400u16, 401, 404, 409, 429, 500]@;
    assert(all[0] == 400 && all[1] == 401 && all[2] == 404 && all[3] == 409 && all[4] == 429
        && all[5] == 500);
}

} // verus!
