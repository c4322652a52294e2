//! A client of the local interface.
//!
//! The library makes the requests and reads the replies; the caller exchanges the
//! bytes over the socket.
use crate::concurrent::Interval;
use crate::protocol::{
    CollectionInfo, Envelope, Filter, Metric, Point, Request, Response, SearchHit,
    DEFAULT_SOCKET_NAME, PROTOCOL_VERSION,
};
use crate::text::{decimal, decimal_text, join};
use vstd::prelude::*;
use vstd::string::*;
use vstd::utf8::*;

verus! {

/// The longest reply that is read.
pub const DEFAULT_MAX_RESPONSE_BYTES: u64 = 16 * 1024 * 1024;

/// Why a request failed.
#[derive(Debug, PartialEq, Eq)]
pub enum Error {
    Configuration(String),
    Io(String),
    Protocol(String),
    Service { code: String, message: String },
}

/// An [`Error`] with its messages as character sequences.
pub enum ErrorView {
    Configuration(Seq<char>),
    Io(Seq<char>),
    Protocol(Seq<char>),
    Service { code: Seq<char>, message: Seq<char> },
}

impl View for Error {
    type V = ErrorView;

    open spec fn view(&self) -> ErrorView {
        match *self {
            Error::Configuration(m) => ErrorView::Configuration(m@),
            Error::Io(m) => ErrorView::Io(m@),
            Error::Protocol(m) => ErrorView::Protocol(m@),
            Error::Service { code, message } => ErrorView::Service {
                code: code@,
                message: message@,
            },
        }
    }
}

impl ErrorView {
    /// The sentence that describes the error.
    pub open spec fn message(self) -> Seq<char> {
        match self {
            ErrorView::Configuration(m) => m,
            ErrorView::Protocol(m) => m,
            ErrorView::Io(m) => "Focal Vector IPC failed: "@ + m,
            ErrorView::Service { code, message } => "Focal Vector "@ + code + ": "@ + message,
        }
    }
}

impl Error {
    /// The sentence that describes the error.
    pub fn message(&self) -> (text: String)
        ensures
            text@ == self@.message(),
    {
        match self {
            Error::Configuration(m) => m.clone(),
            Error::Protocol(m) => m.clone(),
            Error::Io(m) => join("Focal Vector IPC failed: ", m.as_str()),
            Error::Service { code, message } => {
                let mut text = join("Focal Vector ", code.as_str());
                text.append(": ");
                text.append(message.as_str());
                text
            },
        }
    }
}

/// The client's result type.
pub type Result<T> = core::result::Result<T, Error>;

/// A reply from the socket: its length, the message in it or why it could not be
/// decoded, and the message written out for people.
pub struct Reply {
    pub length: u64,
    pub decoded: core::result::Result<Envelope<Response>, String>,
    pub description: String,
}

/// A client of the local interface.
#[derive(Debug, PartialEq, Eq)]
pub struct Client {
    socket: Vec<u8>,
    timeout: Interval,
    max_response_bytes: u64,
}

/// The path of the socket, and the limits of an exchange.
pub struct ClientView {
    pub socket: Seq<u8>,
    pub timeout: Interval,
    pub max_response_bytes: u64,
}

impl View for Client {
    type V = ClientView;

    closed spec fn view(&self) -> ClientView {
        ClientView {
            socket: self.socket@,
            timeout: self.timeout,
            max_response_bytes: self.max_response_bytes,
        }
    }
}

/// The path of the socket: the one that is set or, in the runtime directory, the
/// usual one. An empty setting counts as none.
pub open spec fn chosen_path(
    setting: Option<Seq<u8>>,
    runtime: Option<Seq<u8>>,
) -> core::result::Result<Seq<u8>, ErrorView> {
    if setting matches Some(path) && path.len() > 0 {
        Ok(setting->0)
    } else if runtime matches Some(directory) && directory.len() > 0 {
        let directory = runtime->0;
        let base = if directory.last() == 0x2f {
            directory
        } else {
            directory.push(0x2f)
        };
        Ok(base + encode_utf8("focaldesk/"@) + encode_utf8(DEFAULT_SOCKET_NAME@))
    } else {
        Err(
            ErrorView::Configuration(
                "XDG_RUNTIME_DIR is required when FOCAL_VECTOR_SOCKET is unset"@,
            ),
        )
    }
}

/// Bytes that may be missing, as a sequence.
pub open spec fn bytes_of(bytes: Option<Vec<u8>>) -> Option<Seq<u8>> {
    match bytes {
        Some(b) => Some(b@),
        None => None,
    }
}

/// The path of the socket.
pub fn socket_path(setting: Option<Vec<u8>>, runtime: Option<Vec<u8>>) -> (result: Result<Vec<u8>>)
    ensures
        match chosen_path(bytes_of(setting), bytes_of(runtime)) {
            Ok(path) => result is Ok && result->Ok_0@ == path,
            Err(error) => result is Err && result->Err_0@ == error,
        },
{
    match setting {
        Some(path) => {
            if path.len() > 0 {
                return Ok(path);
            }
        },
        None => {},
    }
    match runtime {
        Some(directory) => {
            if directory.len() > 0 {
                let mut path = directory;
                if path[path.len() - 1] != 0x2f {
                    path.push(0x2f);
                }
                path.extend_from_slice("focaldesk/".as_bytes());
                path.extend_from_slice(DEFAULT_SOCKET_NAME.as_bytes());
                assert(path@ =~= chosen_path(bytes_of(setting), bytes_of(runtime))->Ok_0);
                return Ok(path);
            }
        },
        None => {},
    }
    Err(
        Error::Configuration(
            "XDG_RUNTIME_DIR is required when FOCAL_VECTOR_SOCKET is unset".to_owned(),
        ),
    )
}

/// What a reply tells: a response of this version that is no error, or why there is
/// none.
pub open spec fn understood(limit: u64, reply: Reply) -> core::result::Result<Response, ErrorView> {
    if reply.length > limit {
        Err(ErrorView::Protocol("IPC response exceeds the configured limit"@))
    } else {
        match reply.decoded {
            Err(reason) => Err(ErrorView::Protocol("invalid IPC response: "@ + reason@)),
            Ok(envelope) => if envelope.protocol_version != PROTOCOL_VERSION {
                Err(
                    ErrorView::Protocol(
                        "unsupported IPC protocol version "@ + decimal(
                            envelope.protocol_version as nat,
                        ) + "; client supports "@ + decimal(PROTOCOL_VERSION as nat),
                    ),
                )
            } else {
                match envelope.payload {
                    Response::Error { code, message } => Err(
                        ErrorView::Service { code: code@, message: message@ },
                    ),
                    response => Ok(response),
                }
            },
        }
    }
}

/// What an exchange comes to.
pub open spec fn replied(limit: u64, exchanged: Result<Reply>) -> core::result::Result<
    Response,
    ErrorView,
> {
    match exchanged {
        Err(error) => Err(error@),
        Ok(reply) => understood(limit, reply),
    }
}

/// A response of another kind than was asked for.
pub open spec fn unexpected(operation: Seq<char>, exchanged: Result<Reply>) -> ErrorView {
    ErrorView::Protocol(
        "unexpected "@ + operation + " response: "@ + exchanged->Ok_0.description@,
    )
}

fn surprise(operation: &str, description: &str) -> (error: Error)
    ensures
        error@ == ErrorView::Protocol(
            "unexpected "@ + operation@ + " response: "@ + description@,
        ),
{
    let mut text = join("unexpected ", operation);
    text.append(" response: ");
    text.append(description);
    Error::Protocol(text)
}

/// The caller sent a request and got a reply, or did not.
pub open spec fn exchanges<E: FnOnce(&Request) -> Result<Reply>>(
    exchange: E,
    request: Request,
    exchanged: Result<Reply>,
) -> bool {
    exchange.ensures((&request,), exchanged)
}

impl Client {
    /// A client of a socket, which waits half a minute.
    pub fn new(socket: Vec<u8>) -> (client: Client)
        ensures
            client@ == (ClientView {
                socket: socket@,
                timeout: Interval { seconds: 30, nanoseconds: 0 },
                max_response_bytes: DEFAULT_MAX_RESPONSE_BYTES,
            }),
    {
        Client {
            socket,
            timeout: Interval { seconds: 30, nanoseconds: 0 },
            max_response_bytes: DEFAULT_MAX_RESPONSE_BYTES,
        }
    }

    /// A client of the socket that the environment names: the setting for the
    /// socket and the runtime directory, where they are set.
    pub fn from_environment(setting: Option<Vec<u8>>, runtime: Option<Vec<u8>>) -> (result: Result<
        Client,
    >)
        ensures
            match chosen_path(bytes_of(setting), bytes_of(runtime)) {
                Ok(path) => result is Ok && result->Ok_0@ == (ClientView {
                    socket: path,
                    timeout: Interval { seconds: 30, nanoseconds: 0 },
                    max_response_bytes: DEFAULT_MAX_RESPONSE_BYTES,
                }),
                Err(error) => result is Err && result->Err_0@ == error,
            },
    {
        let path = socket_path(setting, runtime)?;
        Ok(Client::new(path))
    }

    /// The same client, which waits another time.
    pub fn with_timeout(self, timeout: Interval) -> (client: Client)
        ensures
            client@ == (ClientView { timeout, ..self@ }),
    {
        Client {
            socket: self.socket,
            timeout,
            max_response_bytes: self.max_response_bytes,
        }
    }

    /// The path of the socket.
    pub fn socket(&self) -> (socket: &Vec<u8>)
        ensures
            socket@ == self@.socket,
    {
        &self.socket
    }

    /// How long the client waits.
    pub fn timeout(&self) -> (timeout: Interval)
        ensures
            timeout == self@.timeout,
    {
        self.timeout
    }

    /// The longest reply that the client takes.
    pub fn max_response_bytes(&self) -> (limit: u64)
        ensures
            limit == self@.max_response_bytes,
    {
        self.max_response_bytes
    }

    /// What a reply tells.
    pub fn read_reply(&self, reply: &Reply) -> (result: Result<()>)
        ensures
            match understood(self@.max_response_bytes, *reply) {
                Ok(_) => result is Ok && reply.decoded is Ok,
                Err(error) => result is Err && result->Err_0@ == error,
            },
    {
        if reply.length > self.max_response_bytes {
            return Err(Error::Protocol("IPC response exceeds the configured limit".to_owned()));
        }
        match &reply.decoded {
            Err(reason) => Err(
                Error::Protocol(join("invalid IPC response: ", reason.as_str())),
            ),
            Ok(envelope) => {
                if envelope.protocol_version != PROTOCOL_VERSION {
                    let mut text = join(
                        "unsupported IPC protocol version ",
                        decimal_text(envelope.protocol_version as u64).as_str(),
                    );
                    text.append("; client supports ");
                    text.append(decimal_text(PROTOCOL_VERSION as u64).as_str());
                    return Err(Error::Protocol(text));
                }
                match &envelope.payload {
                    Response::Error { code, message } => Err(
                        Error::Service { code: code.clone(), message: message.clone() },
                    ),
                    _ => Ok(()),
                }
            },
        }
    }

    /// The response to a request, and its description. `exchange` sends the request
    /// and reads the reply.
    pub fn request<E: FnOnce(&Request) -> Result<Reply>>(&self, request: &Request, exchange: E) -> (
    result: Result<(Response, String)>)
        requires
            exchange.requires((request,)),
        ensures
            exists|exchanged: Result<Reply>| #[trigger]
                exchanges(exchange, *request, exchanged) && match replied(
                    self@.max_response_bytes,
                    exchanged,
                ) {
                    Ok(response) => result is Ok && result->Ok_0.0 == response
                        && result->Ok_0.1 == exchanged->Ok_0.description,
                    Err(error) => result is Err && result->Err_0@ == error,
                },
    {
        let exchanged = exchange(request);
        assert(exchanges(exchange, *request, exchanged));
        let reply = exchanged?;
        self.read_reply(&reply)?;
        match reply.decoded {
            Ok(envelope) => Ok((envelope.payload, reply.description)),
            Err(reason) => Err(
                Error::Protocol(join("invalid IPC response: ", reason.as_str())),
            ),
        }
    }

    /// The version of the server.
    pub fn hello<E: FnOnce(&Request) -> Result<Reply>>(&self, exchange: E) -> (result: Result<
        String,
    >)
        requires
            exchange.requires((&Request::Hello,)),
        ensures
            exists|exchanged: Result<Reply>| #[trigger]
                exchanges(exchange, Request::Hello, exchanged) && match replied(
                    self@.max_response_bytes,
                    exchanged,
                ) {
                    Ok(Response::Hello { server_version }) => result == Ok::<String, Error>(
                        server_version,
                    ),
                    Ok(_) => result is Err && result->Err_0@ == unexpected("hello"@, exchanged),
                    Err(error) => result is Err && result->Err_0@ == error,
                },
    {
        let (response, description) = self.request(&Request::Hello, exchange)?;
        match response {
            Response::Hello { server_version } => Ok(server_version),
            _ => Err(surprise("hello", description.as_str())),
        }
    }

    /// The collections of the server.
    pub fn list_collections<E: FnOnce(&Request) -> Result<Reply>>(&self, exchange: E) -> (result:
        Result<Vec<CollectionInfo>>)
        requires
            exchange.requires((&Request::ListCollections,)),
        ensures
            exists|exchanged: Result<Reply>| #[trigger]
                exchanges(exchange, Request::ListCollections, exchanged) && match replied(
                    self@.max_response_bytes,
                    exchanged,
                ) {
                    Ok(Response::Collections { collections }) => result == Ok::<
                        Vec<CollectionInfo>,
                        Error,
                    >(collections),
                    Ok(_) => result is Err && result->Err_0@ == unexpected(
                        "list_collections"@,
                        exchanged,
                    ),
                    Err(error) => result is Err && result->Err_0@ == error,
                },
    {
        let (response, description) = self.request(&Request::ListCollections, exchange)?;
        match response {
            Response::Collections { collections } => Ok(collections),
            _ => Err(surprise("list_collections", description.as_str())),
        }
    }

    /// Makes a collection.
    pub fn create_collection<E: FnOnce(&Request) -> Result<Reply>>(
        &self,
        name: String,
        dimension: usize,
        metric: Metric,
        exchange: E,
    ) -> (result: Result<CollectionInfo>)
        requires
            exchange.requires((&Request::CreateCollection { name, dimension, metric },)),
        ensures
            exists|exchanged: Result<Reply>| #[trigger]
                exchanges(
                    exchange,
                    Request::CreateCollection { name, dimension, metric },
                    exchanged,
                ) && match replied(self@.max_response_bytes, exchanged) {
                    Ok(Response::Created { collection }) => result == Ok::<CollectionInfo, Error>(
                        collection,
                    ),
                    Ok(_) => result is Err && result->Err_0@ == unexpected(
                        "create_collection"@,
                        exchanged,
                    ),
                    Err(error) => result is Err && result->Err_0@ == error,
                },
    {
        let request = Request::CreateCollection { name, dimension, metric };
        let (response, description) = self.request(&request, exchange)?;
        match response {
            Response::Created { collection } => Ok(collection),
            _ => Err(surprise("create_collection", description.as_str())),
        }
    }

    /// The sequence of a change.
    fn sequence<E: FnOnce(&Request) -> Result<Reply>>(&self, request: Request, exchange: E) -> (
    result: Result<u64>)
        requires
            exchange.requires((&request,)),
        ensures
            sequenced(self@, exchange, request, result),
    {
        let (response, description) = self.request(&request, exchange)?;
        match response {
            Response::Sequence { sequence } => Ok(sequence),
            _ => Err(surprise("mutation", description.as_str())),
        }
    }

    /// Writes points.
    pub fn upsert<E: FnOnce(&Request) -> Result<Reply>>(
        &self,
        collection: String,
        points: Vec<Point>,
        exchange: E,
    ) -> (result: Result<u64>)
        requires
            exchange.requires((&Request::Upsert { collection, points },)),
        ensures
            sequenced(self@, exchange, Request::Upsert { collection, points }, result),
    {
        self.sequence(Request::Upsert { collection, points }, exchange)
    }

    /// Deletes points.
    pub fn delete<E: FnOnce(&Request) -> Result<Reply>>(
        &self,
        collection: String,
        ids: Vec<String>,
        exchange: E,
    ) -> (result: Result<u64>)
        requires
            exchange.requires((&Request::Delete { collection, ids },)),
        ensures
            sequenced(self@, exchange, Request::Delete { collection, ids }, result),
    {
        self.sequence(Request::Delete { collection, ids }, exchange)
    }

    /// The best points.
    pub fn query<E: FnOnce(&Request) -> Result<Reply>>(
        &self,
        collection: String,
        vector: Vec<u32>,
        k: usize,
        filter: Option<Filter>,
        ef_search: Option<usize>,
        exchange: E,
    ) -> (result: Result<Vec<SearchHit>>)
        requires
            exchange.requires((&Request::Query { collection, vector, k, filter, ef_search },)),
        ensures
            exists|exchanged: Result<Reply>| #[trigger]
                exchanges(
                    exchange,
                    Request::Query { collection, vector, k, filter, ef_search },
                    exchanged,
                ) && match replied(self@.max_response_bytes, exchanged) {
                    Ok(Response::Query { hits }) => result == Ok::<Vec<SearchHit>, Error>(hits),
                    Ok(_) => result is Err && result->Err_0@ == unexpected("query"@, exchanged),
                    Err(error) => result is Err && result->Err_0@ == error,
                },
    {
        let request = Request::Query { collection, vector, k, filter, ef_search };
        let (response, description) = self.request(&request, exchange)?;
        match response {
            Response::Query { hits } => Ok(hits),
            _ => Err(surprise("query", description.as_str())),
        }
    }

    /// Flushes a collection.
    pub fn flush<E: FnOnce(&Request) -> Result<Reply>>(&self, collection: String, exchange: E) -> (
    result: Result<u64>)
        requires
            exchange.requires((&Request::Flush { collection },)),
        ensures
            sequenced(self@, exchange, Request::Flush { collection }, result),
    {
        self.sequence(Request::Flush { collection }, exchange)
    }
}

/// A result as a request for a change has it: the sequence that the server tells,
/// or why there is none.
pub open spec fn sequenced<E: FnOnce(&Request) -> Result<Reply>>(
    client: ClientView,
    exchange: E,
    request: Request,
    result: Result<u64>,
) -> bool {
    exists|exchanged: Result<Reply>| #[trigger]
        exchanges(exchange, request, exchanged) && match replied(
            client.max_response_bytes,
            exchanged,
        ) {
            Ok(Response::Sequence { sequence }) => result == Ok::<u64, Error>(sequence),
            Ok(_) => result is Err && result->Err_0@ == unexpected("mutation"@, exchanged),
            Err(error) => result is Err && result->Err_0@ == error,
        }
}

/// A client takes a reply for the response in it exactly where it is no longer than the
/// limit, was decoded, is of the version that the client speaks, and tells of no error.
pub proof fn law_only_proper_replies_are_taken(limit: u64, reply: Reply, response: Response)
    ensures
        understood(limit, reply) == Ok::<Response, ErrorView>(response) <==> {
            &&& reply.length <= limit
            &&& reply.decoded is Ok
            &&& reply.decoded->Ok_0.protocol_version == PROTOCOL_VERSION
            &&& reply.decoded->Ok_0.payload == response
            &&& !(response is Error)
        },
{
}

/// The socket that is set is the one that is used; without it the socket lies in the
/// runtime directory; and without either there is none.
pub proof fn law_setting_names_the_socket(setting: Option<Seq<u8>>, runtime: Option<Seq<u8>>)
    ensures
        setting is Some && setting->0.len() > 0 ==> chosen_path(setting, runtime) == Ok::<
            Seq<u8>,
            ErrorView,
        >(setting->0),
        !(setting is Some && setting->0.len() > 0) ==> match chosen_path(setting, runtime) {
            Ok(path) => runtime is Some && runtime->0.len() > 0 && runtime->0.is_prefix_of(path)
                && path.len() > runtime->0.len(),
            Err(_) => runtime is None || runtime->0.len() == 0,
        },
{
    if !(setting is Some && setting->0.len() > 0) && runtime is Some && runtime->0.len() > 0 {
        let directory = runtime->0;
        let path = chosen_path(setting, runtime)->Ok_0;
        reveal_strlit("focaldesk/");
        let tail = encode_utf8("focaldesk/"@);
        assert(tail.len() > 0) by {
            if tail.len() == 0 {
                assert(tail =~= encode_utf8(""@)) by {
                    reveal_strlit("");
                    assert(""@ =~= Seq::<char>::empty());
                }
                crate::text::lemma_encoding_injective("focaldesk/"@, ""@);
                reveal_strlit("");
            }
        }
        assert(directory =~= path.subrange(0, directory.len() as int));
    }
}

} // verus!
