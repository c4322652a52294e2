use std::cell::RefCell;

use focal_vector::client::{Client, Error as ClientError, Reply};
use focal_vector::database::CollectionState;
use focal_vector::local::{
    check_body, check_peer, check_socket_parent, collections_response, created_response,
    error_response, final_response, judge_socket_place, open_envelope, plan_request,
    query_response, sequence_response, Operation, SocketPlace,
};
use focal_vector::protocol::{
    json_value, metadata_value, metric_to_protocol, CollectionInfo, Envelope, Filter as ApiFilter,
    JsonNumber, JsonValue, Metric as ApiMetric, Point as ApiPoint, Request, Response,
    PROTOCOL_VERSION,
};
use focal_vector::server::{
    authorize, check_query, constant_time_equal, filter_from_protocol, is_error_status,
    point_from_protocol, status_of, validate_limits, ServiceMetrics,
};
use focal_vector::{
    Database, DatabaseConfig, Durability, Error, Filter, Interval, Kernel, Metadata, Metric,
    PersistentCollection, Result, ServerConfig, Value,
};

struct Floats;

impl Kernel for Floats {
    fn normalize(&self, vector: &Vec<u32>) -> Vec<u32> {
        let values = floats(vector);
        let squared = values
            .iter()
            .map(|value| (*value as f64) * (*value as f64))
            .sum::<f64>();
        let inverse = squared.sqrt().recip() as f32;
        values.iter().map(|value| (value * inverse).to_bits()).collect()
    }

    fn score(&self, metric: Metric, query: &Vec<u32>, candidate: &Vec<u32>) -> u32 {
        let pairs: Vec<(f32, f32)> = floats(query).into_iter().zip(floats(candidate)).collect();
        let score: f32 = match metric {
            Metric::Cosine | Metric::DotProduct => pairs.iter().map(|(a, b)| a * b).sum(),
            Metric::Euclidean => -pairs.iter().map(|(a, b)| (a - b) * (a - b)).sum::<f32>(),
        };
        score.to_bits()
    }
}

fn floats(vector: &[u32]) -> Vec<f32> {
    vector.iter().map(|bits| f32::from_bits(*bits)).collect()
}

fn bits(vector: &[f32]) -> Vec<u32> {
    vector.iter().map(|value| value.to_bits()).collect()
}

#[test]
fn envelope_round_trips_with_explicit_version() {
    let envelope = Envelope::current(Request::Hello);
    assert_eq!(envelope.protocol_version, PROTOCOL_VERSION);
    assert_eq!(open_envelope(Ok(envelope)), Ok(Request::Hello));
}

#[test]
fn bearer_comparison_checks_contents_and_length() {
    assert!(constant_time_equal(b"secret", b"secret"));
    assert!(!constant_time_equal(b"secret", b"secrex"));
    assert!(!constant_time_equal(b"secret", b"secret-long"));
}

#[test]
fn rejects_deep_filters_and_complex_metadata() {
    let mut filter = ApiFilter::MatchAll;
    for _ in 0..33 {
        filter = ApiFilter::Not { filter: Box::new(filter) };
    }
    assert!(matches!(filter_from_protocol(&filter), Err(Error::ResourceExhausted(_))));
    let nested = JsonValue::Object(vec![("nested".into(), JsonValue::Bool(true))]);
    assert!(metadata_value(&nested).is_err());
}

#[test]
fn filters_at_the_bounds_are_taken() {
    let mut filter = ApiFilter::MatchAll;
    for _ in 0..31 {
        filter = ApiFilter::Not { filter: Box::new(filter) };
    }
    assert!(filter_from_protocol(&filter).is_ok());
    let wide = |count: usize| ApiFilter::Or {
        filters: (0..count).map(|_| ApiFilter::MatchAll).collect(),
    };
    assert!(filter_from_protocol(&wide(1_023)).is_ok());
    assert!(matches!(
        filter_from_protocol(&wide(1_024)),
        Err(Error::ResourceExhausted(message)) if message == "filter contains more than 1024 nodes"
    ));
    let named = |length: usize| ApiFilter::Eq {
        field: "f".repeat(length),
        value: JsonValue::Bool(true),
    };
    assert!(filter_from_protocol(&named(128)).is_ok());
    assert!(filter_from_protocol(&named(129)).is_err());
    assert!(filter_from_protocol(&named(0)).is_err());
}

#[test]
fn filters_keep_their_meaning() {
    let mut metadata = Metadata::new();
    metadata.insert("tenant".into(), Value::Keyword("acme".into()));
    metadata.insert("price".into(), Value::Integer(5));
    let filter = filter_from_protocol(&ApiFilter::And {
        filters: vec![
            ApiFilter::Eq { field: "tenant".into(), value: JsonValue::String("acme".into()) },
            ApiFilter::Range {
                field: "price".into(),
                gte: Some(5.0f64.to_bits()),
                lt: Some(6.0f64.to_bits()),
            },
        ],
    })
    .unwrap();
    assert!(filter.matches(&metadata));
    metadata.insert("price".into(), Value::Integer(6));
    assert!(!filter.matches(&metadata));
    assert!(matches!(filter, Filter::And(_)));
}

#[test]
fn values_come_back() {
    for value in [
        Value::Keyword("text".into()),
        Value::Integer(-3),
        Value::Float(0.5f64.to_bits()),
        Value::Boolean(false),
    ] {
        assert_eq!(metadata_value(&json_value(&value)), Ok(value));
    }
    assert_eq!(json_value(&Value::Float(f64::INFINITY.to_bits())), JsonValue::Null);
    assert!(metadata_value(&JsonValue::Null).is_err());
    assert!(metadata_value(&JsonValue::Array(vec![])).is_err());
    let large = JsonValue::Number(JsonNumber { integer: None, double: Some(1e30f64.to_bits()) });
    assert_eq!(metadata_value(&large), Ok(Value::Float(1e30f64.to_bits())));
}

#[test]
fn bearer_tokens_are_asked_for() {
    assert!(authorize(None, None).is_ok());
    assert!(authorize(Some("secret"), Some("Bearer secret")).is_ok());
    assert_eq!(authorize(Some("secret"), Some("Bearer wrong")), Err(Error::Unauthorized));
    assert_eq!(authorize(Some("secret"), Some("secret")), Err(Error::Unauthorized));
    assert_eq!(authorize(Some("secret"), None), Err(Error::Unauthorized));
    assert_eq!(status_of(&Error::Unauthorized), 401);
    assert_eq!(status_of(&Error::NotFound("x".into())), 404);
    assert_eq!(status_of(&Error::AlreadyExists("x".into())), 409);
    assert_eq!(status_of(&Error::InvalidQuery("x")), 400);
    assert_eq!(status_of(&Error::SequenceOverflow), 500);
    assert!(is_error_status(400));
    assert!(!is_error_status(399));
}

#[test]
fn request_limits_are_kept() {
    let limits = ServerConfig { max_k: 10, max_ef_search: 20, ..ServerConfig::default() };
    assert!(validate_limits(&limits).is_ok());
    assert!(validate_limits(&ServerConfig { max_k: 0, ..ServerConfig::default() }).is_err());
    assert!(check_query(&limits, 10, Some(20)).is_ok());
    assert_eq!(
        check_query(&limits, 11, None),
        Err(Error::ResourceExhausted("k must be between 1 and 10".into()))
    );
    assert_eq!(
        check_query(&limits, 1, Some(21)),
        Err(Error::ResourceExhausted("ef_search must not exceed 20".into()))
    );
    assert!(check_body(&ServerConfig { max_body_bytes: 5, ..ServerConfig::default() }, 5).is_ok());
    assert!(check_body(&ServerConfig { max_body_bytes: 5, ..ServerConfig::default() }, 6).is_err());
}

#[test]
fn metrics_are_written_out() {
    let metrics = ServiceMetrics {
        requests: 8,
        errors: 0,
        queries: 2,
        upserted_points: 1,
        deleted_ids: 0,
        flushes: 0,
        backups: 1,
        restores: 1,
    };
    let text = metrics.render("0.000000123");
    assert!(text.contains("focal_queries_total 2"));
    assert!(text.contains("focal_backups_total 1"));
    assert!(text.contains("focal_restores_total 1"));
    assert!(text.starts_with("# TYPE focal_requests_total counter\nfocal_requests_total 8\n"));
    assert!(text.contains("focal_query_seconds_total 0.000000123\n"));
}

#[test]
fn sockets_are_judged_before_they_are_replaced() {
    assert_eq!(judge_socket_place(SocketPlace::Nothing, 7, "/s"), Ok(false));
    let stale = SocketPlace::Socket { owner: 7, active: false };
    assert_eq!(judge_socket_place(stale, 7, "/s"), Ok(true));
    assert_eq!(
        judge_socket_place(SocketPlace::Socket { owner: 7, active: true }, 7, "/s"),
        Err(Error::AlreadyExists("active local IPC socket /s".into()))
    );
    assert!(judge_socket_place(SocketPlace::Socket { owner: 8, active: false }, 7, "/s").is_err());
    assert!(judge_socket_place(SocketPlace::Other, 7, "/s").is_err());
    assert!(check_peer(7, 7).is_ok());
    assert_eq!(check_peer(8, 7), Err(Error::Unauthorized));
    assert!(check_socket_parent(true, 7, 7).is_ok());
    assert!(check_socket_parent(false, 7, 7).is_err());
}

/// A service whose collections log into memory.
struct Service {
    database: RefCell<Database<RefCell<PersistentCollection>>>,
    limits: ServerConfig,
}

impl Service {
    fn new() -> Service {
        Service {
            database: RefCell::new(Database::open(DatabaseConfig::default()).unwrap()),
            limits: ServerConfig::default(),
        }
    }

    fn handle(&self, request: &Request) -> Result<Response> {
        let mut database = self.database.borrow_mut();
        match plan_request(&self.limits, request)? {
            Operation::Hello => Ok(Response::Hello { server_version: "1.2.3".into() }),
            Operation::List => collections_response(database.list_collections(
                |collection: &RefCell<PersistentCollection>| {
                    let collection = collection.borrow();
                    Ok(CollectionState {
                        config: collection.config(),
                        points: collection.len(),
                        latest_sequence: collection.latest_sequence(),
                        pending_points: collection.pending_point_count(),
                    })
                },
            )),
            Operation::Create { name, config } => {
                let outcome = database
                    .create_collection(&name, config, |_: &str, config| {
                        let (collection, _) = PersistentCollection::open(
                            &Floats,
                            config,
                            Durability::Sync,
                            None,
                            &[],
                        )?;
                        Ok(RefCell::new(collection))
                    })
                    .map(|_| 0);
                created_response(&name, config, outcome)
            }
            Operation::Upsert { collection, points } => {
                let collection = database.collection(&collection)?;
                let outcome =
                    collection.borrow_mut().upsert(&Floats, points, |_: &Vec<u8>| Ok(()));
                sequence_response(outcome)
            }
            Operation::Delete { collection, ids } => {
                let collection = database.collection(&collection)?;
                let outcome = collection.borrow_mut().delete(ids, |_: &Vec<u8>| Ok(()));
                sequence_response(outcome)
            }
            Operation::Search { collection, vector, k, filter, ef_search } => {
                let collection = database.collection(&collection)?.borrow();
                query_response(match ef_search {
                    Some(ef) => {
                        collection.search_with_ef(&Floats, vector, k, filter.as_ref(), ef)
                    }
                    None => collection.search(&Floats, vector, k, filter.as_ref()),
                })
            }
            Operation::Flush { collection } => {
                let collection = database.collection(&collection)?;
                let sequence = collection.borrow().latest_sequence();
                sequence_response(Ok(sequence))
            }
        }
    }

    fn exchange(&self, request: &Request) -> core::result::Result<Reply, ClientError> {
        let response = final_response(self.handle(request));
        let description = format!("{response:?}");
        Ok(Reply { length: 100, decoded: Ok(Envelope::current(response)), description })
    }
}

fn api_point(id: &str, vector: [f32; 2], metadata: Vec<(String, JsonValue)>) -> ApiPoint {
    ApiPoint { id: id.into(), vector: bits(&vector), metadata }
}

#[test]
fn local_client_round_trips_core_operations() {
    let service = Service::new();
    let client = Client::new(b"/run/focal-vector.sock".to_vec());
    let exchange = |request: &Request| service.exchange(request);
    assert_eq!(client.hello(exchange).unwrap(), "1.2.3");
    let created = client
        .create_collection("memories".into(), 2, ApiMetric::Cosine, exchange)
        .unwrap();
    assert_eq!(created.name, "memories");
    assert_eq!(created.dimension, 2);

    let sequence = client
        .upsert(
            "memories".into(),
            vec![
                api_point(
                    "one",
                    [1.0, 0.0],
                    vec![("text".into(), JsonValue::String("first".into()))],
                ),
                api_point("two", [0.0, 1.0], vec![]),
            ],
            exchange,
        )
        .unwrap();
    assert_eq!(sequence, 1);

    let hits = client
        .query("memories".into(), bits(&[0.9, 0.1]), 1, None, None, exchange)
        .unwrap();
    assert_eq!(hits.len(), 1);
    assert_eq!(hits[0].id, "one");
    assert_eq!(hits[0].metadata, [("text".to_string(), JsonValue::String("first".into()))]);

    assert_eq!(client.delete("memories".into(), vec!["one".into()], exchange).unwrap(), 2);
    assert_eq!(client.list_collections(exchange).unwrap()[0].points, 1);
    assert_eq!(client.flush("memories".into(), exchange).unwrap(), 2);
    let missing = client.flush("absent".into(), exchange).unwrap_err();
    assert_eq!(
        missing,
        ClientError::Service {
            code: "not_found".into(),
            message: Error::NotFound("collection absent".into()).message(),
        }
    );
}

#[test]
fn clients_check_what_they_are_answered() {
    let client = Client::new(b"/s".to_vec())
        .with_timeout(Interval { seconds: 2, nanoseconds: 0 });
    assert_eq!(client.socket(), b"/s");
    assert_eq!(client.timeout(), Interval { seconds: 2, nanoseconds: 0 });
    let reply = |length: u64, version: u16, response: Response| Reply {
        length,
        description: format!("{response:?}"),
        decoded: Ok(Envelope { protocol_version: version, payload: response }),
    };
    let hello = || Response::Hello { server_version: "1".into() };
    assert_eq!(
        client.hello(|_: &Request| Ok(reply(client.max_response_bytes() + 1, 1, hello()))),
        Err(ClientError::Protocol("IPC response exceeds the configured limit".into()))
    );
    assert_eq!(
        client.hello(|_: &Request| Ok(reply(1, 2, hello()))),
        Err(ClientError::Protocol(
            "unsupported IPC protocol version 2; client supports 1".into()
        ))
    );
    assert_eq!(
        client.hello(|_: &Request| Ok(reply(1, 1, Response::Sequence { sequence: 4 }))),
        Err(ClientError::Protocol(
            "unexpected hello response: Sequence { sequence: 4 }".into()
        ))
    );
    assert_eq!(
        client.hello(|_: &Request| Err(ClientError::Io("refused".into()))),
        Err(ClientError::Io("refused".into()))
    );
    assert_eq!(ClientError::Io("refused".into()).message(), "Focal Vector IPC failed: refused");
    assert_eq!(
        Client::from_environment(None, Some(b"/run/user/1".to_vec())).unwrap().socket(),
        b"/run/user/1/focaldesk/focal-vector.sock"
    );
    assert!(matches!(
        Client::from_environment(None, None),
        Err(ClientError::Configuration(_))
    ));
    assert_eq!(
        Client::from_environment(Some(b"/own".to_vec()), None).unwrap().socket(),
        b"/own"
    );
}

#[test]
fn requests_of_another_version_are_refused() {
    let envelope = Envelope { protocol_version: 9, payload: Request::Hello };
    assert_eq!(
        open_envelope(Ok(envelope)),
        Err(Response::Error {
            code: "unsupported_protocol".into(),
            message: "client sent protocol version 9; server supports 1".into(),
        })
    );
    assert_eq!(
        error_response(&Error::Unauthorized),
        Response::Error {
            code: "unauthorized".into(),
            message: Error::Unauthorized.message(),
        }
    );
    assert!(open_envelope(Err("not JSON".into())).is_err());
}

#[test]
fn points_and_infos_are_carried_over() {
    let taken =
        point_from_protocol(&api_point("p", [1.0, 2.0], vec![("n".into(), JsonValue::Null)]));
    assert!(taken.is_err());
    let taken = point_from_protocol(&api_point(
        "p",
        [1.0, 2.0],
        vec![("n".into(), JsonValue::Bool(true))],
    ))
    .unwrap();
    assert_eq!(taken.metadata.get("n"), Some(&Value::Boolean(true)));
    assert_eq!(metric_to_protocol(Metric::Euclidean), ApiMetric::Euclidean);
    let info = CollectionInfo {
        name: "c".into(),
        dimension: 1,
        metric: ApiMetric::DotProduct,
        points: 0,
        latest_sequence: 0,
        pending_points: 0,
    };
    assert_eq!(
        created_response(
            "c",
            focal_vector::CollectionConfig { dimension: 1, metric: Metric::DotProduct },
            Ok(0)
        ),
        Ok(Response::Created { collection: info })
    );
}
