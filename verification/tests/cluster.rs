use std::cell::RefCell;

use focal_vector::bench::{ef_search_values, metric_of_name, name_point, ExactTop, SweepFault};
use focal_vector::concurrent::{FlushAction, FlushEvent};
use focal_vector::cuda::{cuda_error, select_top_k, CudaHit, CudaIndex, Setting};
use focal_vector::database::{discover, validate_collection_name, CollectionState, FoundEntry};
use focal_vector::distributed::{order_replies, replica_sets, url_of, Dispatch, Reply};
use focal_vector::ids::IdSet;
use focal_vector::persistence::flush::Publication;
use focal_vector::persistence::segment::{read_manifest, Manifest};
use focal_vector::persistence::StoredSegment;
use focal_vector::raft_node::{
    api_error, authorized, blocked_message, check_node_file, check_node_id, check_token,
    BlockedPeers,
};
use focal_vector::sharding::{commit_part, stable_hash, ShardCommit};
use focal_vector::tls::{
    accept_key, build_http_client, check_certificates, check_client_roots, choose_transport,
    client_authorities, client_identity, collect_certificates, server_certificates,
    server_private_key, KeyForm, Transport,
};
use focal_vector::{
    shard_index, BackgroundFlusher, CollectionConfig, CudaSearchConfig, CudaSearchMode, Database,
    DatabaseConfig, DistributedCollection, Durability, Error, HttpClientTlsConfig, Interval,
    Kernel, Metadata, Metric, PersistentCollection, Point, ReplicaSet, Result, SearchHit,
    ShardCommand, ShardResponse, ShardedCollection, UpsertPoint, Value,
};

struct Floats;

impl Kernel for Floats {
    fn normalize(&self, vector: &Vec<u32>) -> Vec<u32> {
        let values = floats(vector);
        let squared = values
            .iter()
            .map(|value| (*value as f64) * (*value as f64))
            .sum::<f64>();
        let inverse = squared.sqrt().recip() as f32;
        values.iter().map(|value| (value * inverse).to_bits()).collect()
    }

    fn score(&self, metric: Metric, query: &Vec<u32>, candidate: &Vec<u32>) -> u32 {
        let pairs: Vec<(f32, f32)> = floats(query).into_iter().zip(floats(candidate)).collect();
        let score: f32 = match metric {
            Metric::Cosine | Metric::DotProduct => pairs.iter().map(|(a, b)| a * b).sum(),
            Metric::Euclidean => -pairs.iter().map(|(a, b)| (a - b) * (a - b)).sum::<f32>(),
        };
        score.to_bits()
    }
}

fn floats(vector: &[u32]) -> Vec<f32> {
    vector.iter().map(|bits| f32::from_bits(*bits)).collect()
}

fn bits(vector: &[f32]) -> Vec<u32> {
    vector.iter().map(|value| value.to_bits()).collect()
}

fn config() -> CollectionConfig {
    CollectionConfig { dimension: 2, metric: Metric::DotProduct }
}

fn point(id: &str, vector: [f32; 2]) -> UpsertPoint {
    let mut metadata = Metadata::new();
    metadata.insert("tenant".into(), Value::Keyword("a".into()));
    UpsertPoint { id: id.into(), vector: bits(&vector), metadata }
}

fn ids(hits: &[SearchHit]) -> Vec<&str> {
    hits.iter().map(|hit| hit.id.as_str()).collect()
}

/// One shard whose files are kept in memory.
struct Shard {
    collection: RefCell<PersistentCollection>,
    wal: RefCell<Vec<u8>>,
    segment: RefCell<Option<(Manifest, Vec<u8>)>>,
}

impl Shard {
    fn open(
        config: CollectionConfig,
        wal: Vec<u8>,
        segment: Option<(Manifest, Vec<u8>)>,
    ) -> Shard {
        let stored = segment
            .as_ref()
            .map(|(manifest, bytes)| StoredSegment { sequence: manifest.sequence, bytes });
        let (collection, valid) =
            PersistentCollection::open(&Floats, config, Durability::Sync, stored, &wal).unwrap();
        assert_eq!(valid, wal.len());
        Shard {
            collection: RefCell::new(collection),
            wal: RefCell::new(wal),
            segment: RefCell::new(segment),
        }
    }

    fn upsert(&self, points: Vec<UpsertPoint>) -> Result<u64> {
        self.collection.borrow_mut().upsert(&Floats, points, |frame: &Vec<u8>| {
            self.wal.borrow_mut().extend_from_slice(frame);
            Ok(())
        })
    }

    fn delete(&self, ids: Vec<String>) -> Result<u64> {
        self.collection.borrow_mut().delete(ids, |frame: &Vec<u8>| {
            self.wal.borrow_mut().extend_from_slice(frame);
            Ok(())
        })
    }

    fn search(&self, query: Vec<u32>, k: usize, ef: usize) -> Result<Vec<SearchHit>> {
        self.collection.borrow().search_with_ef(&Floats, query, k, None, ef)
    }

    fn flush(&self) -> Result<u64> {
        self.collection.borrow_mut().flush(
            &Floats,
            None,
            |bytes: &Vec<u8>, plan: &Publication| {
                if let Publication::Write { manifest, empty_log, .. } = plan {
                    *self.segment.borrow_mut() = Some((read_manifest(manifest)?, bytes.clone()));
                    if *empty_log {
                        self.wal.borrow_mut().clear();
                    }
                }
                Ok(())
            },
        )
    }
}

#[test]
fn routing_is_stable() {
    assert_eq!(stable_hash(b"hello"), 0xa430d84680aabd0b);
    let collection = ShardedCollection::open(config(), 7).unwrap();
    assert_eq!(collection.shard_for_id("point-42"), 0);
    assert_eq!(shard_index("point-42", 7), 0);
}

#[test]
fn merges_global_top_k_and_survives_restart() {
    let collection = ShardedCollection::open(config(), 4).unwrap();
    let shards: Vec<Shard> = (0..4).map(|_| Shard::open(config(), vec![], None)).collect();
    let commits = collection
        .upsert(
            &Floats,
            vec![
                point("a", [1.0, 0.0]),
                point("b", [4.0, 0.0]),
                point("c", [3.0, 0.0]),
                point("d", [2.0, 0.0]),
            ],
            |shard: usize, points: Vec<UpsertPoint>| shards[shard].upsert(points),
        )
        .unwrap();
    assert_eq!(commits.iter().map(|commit| commit.affected_points).sum::<usize>(), 4);
    let search = |shards: &Vec<Shard>, k: usize| {
        let query = bits(&[1.0, 0.0]);
        collection
            .search(&query, k, |count: usize| {
                shards[..count].iter().map(|shard| shard.search(query.clone(), k, 64)).collect()
            })
            .unwrap()
    };
    assert_eq!(ids(&search(&shards, 3)), ["b", "c", "d"]);
    let flushed = collection
        .flush(|shard: usize| {
            let sequence = shards[shard].flush()?;
            Ok((sequence, shards[shard].collection.borrow().len()))
        })
        .unwrap();
    assert_eq!(flushed.iter().map(|commit| commit.affected_points).sum::<usize>(), 4);

    let reopened: Vec<Shard> = shards
        .into_iter()
        .map(|shard| {
            let wal = shard.wal.into_inner();
            assert!(wal.is_empty());
            Shard::open(config(), wal, shard.segment.into_inner())
        })
        .collect();
    assert!(reopened.iter().all(|shard| shard.collection.borrow().has_approximate_index()));
    assert_eq!(
        collection.len(|shard: usize| Ok(reopened[shard].collection.borrow().len())).unwrap(),
        4
    );
    assert_eq!(search(&reopened, 1)[0].id, "b");
}

#[test]
fn validates_complete_request_before_mutating_any_shard() {
    let collection = ShardedCollection::open(config(), 3).unwrap();
    let shards: Vec<Shard> = (0..3).map(|_| Shard::open(config(), vec![], None)).collect();
    let bad = UpsertPoint { id: "bad".into(), vector: bits(&[1.0]), metadata: Metadata::new() };
    let error = collection
        .upsert(
            &Floats,
            vec![point("valid", [1.0, 0.0]), bad],
            |shard: usize, points: Vec<UpsertPoint>| shards[shard].upsert(points),
        )
        .unwrap_err();
    assert!(matches!(error, Error::InvalidDimension { .. }));
    assert_eq!(
        collection.len(|shard: usize| Ok(shards[shard].collection.borrow().len())).unwrap(),
        0
    );
    assert_eq!(
        collection.is_empty(|shard: usize| Ok(shards[shard].collection.borrow().is_empty())),
        Ok(true)
    );
}

#[test]
fn refused_metadata_reaches_no_shard() {
    let collection = ShardedCollection::open(config(), 2).unwrap();
    let shards: Vec<Shard> = (0..2).map(|_| Shard::open(config(), vec![], None)).collect();
    let names: Vec<String> = (0..20).map(|index| format!("point-{index}")).collect();
    let low = names.iter().find(|name| collection.shard_for_id(name) == 0).unwrap();
    let high = names.iter().find(|name| collection.shard_for_id(name) == 1).unwrap();
    let mut bad = point(high, [0.0, 1.0]);
    bad.metadata.insert("weight".into(), Value::Float(f64::NAN.to_bits()));
    let asked = RefCell::new(0);
    let commit = |shard: usize, points: Vec<UpsertPoint>| {
        *asked.borrow_mut() += 1;
        shards[shard].upsert(points)
    };
    let points = || vec![point(low, [1.0, 0.0]), bad.clone()];
    assert_eq!(
        collection.upsert(&Floats, points(), commit),
        Err(Error::InvalidQuery("metadata floats must be finite"))
    );
    assert_eq!(
        collection.plan_upsert(&Floats, points()),
        Err(Error::InvalidQuery("metadata floats must be finite"))
    );
    let mut long = point(high, [0.0, 1.0]);
    long.id = "x".repeat(1_000_001);
    assert_eq!(
        collection.upsert(&Floats, vec![point(low, [1.0, 0.0]), long], commit),
        Err(Error::InvalidQuery("batch is too large"))
    );
    assert_eq!(
        collection.delete(vec![low.clone(), "x".repeat(1_000_001)], |_: usize, _: Vec<String>| {
            *asked.borrow_mut() += 1;
            Ok(1)
        }),
        Err(Error::InvalidQuery("batch is too large"))
    );
    assert_eq!(*asked.borrow(), 0);
    assert!(shards.iter().all(|shard| shard.wal.borrow().is_empty()));

    let parts = collection
        .plan_upsert(&Floats, vec![point(low, [1.0, 0.0]), point(high, [0.0, 1.0])])
        .unwrap();
    assert_eq!(parts.iter().map(Vec::len).collect::<Vec<_>>(), [1, 1]);
    assert_eq!(parts[1][0].id, *high);
    let parts = collection.plan_delete(vec![high.clone()]).unwrap();
    assert_eq!(parts, [vec![], vec![high.clone()]]);
}

#[test]
fn sharded_deletes_reach_the_shard_of_each_point() {
    let collection = ShardedCollection::open(config(), 3).unwrap();
    let names: Vec<String> = (0..12).map(|index| format!("point-{index}")).collect();
    let seen = RefCell::new(Vec::new());
    let commits = collection
        .delete(names.clone(), |shard: usize, ids: Vec<String>| {
            for id in &ids {
                assert_eq!(collection.shard_for_id(id), shard);
                seen.borrow_mut().push(id.clone());
            }
            Ok(5)
        })
        .unwrap();
    let mut seen = seen.into_inner();
    seen.sort();
    let mut expected = names;
    expected.sort();
    assert_eq!(seen, expected);
    assert!(commits.windows(2).all(|pair| pair[0].shard < pair[1].shard));
    assert_eq!(
        collection.delete(vec![], |_: usize, _: Vec<String>| Ok(0)),
        Err(Error::InvalidQuery("delete batch must not be empty"))
    );
    assert_eq!(
        collection.delete(vec!["".into()], |_: usize, _: Vec<String>| Ok(0)),
        Err(Error::InvalidQuery("point ID must not be empty"))
    );
    assert_eq!(
        ShardedCollection::open(config(), 0).err(),
        Some(Error::InvalidConfig("shard count must be greater than zero"))
    );
    assert_eq!(ShardedCollection::directory_of(7), "shard-00007");
    assert_eq!(ShardedCollection::directory_of(1_234_567), "shard-1234567");
}

#[test]
fn routes_writes_and_merges_global_top_k_across_replicated_shards() {
    let shards: Vec<Shard> = (0..2).map(|_| Shard::open(config(), vec![], None)).collect();
    let replica_sets = (0..2)
        .map(|shard| ReplicaSet { addresses: vec![format!("127.0.0.1:{}", 9000 + shard)] })
        .collect();
    let id_for = |wanted| {
        (0..1000)
            .map(|value| format!("point-{value}"))
            .find(|id| shard_index(id, 2) == wanted)
            .unwrap()
    };
    let low = id_for(0);
    let high = id_for(1);
    let collection = DistributedCollection::new(replica_sets, "secret".into()).unwrap();
    let plain = |id: &str, vector: [f32; 2]| UpsertPoint {
        id: id.into(),
        vector: bits(&vector),
        metadata: Metadata::new(),
    };
    let dispatches = collection
        .upsert("client", 1, vec![plain(&low, [1.0, 0.0]), plain(&high, [3.0, 0.0])])
        .unwrap();
    assert_eq!(dispatches.len(), 2);
    for Dispatch { shard, command } in dispatches {
        match command {
            ShardCommand::Upsert { client_id, request_id, points } => {
                assert_eq!((client_id.as_str(), request_id), ("client", 1));
                shards[shard].upsert(points).unwrap();
            }
            ShardCommand::Delete { .. } => unreachable!(),
        }
    }
    let ef = DistributedCollection::default_ef(2);
    let hits = collection
        .search_with_ef(2, ef, |count: usize| {
            shards[..count].iter().map(|shard| shard.search(bits(&[1.0, 0.0]), 2, ef)).collect()
        })
        .unwrap();
    assert_eq!(ids(&hits), [high.as_str(), low.as_str()]);
    let deletes = collection.delete("client", 2, vec![low]).unwrap();
    assert_eq!(deletes.len(), 1);
    assert_eq!(deletes[0].shard, 0);
}

#[test]
fn replicas_are_tried_in_order() {
    let collection = DistributedCollection::new(
        vec![ReplicaSet { addresses: vec!["one:1".into(), "https://two/".into()] }],
        "secret".into(),
    )
    .unwrap();
    assert_eq!(collection.token(), "secret");
    assert_eq!(collection.shard_count(), 1);
    assert_eq!(collection.next_url(0, 0, "/v1/write").unwrap(), "http://one:1/v1/write");
    assert_eq!(collection.next_url(0, 1, "/v1/write").unwrap(), "https://two/v1/write");
    assert_eq!(collection.next_url(0, 2, "/v1/write"), None);
    assert_eq!(url_of("three", "/x"), "http://three/x");
    assert_eq!(
        DistributedCollection::unreachable_shard(3, "{}"),
        Error::Concurrency("no leader reachable for shard 3: {}".into())
    );
    let ordered = order_replies(vec![
        Reply { shard: 2, response: ShardResponse::Applied { sequence: 1 } },
        Reply { shard: 0, response: ShardResponse::Rejected { message: "no".into() } },
    ]);
    assert_eq!(ordered.iter().map(|reply| reply.shard).collect::<Vec<_>>(), [0, 2]);
    assert_eq!(
        collection.check_search(0, 5),
        Err(Error::InvalidQuery("k must be greater than zero"))
    );
    assert_eq!(
        collection.check_search(6, 5),
        Err(Error::InvalidQuery("ef_search must be at least k"))
    );
    assert_eq!(
        DistributedCollection::new(vec![], "secret".into()).err(),
        Some(Error::InvalidConfig(
            "distributed collections require at least one replica per shard"
        ))
    );
    assert_eq!(
        DistributedCollection::new(
            vec![ReplicaSet { addresses: vec!["a".into()] }],
            "".into()
        )
        .err(),
        Some(Error::InvalidConfig("Raft peer token must not be empty"))
    );
    let parsed = replica_sets("a:1, b:2; c:3").unwrap();
    assert_eq!(parsed[0].addresses, ["a:1", "b:2"]);
    assert_eq!(parsed[1].addresses, ["c:3"]);
    assert!(matches!(replica_sets("a;;b"), Err(Error::InvalidConfiguration(_))));
}

#[test]
fn background_flusher_checkpoints_at_threshold() {
    let shard = Shard::open(CollectionConfig { dimension: 2, metric: Metric::Cosine }, vec![], None);
    let mut flusher =
        BackgroundFlusher::start(Interval { seconds: 0, nanoseconds: 5_000_000 }, 2).unwrap();
    shard.upsert(vec![point("a", [1.0, 0.0])]).unwrap();
    let run = |flusher: &mut BackgroundFlusher| {
        let mut action = flusher.step(FlushEvent::Elapsed);
        loop {
            let event = match action {
                FlushAction::CountPending => {
                    FlushEvent::Pending(Ok(shard.collection.borrow().pending_point_count()))
                }
                FlushAction::Flush => FlushEvent::Flushed(shard.flush()),
                FlushAction::Wait | FlushAction::Finish => break,
            };
            action = flusher.step(event);
        }
    };
    run(&mut flusher);
    assert_eq!(shard.collection.borrow().pending_point_count(), 1);
    shard.upsert(vec![point("b", [0.0, 1.0])]).unwrap();
    run(&mut flusher);
    assert_eq!(shard.collection.borrow().pending_point_count(), 0);
    assert!(shard.collection.borrow().has_approximate_index());
    assert_eq!(flusher.last_error(), None);
    assert!(matches!(flusher.step(FlushEvent::Stopped), FlushAction::Finish));
    flusher.stop().unwrap();
}

#[test]
fn flusher_keeps_its_last_error() {
    let mut flusher =
        BackgroundFlusher::start(Interval { seconds: 1, nanoseconds: 0 }, 1).unwrap();
    let gone = || Error::Io("gone".into());
    assert!(matches!(flusher.step(FlushEvent::Pending(Ok(1))), FlushAction::Flush));
    assert!(matches!(flusher.step(FlushEvent::Flushed(Err(gone()))), FlushAction::Finish));
    assert_eq!(flusher.last_error(), Some(&gone()));
    assert_eq!(flusher.stop(), Err(gone()));
    assert_eq!(
        BackgroundFlusher::start(Interval { seconds: 1, nanoseconds: 0 }, 0).err(),
        Some(Error::InvalidConfig("background flush threshold must be greater than zero"))
    );
    assert_eq!(
        BackgroundFlusher::start(Interval { seconds: 0, nanoseconds: 0 }, 1).err(),
        Some(Error::InvalidConfig("background flush interval must be greater than zero"))
    );
}

#[test]
fn creates_lists_and_rediscovers_collections() {
    let config = DatabaseConfig { dirty_point_threshold: 100, ..DatabaseConfig::default() };
    let cosine = CollectionConfig { dimension: 3, metric: Metric::Cosine };
    let mut database: Database<Shard> = Database::open(config).unwrap();
    let open = |_: &str, config: CollectionConfig| Ok(Shard::open(config, vec![], None));
    database.create_collection("articles", cosine, open).unwrap();
    let state = |shard: &Shard| {
        let collection = shard.collection.borrow();
        Ok(CollectionState {
            config: collection.config(),
            points: collection.len(),
            latest_sequence: collection.latest_sequence(),
            pending_points: collection.pending_point_count(),
        })
    };
    assert_eq!(database.list_collections(state).unwrap()[0].name, "articles");
    assert!(matches!(
        database.create_collection("articles", cosine, open),
        Err(Error::AlreadyExists(_))
    ));
    let found = discover(&vec![
        FoundEntry { name: "articles".into(), is_directory: true, has_settings: true },
        FoundEntry { name: "empty".into(), is_directory: true, has_settings: false },
        FoundEntry { name: "notes.txt".into(), is_directory: false, has_settings: false },
    ]);
    assert_eq!(found, ["articles"]);
    assert_eq!(
        database.collection("articles").unwrap().collection.borrow().config().dimension,
        3
    );
}

#[test]
fn the_first_collection_that_does_not_tell_ends_a_listing() {
    let mut database: Database<Shard> = Database::open(DatabaseConfig::default()).unwrap();
    for name in ["cherry", "apple", "banana"] {
        database
            .create_collection(name, config(), |name: &str, config: CollectionConfig| {
                let shard = Shard::open(config, vec![], None);
                shard.upsert(vec![point(name, [1.0, 0.0])])?;
                Ok(shard)
            })
            .unwrap();
    }
    let told = database.list_collections(|shard: &Shard| {
        let collection = shard.collection.borrow();
        for name in ["banana", "cherry"] {
            if collection.collection().get(name).is_some() {
                return Err(Error::Io(name.into()));
            }
        }
        Ok(CollectionState {
            config: collection.config(),
            points: collection.len(),
            latest_sequence: collection.latest_sequence(),
            pending_points: collection.pending_point_count(),
        })
    });
    assert_eq!(told, Err(Error::Io("banana".into())));
}

#[test]
fn rejects_path_like_collection_names() {
    let database: Database<Shard> = Database::open(DatabaseConfig::default()).unwrap();
    assert!(database.collection("../escape").is_err());
    assert!(matches!(database.collection("absent"), Err(Error::NotFound(_))));
    assert!(validate_collection_name("aZ09-_").is_ok());
    assert!(validate_collection_name("").is_err());
    assert!(validate_collection_name(&"n".repeat(64)).is_ok());
    assert!(validate_collection_name(&"n".repeat(65)).is_err());
    assert!(validate_collection_name("naïve").is_err());
    let wrong = DatabaseConfig { dirty_point_threshold: 0, ..DatabaseConfig::default() };
    assert!(matches!(Database::<Shard>::open(wrong), Err(Error::InvalidConfig(_))));
}

#[test]
fn backs_up_and_restores_a_collection() {
    let mut database: Database<Shard> = Database::open(DatabaseConfig::default()).unwrap();
    let cosine = CollectionConfig { dimension: 2, metric: Metric::Cosine };
    database
        .create_collection("original", cosine, |_: &str, config: CollectionConfig| {
            Ok(Shard::open(config, vec![], None))
        })
        .unwrap();
    let original = database.collection("original").unwrap();
    original.upsert(vec![point("doc", [1.0, 0.0])]).unwrap();
    let copy = RefCell::new(Vec::new());
    assert_eq!(
        database
            .backup_collection("original", "backup-1", |shard: &Shard| {
                *copy.borrow_mut() = shard.wal.borrow().clone();
                Ok(shard.collection.borrow().latest_sequence())
            })
            .unwrap(),
        1
    );
    original.delete(vec!["doc".into()]).unwrap();

    database
        .restore_collection("backup-1", "restored", true, |_: &str, _: &str| {
            Ok(Shard::open(cosine, copy.borrow().clone(), None))
        })
        .unwrap();
    let restored = database.collection("restored").unwrap();
    assert_eq!(restored.collection.borrow().latest_sequence(), 1);
    assert_eq!(restored.search(bits(&[1.0, 0.0]), 1, 1).unwrap()[0].id, "doc");
    let refuse = |_: &str, _: &str| -> Result<Shard> { unreachable!() };
    assert_eq!(
        database.restore_collection("backup-2", "other", false, refuse).err(),
        Some(Error::NotFound("backup backup-2".into()))
    );
    assert_eq!(
        database.restore_collection("backup-1", "restored", true, refuse).err(),
        Some(Error::AlreadyExists("collection restored".into()))
    );
}

#[test]
fn top_k_is_score_first_and_id_stable() {
    let hit = |id: &str, score: f32| CudaHit { id: id.into(), score: score.to_bits() };
    let hits = select_top_k(vec![hit("z", 2.0), hit("low", 1.0), hit("a", 2.0)], 2);
    assert_eq!(hits.into_iter().map(|hit| hit.id).collect::<Vec<_>>(), ["a", "z"]);
}

#[test]
fn card_searches_leave_out_excluded_points() {
    let stored = |id: &str, vector: [f32; 2]| Point {
        id: id.into(),
        vector: bits(&vector),
        metadata: Metadata::new(),
        sequence: 1,
    };
    let points = vec![stored("a", [1.0, 0.0]), stored("b", [2.0, 0.0]), stored("c", [3.0, 0.0])];
    let (index, matrix) = CudaIndex::build(config(), &points).unwrap();
    assert_eq!(index.len(), 3);
    assert_eq!(floats(&matrix), [1.0, 0.0, 2.0, 0.0, 3.0, 0.0]);
    let mut excluded = IdSet::new();
    excluded.insert("c".into());
    let hits = index
        .search(2, &excluded, |dimension: i32, rows: i32| {
            assert_eq!((dimension, rows), (2, 3));
            Ok(bits(&[1.0, 2.0, 3.0]))
        })
        .unwrap();
    assert_eq!(hits.into_iter().map(|hit| hit.id).collect::<Vec<_>>(), ["b", "a"]);
    assert!(matches!(CudaIndex::build(config(), &vec![]), Err(Error::InvalidConfiguration(_))));
    assert_eq!(
        cuda_error("copy", "out of memory"),
        Error::ResourceExhausted("copy: out of memory".into())
    );
}

#[test]
fn card_settings_are_read() {
    let text = |word: &str| Setting::Text(word.into());
    assert_eq!(
        CudaSearchConfig::from_env(&text("ReQuired"), &text("2"), &Setting::Unset),
        Ok(CudaSearchConfig { mode: CudaSearchMode::Required, device: 2, min_vectors: 10_000 })
    );
    assert_eq!(
        CudaSearchConfig::from_env(&Setting::Unset, &text("x"), &Setting::Unset),
        Ok(CudaSearchConfig::default())
    );
    assert!(CudaSearchConfig::from_env(&text("maybe"), &Setting::Unset, &Setting::Unset).is_err());
    assert!(CudaSearchConfig::from_env(&Setting::NotText, &Setting::Unset, &Setting::Unset).is_err());
    assert_eq!(
        CudaSearchConfig::from_env(&text("on"), &text("-1"), &Setting::Unset),
        Err(Error::InvalidConfiguration(
            "FOCAL_CUDA_DEVICE must be a non-negative integer".into()
        ))
    );
}

#[test]
fn transport_settings_go_together() {
    assert_eq!(choose_transport(false, false), Ok(Transport::Plain));
    assert_eq!(choose_transport(true, true), Ok(Transport::Encrypted));
    assert!(matches!(choose_transport(true, false), Err(Error::InvalidConfiguration(_))));
    assert!(check_certificates(1).is_ok());
    assert!(check_certificates(0).is_err());
    assert!(check_client_roots(2, 0).is_ok());
    assert_eq!(
        check_client_roots(1, 2),
        Err(Error::InvalidConfiguration(
            "client CA file contained 1 accepted and 2 rejected certificates".into()
        ))
    );
    assert!(HttpClientTlsConfig::from_settings(None, None).is_none());
    assert!(HttpClientTlsConfig::from_settings(Some(b"ca".to_vec()), None).is_some());
}

#[test]
fn peers_are_checked() {
    assert!(check_token("").is_err());
    assert!(check_token("secret").is_ok());
    assert!(authorized(Some("secret"), "secret"));
    assert!(!authorized(Some("secrex"), "secret"));
    assert!(!authorized(Some("Bearer secret"), "secret"));
    assert!(!authorized(None, "secret"));
    assert_eq!(api_error(&Error::InvalidQuery("no")), 400);
    assert_eq!(api_error(&Error::Io("no".into())), 503);
    assert!(check_node_id(Ok(1), 1).is_ok());
    assert_eq!(
        check_node_id(Ok(1), 2),
        Err(Error::CorruptStorage("Raft node ID changed from 1 to 2".into()))
    );
    assert!(check_node_file("7\n", 7).is_ok());
    assert!(check_node_file(" +7 ", 7).is_ok());
    assert_eq!(
        check_node_file("8\n", 7),
        Err(Error::CorruptStorage("Raft node ID changed from 8 to 7".into()))
    );
    for text in ["", "seven", "-7", "7 7", "18446744073709551616"] {
        let reason = text.trim().parse::<u64>().unwrap_err().to_string();
        assert_eq!(check_node_file(text, 7), Err(Error::CorruptStorage(reason)));
    }
    let mut blocked = BlockedPeers::new();
    blocked.set_blocked(4, true);
    blocked.set_blocked(4, true);
    assert!(blocked.contains(4));
    blocked.set_blocked(4, false);
    assert!(!blocked.contains(4));
    assert_eq!(blocked_message(4), "peer 4 is blocked by fault injection");
}

#[test]
fn exact_results_keep_the_best_offers() {
    let mut top = ExactTop::new(2);
    for (index, score) in [(0, 1.0f32), (1, 3.0), (2, 2.0), (3, 3.0)] {
        top.offer(index, score.to_bits());
    }
    assert_eq!(top.ids(), [name_point(1), name_point(3)]);
    assert_eq!(name_point(7), "bench-000000000007");
    assert_eq!(ef_search_values(None, 64), Ok(vec![64]));
    assert_eq!(ef_search_values(Some("10, 20"), 64), Ok(vec![10, 20]));
    assert_eq!(ef_search_values(Some("10,x"), 64), Err(SweepFault::NotANumber));
    assert_eq!(ef_search_values(Some("0"), 64), Err(SweepFault::NotPositive));
    assert_eq!(metric_of_name("dot"), Some(Metric::DotProduct));
    assert_eq!(metric_of_name("manhattan"), None);
}

/// A certificate with a readable frame; nobody has signed it.
const CERTIFICATE: &str = "-----BEGIN CERTIFICATE-----\n\
    MIHeMIGRoAMCAQICAQEwBQYDK2VwMBkxFzAVBgNVBAMMDnRlc3QgYXV0aG9yaXR5\n\
    MB4XDTI0MDEwMTAwMDAwMFoXDTM0MDEwMTAwMDAwMFowGTEXMBUGA1UEAwwOdGVz\n\
    dCBhdXRob3JpdHkwKjAFBgMrZXADIQAAAQIDBAUGBwgJCgsMDQ4PEBESExQVFhcY\n\
    GRobHB0eHzAFBgMrZXADQQAAAAAAAAAAAAAAAAAAAAAAAAAAAAAAAAAAAAAAAAAA\n\
    AAAAAAAAAAAAAAAAAAAAAAAAAAAAAAAAAAAAAAAAAAAA\n\
    -----END CERTIFICATE-----\n";

/// A certificate in name only.
const NO_CERTIFICATE: &str =
    "-----BEGIN CERTIFICATE-----\nAAEC\n-----END CERTIFICATE-----\n";

#[test]
fn certificates_are_read_and_checked() {
    let read = |text: &str| server_certificates(&text.as_bytes().to_vec());
    assert_eq!(read(NO_CERTIFICATE), Ok(vec![vec![0, 1, 2]]));
    let both = read(&format!("remark\n{NO_CERTIFICATE}{CERTIFICATE}")).unwrap();
    assert_eq!(both.len(), 2);
    assert_eq!(both[0], [0, 1, 2]);
    assert_eq!(both[1].len(), 225);
    assert_eq!(
        read("nothing"),
        Err(Error::InvalidConfiguration(
            "TLS certificate file contains no certificates".into()
        ))
    );
    assert!(matches!(
        read("-----BEGIN CERTIFICATE-----\nAAEC\n"),
        Err(Error::InvalidConfiguration(reason)) if reason.contains("missing section end")
    ));
    let torn = "-----BEGIN CERTIFICATE----\n";
    assert_eq!(
        read(&format!("{NO_CERTIFICATE}{torn}AAEC\n")),
        Err(Error::InvalidConfiguration(format!("illegal section start: {:?}", torn.as_bytes())))
    );
    assert_eq!(
        collect_certificates(vec![Ok(vec![1]), Err("first".into()), Err("second".into())]),
        Err(Error::InvalidConfiguration("first".into()))
    );
}

#[test]
fn client_authorities_are_all_usable() {
    let read = |text: &str| client_authorities(&text.as_bytes().to_vec());
    assert_eq!(read(CERTIFICATE).unwrap().len(), 1);
    assert_eq!(
        read(&format!("{CERTIFICATE}{NO_CERTIFICATE}")),
        Err(Error::InvalidConfiguration(
            "client CA file contained 1 accepted and 1 rejected certificates".into()
        ))
    );
    assert_eq!(
        read(""),
        Err(Error::InvalidConfiguration(
            "client CA file contained 0 accepted and 0 rejected certificates".into()
        ))
    );
}

fn section(label: &str, text: &str) -> String {
    format!("-----BEGIN {label}-----\n{text}\n-----END {label}-----\n")
}

#[test]
fn private_keys_are_read_in_every_form() {
    let read = |text: &str| server_private_key(&text.as_bytes().to_vec());
    let key = |label: &str, text: &str| section(&format!("{label}PRIVATE KEY"), text);
    assert_eq!(read(&key("RSA ", "AAEC")), Ok((KeyForm::Pkcs1, vec![0, 1, 2])));
    assert_eq!(read(&key("EC ", "AwQF")), Ok((KeyForm::Sec1, vec![3, 4, 5])));
    assert_eq!(
        read(&format!("{NO_CERTIFICATE}{}{}", key("", "BgcI"), key("EC ", "AAEC"))),
        Ok((KeyForm::Pkcs8, vec![6, 7, 8]))
    );
    assert_eq!(
        read(NO_CERTIFICATE),
        Err(Error::InvalidConfiguration("no items found".into()))
    );
    assert_eq!(
        accept_key(Err("unreadable".into())),
        Err(Error::InvalidConfiguration("unreadable".into()))
    );
    assert_eq!(accept_key(Ok((KeyForm::Other, vec![1]))), Ok((KeyForm::Other, vec![1])));
}

#[test]
fn client_identities_need_a_key_and_a_certificate() {
    let read = |text: &str| client_identity(&text.as_bytes().to_vec());
    let key = section("PRIVATE KEY", "AAEC");
    assert!(read(&format!("{NO_CERTIFICATE}{key}")).is_ok());
    for text in ["", NO_CERTIFICATE, &key, "-----BEGIN CERTIFICATE-----\nAAEC\n"] {
        assert_eq!(
            read(text).err(),
            Some(Error::InvalidConfiguration("builder error".into()))
        );
    }
}

#[test]
fn clients_are_built_of_the_files_that_are_set() {
    let identity = format!("{NO_CERTIFICATE}{}", section("PRIVATE KEY", "AAEC"));
    let read = RefCell::new(Vec::new());
    let build = |tls: Option<&HttpClientTlsConfig>| {
        build_http_client(
            tls,
            |path: &Vec<u8>| {
                read.borrow_mut().push(path.clone());
                match path.as_slice() {
                    b"ca" => Ok(b"authority".to_vec()),
                    b"me" => Ok(identity.as_bytes().to_vec()),
                    b"junk" => Ok(b"junk".to_vec()),
                    _ => Err(Error::Io("no such file".into())),
                }
            },
            |authority, identity| Ok((authority, identity.is_some())),
        )
    };
    let files = |ca: Option<&str>, pem: Option<&str>| HttpClientTlsConfig {
        ca_certificate: ca.map(|path| path.as_bytes().to_vec()),
        identity_pem: pem.map(|path| path.as_bytes().to_vec()),
    };
    assert_eq!(build(None), Ok((None, false)));
    assert!(read.borrow().is_empty());
    assert_eq!(
        build(Some(&files(Some("ca"), Some("me")).clone())),
        Ok((Some(b"authority".to_vec()), true))
    );
    assert_eq!(*read.borrow(), [b"ca".to_vec(), b"me".to_vec()]);
    assert_eq!(
        build(Some(&files(Some("gone"), Some("me")))),
        Err(Error::Io("no such file".into()))
    );
    assert_eq!(read.borrow().len(), 3);
    assert_eq!(
        build(Some(&files(None, Some("junk")))),
        Err(Error::InvalidConfiguration("builder error".into()))
    );
}

#[test]
fn a_part_is_handed_over_where_there_is_one() {
    let ids = vec!["a".to_string(), "b".to_string()];
    let done = commit_part(3, ids.clone(), |shard: usize, batch: Vec<String>| {
        assert_eq!((shard, batch), (3, ids.clone()));
        Ok(7)
    });
    assert_eq!(done, Ok(Some(ShardCommit { shard: 3, sequence: 7, affected_points: 2 })));
    let idle = commit_part(3, Vec::new(), |_: usize, _: Vec<String>| Err(Error::SequenceOverflow));
    assert_eq!(idle, Ok(None));
    let refused = commit_part(3, ids, |_: usize, _: Vec<String>| Err(Error::SequenceOverflow));
    assert_eq!(refused, Err(Error::SequenceOverflow));
}
