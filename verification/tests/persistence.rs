use std::cell::RefCell;
use std::collections::BTreeMap;

use focal_vector::checksum::crc32c;
use focal_vector::persistence::flush::Publication;
use focal_vector::persistence::segment::{
    decode_metadata, decode_segment, encode_metadata, ensure_metadata, read_manifest, Manifest,
};
use focal_vector::persistence::StoredSegment;
use focal_vector::{
    CollectionConfig, Durability, Error, Filter, Kernel, Metadata, Metric, PersistentCollection,
    Result, SearchHit, UpsertPoint, Value,
};

struct Floats;

impl Kernel for Floats {
    fn normalize(&self, vector: &Vec<u32>) -> Vec<u32> {
        let values = floats(vector);
        let squared = values
            .iter()
            .map(|value| (*value as f64) * (*value as f64))
            .sum::<f64>();
        let inverse = squared.sqrt().recip() as f32;
        values.iter().map(|value| (value * inverse).to_bits()).collect()
    }

    fn score(&self, metric: Metric, query: &Vec<u32>, candidate: &Vec<u32>) -> u32 {
        let pairs: Vec<(f32, f32)> = floats(query).into_iter().zip(floats(candidate)).collect();
        let score: f32 = match metric {
            Metric::Cosine | Metric::DotProduct => pairs.iter().map(|(a, b)| a * b).sum(),
            Metric::Euclidean => -pairs.iter().map(|(a, b)| (a - b) * (a - b)).sum::<f32>(),
        };
        score.to_bits()
    }
}

fn floats(vector: &[u32]) -> Vec<f32> {
    vector.iter().map(|bits| f32::from_bits(*bits)).collect()
}

fn bits(vector: &[f32]) -> Vec<u32> {
    vector.iter().map(|value| value.to_bits()).collect()
}

/// The files of one collection, kept in memory.
#[derive(Default)]
struct Directory {
    metadata: RefCell<Option<Vec<u8>>>,
    manifest: RefCell<Option<Vec<u8>>>,
    segments: RefCell<BTreeMap<String, Vec<u8>>>,
    wal: RefCell<Vec<u8>>,
}

impl Directory {
    fn open(&self, config: CollectionConfig) -> Result<PersistentCollection> {
        let stored = self.metadata.borrow().clone();
        if let Some(bytes) = ensure_metadata(stored.as_deref(), config)? {
            *self.metadata.borrow_mut() = Some(bytes);
        }
        let bytes;
        let segment = match self.manifest()? {
            Some(manifest) => {
                bytes = self.segments.borrow()[&manifest.segment].clone();
                Some(StoredSegment { sequence: manifest.sequence, bytes: &bytes })
            }
            None => None,
        };
        let wal = self.wal.borrow().clone();
        let (collection, valid) =
            PersistentCollection::open(&Floats, config, Durability::Sync, segment, &wal)?;
        self.wal.borrow_mut().truncate(valid);
        Ok(collection)
    }

    fn manifest(&self) -> Result<Option<Manifest>> {
        match &*self.manifest.borrow() {
            Some(bytes) => Ok(Some(read_manifest(bytes)?)),
            None => Ok(None),
        }
    }

    fn append(&self, frame: &Vec<u8>) -> Result<()> {
        self.wal.borrow_mut().extend_from_slice(frame);
        Ok(())
    }

    fn write(&self, bytes: &Vec<u8>, plan: &Publication) -> Result<()> {
        if let Publication::Write { segment, manifest, empty_log, retire } = plan {
            self.segments.borrow_mut().insert(segment.clone(), bytes.clone());
            *self.manifest.borrow_mut() = Some(manifest.clone());
            if *empty_log {
                self.wal.borrow_mut().clear();
            }
            if let Some(old) = retire {
                self.segments.borrow_mut().remove(old);
            }
        }
        Ok(())
    }

    fn upsert(&self, collection: &mut PersistentCollection, points: Vec<UpsertPoint>) -> Result<u64> {
        collection.upsert(&Floats, points, |frame: &Vec<u8>| self.append(frame))
    }

    fn delete(&self, collection: &mut PersistentCollection, ids: &[&str]) -> Result<u64> {
        let ids = ids.iter().map(|id| id.to_string()).collect();
        collection.delete(ids, |frame: &Vec<u8>| self.append(frame))
    }

    fn flush(&self, collection: &mut PersistentCollection) -> Result<u64> {
        let previous = self.manifest()?;
        collection.flush(&Floats, previous, |bytes: &Vec<u8>, plan: &Publication| {
            self.write(bytes, plan)
        })
    }
}

fn config() -> CollectionConfig {
    CollectionConfig { dimension: 2, metric: Metric::Cosine }
}

fn point(id: &str, vector: [f32; 2]) -> UpsertPoint {
    let mut metadata = Metadata::new();
    metadata.insert("kind".into(), Value::Keyword("test".into()));
    UpsertPoint { id: id.into(), vector: bits(&vector), metadata }
}

fn ids(hits: &[SearchHit]) -> Vec<&str> {
    hits.iter().map(|hit| hit.id.as_str()).collect()
}

#[test]
fn committed_mutations_survive_restart() {
    let directory = Directory::default();
    {
        let mut collection = directory.open(config()).unwrap();
        directory
            .upsert(
                &mut collection,
                vec![point("keep", [1.0, 0.0]), point("remove", [0.0, 1.0])],
            )
            .unwrap();
        directory.delete(&mut collection, &["remove"]).unwrap();
    }
    let collection = directory.open(config()).unwrap();
    assert_eq!(collection.latest_sequence(), 2);
    assert!(collection.collection().get("keep").is_some());
    assert!(collection.collection().get("remove").is_none());
}

#[test]
fn incomplete_final_frame_is_discarded() {
    let directory = Directory::default();
    {
        let mut collection = directory.open(config()).unwrap();
        directory.upsert(&mut collection, vec![point("safe", [1.0, 0.0])]).unwrap();
    }
    let valid_length = directory.wal.borrow().len();
    directory.wal.borrow_mut().extend_from_slice(b"FVWL\x40\x00");

    let collection = directory.open(config()).unwrap();
    assert_eq!(collection.latest_sequence(), 1);
    assert_eq!(directory.wal.borrow().len(), valid_length);
}

#[test]
fn checksum_corruption_is_rejected() {
    let directory = Directory::default();
    {
        let mut collection = directory.open(config()).unwrap();
        directory.upsert(&mut collection, vec![point("p", [1.0, 0.0])]).unwrap();
    }
    directory.wal.borrow_mut()[12] = 0xff;

    let error = directory.open(config()).err().unwrap();
    assert!(matches!(error, Error::CorruptStorage(_)));
}

#[test]
fn persisted_configuration_cannot_change() {
    let directory = Directory::default();
    drop(directory.open(config()).unwrap());
    let error = directory
        .open(CollectionConfig { dimension: 3, metric: Metric::Cosine })
        .err()
        .unwrap();
    assert!(matches!(error, Error::InvalidConfig(_)));
}

#[test]
fn crc32c_matches_standard_check_value() {
    assert_eq!(crc32c(b"123456789"), 0xe306_9283);
}

#[test]
fn flush_checkpoints_wal_and_recovers_segment() {
    let directory = Directory::default();
    {
        let mut collection = directory.open(config()).unwrap();
        directory
            .upsert(&mut collection, vec![point("a", [1.0, 0.0]), point("b", [0.0, 1.0])])
            .unwrap();
        assert!(!collection.has_approximate_index());
        assert_eq!(directory.flush(&mut collection).unwrap(), 1);
        assert!(collection.has_approximate_index());
        assert_eq!(directory.wal.borrow().len(), 0);
    }

    let collection = directory.open(config()).unwrap();
    assert_eq!(collection.latest_sequence(), 1);
    assert_eq!(collection.collection().len(), 2);
    assert!(collection.has_approximate_index());
    let hits = collection.search_with_ef(&Floats, bits(&[1.0, 0.0]), 2, None, 16).unwrap();
    assert_eq!(hits[0].id, "a");
    assert!(directory.segments.borrow().contains_key("segment-00000000000000000001.fvs"));
}

#[test]
fn mutations_after_flush_replay_over_segment() {
    let directory = Directory::default();
    {
        let mut collection = directory.open(config()).unwrap();
        directory.upsert(&mut collection, vec![point("a", [1.0, 0.0])]).unwrap();
        directory.flush(&mut collection).unwrap();
        assert!(collection.has_approximate_index());
        directory.upsert(&mut collection, vec![point("b", [0.0, 1.0])]).unwrap();
        assert!(collection.has_approximate_index());
        directory.delete(&mut collection, &["a"]).unwrap();
        let hits = collection.search(&Floats, bits(&[0.0, 1.0]), 2, None).unwrap();
        assert_eq!(ids(&hits), ["b"]);
    }

    let collection = directory.open(config()).unwrap();
    assert_eq!(collection.latest_sequence(), 3);
    assert!(collection.has_approximate_index());
    assert!(collection.collection().get("a").is_none());
    assert!(collection.collection().get("b").is_some());
    let hits = collection.search(&Floats, bits(&[0.0, 1.0]), 2, None).unwrap();
    assert_eq!(ids(&hits), ["b"]);
}

#[test]
fn repeated_flush_replaces_obsolete_segment() {
    let directory = Directory::default();
    {
        let mut collection = directory.open(config()).unwrap();
        directory.upsert(&mut collection, vec![point("a", [1.0, 0.0])]).unwrap();
        directory.flush(&mut collection).unwrap();
        directory.upsert(&mut collection, vec![point("b", [0.0, 1.0])]).unwrap();
        directory.flush(&mut collection).unwrap();
    }

    assert!(!directory.segments.borrow().contains_key("segment-00000000000000000001.fvs"));
    assert!(directory.segments.borrow().contains_key("segment-00000000000000000002.fvs"));
    let collection = directory.open(config()).unwrap();
    assert_eq!(collection.collection().len(), 2);
}

#[test]
fn segment_corruption_is_rejected() {
    let directory = Directory::default();
    {
        let mut collection = directory.open(config()).unwrap();
        directory.upsert(&mut collection, vec![point("a", [1.0, 0.0])]).unwrap();
        directory.flush(&mut collection).unwrap();
    }
    directory.segments.borrow_mut().get_mut("segment-00000000000000000001.fvs").unwrap()[20] = 0xff;

    let error = directory.open(config()).err().unwrap();
    assert!(matches!(error, Error::CorruptStorage(_)));
}

#[test]
fn filtered_search_stays_correct_with_loaded_graph() {
    let directory = Directory::default();
    let mut collection = directory.open(config()).unwrap();
    directory
        .upsert(&mut collection, vec![point("a", [1.0, 0.0]), point("b", [0.9, 0.1])])
        .unwrap();
    directory.flush(&mut collection).unwrap();
    let filter =
        Filter::Eq { field: "kind".into(), value: Value::Keyword("does-not-match".into()) };
    assert!(
        collection
            .search_with_ef(&Floats, bits(&[1.0, 0.0]), 2, Some(&filter), 16)
            .unwrap()
            .is_empty()
    );
}

#[test]
fn updated_point_does_not_leak_stale_graph_vector() {
    let directory = Directory::default();
    let mut collection = directory.open(config()).unwrap();
    directory
        .upsert(&mut collection, vec![point("a", [1.0, 0.0]), point("b", [0.0, 1.0])])
        .unwrap();
    directory.flush(&mut collection).unwrap();
    directory.upsert(&mut collection, vec![point("a", [-1.0, 0.0])]).unwrap();

    let hits = collection.search(&Floats, bits(&[1.0, 0.0]), 2, None).unwrap();
    assert_eq!(ids(&hits), ["b", "a"]);
}

#[test]
fn metadata_index_merges_changed_payloads_correctly() {
    let directory = Directory::default();
    let mut collection = directory.open(config()).unwrap();
    let tagged = |id: &str, tenant: &str, vector: [f32; 2]| {
        let mut metadata = Metadata::new();
        metadata.insert("tenant".into(), Value::Keyword(tenant.into()));
        metadata.insert("price".into(), Value::Integer(if id == "a" { 10 } else { 20 }));
        UpsertPoint { id: id.into(), vector: bits(&vector), metadata }
    };
    directory
        .upsert(
            &mut collection,
            vec![tagged("a", "one", [1.0, 0.0]), tagged("b", "two", [0.0, 1.0])],
        )
        .unwrap();
    directory.flush(&mut collection).unwrap();
    directory.upsert(&mut collection, vec![tagged("a", "two", [1.0, 0.0])]).unwrap();

    let old_tenant = Filter::Eq { field: "tenant".into(), value: Value::Keyword("one".into()) };
    assert!(
        collection
            .search(&Floats, bits(&[1.0, 0.0]), 10, Some(&old_tenant))
            .unwrap()
            .is_empty()
    );

    let new_tenant_with_range = Filter::And(vec![
        Filter::Eq { field: "tenant".into(), value: Value::Keyword("two".into()) },
        Filter::Range {
            field: "price".into(),
            gte: Some(10.0f64.to_bits()),
            lt: Some(21.0f64.to_bits()),
        },
    ]);
    let hits = collection
        .search(&Floats, bits(&[1.0, 0.0]), 10, Some(&new_tenant_with_range))
        .unwrap();
    assert_eq!(ids(&hits), ["a", "b"]);
}

#[test]
fn flush_snapshot_preserves_writes_that_arrive_during_build() {
    let directory = Directory::default();
    let mut collection = directory.open(config()).unwrap();
    directory.upsert(&mut collection, vec![point("a", [1.0, 0.0])]).unwrap();
    let snapshot = collection.flush_snapshot();
    directory.upsert(&mut collection, vec![point("b", [0.0, 1.0])]).unwrap();
    let prepared = PersistentCollection::build_flush(&Floats, snapshot).unwrap();
    let previous = directory.manifest().unwrap();
    assert_eq!(
        collection
            .publish_flush(prepared, previous, |bytes: &Vec<u8>, plan: &Publication| {
                directory.write(bytes, plan)
            })
            .unwrap(),
        1
    );
    assert!(directory.wal.borrow().len() > 0);
    drop(collection);

    let reopened = directory.open(config()).unwrap();
    assert_eq!(reopened.latest_sequence(), 2);
    assert!(reopened.collection().get("a").is_some());
    assert!(reopened.collection().get("b").is_some());
}

#[test]
fn stale_flush_cannot_replace_a_newer_manifest() {
    let directory = Directory::default();
    let mut collection = directory.open(config()).unwrap();
    directory.upsert(&mut collection, vec![point("a", [1.0, 0.0])]).unwrap();
    let stale = PersistentCollection::build_flush(&Floats, collection.flush_snapshot()).unwrap();
    directory.upsert(&mut collection, vec![point("b", [0.0, 1.0])]).unwrap();
    directory.flush(&mut collection).unwrap();
    let previous = directory.manifest().unwrap();
    assert_eq!(
        collection
            .publish_flush(stale, previous, |bytes: &Vec<u8>, plan: &Publication| {
                directory.write(bytes, plan)
            })
            .unwrap(),
        2
    );
    drop(collection);

    let reopened = directory.open(config()).unwrap();
    assert_eq!(reopened.latest_sequence(), 2);
    assert_eq!(reopened.collection().len(), 2);
}

#[test]
fn malformed_segment_inputs_never_panic() {
    let mut state = 0x8bad_f00d_dead_beef_u64;
    for length in 0..2_048 {
        let mut bytes = vec![0_u8; length];
        for byte in &mut bytes {
            state = state.wrapping_mul(6_364_136_223_846_793_005).wrapping_add(1);
            *byte = (state >> 32) as u8;
        }
        let outcome = decode_segment(&bytes);
        assert!(outcome.is_err(), "decoder accepted {length} bytes");
    }
}

#[test]
fn every_torn_wal_suffix_recovers_to_an_atomic_boundary() {
    let source = Directory::default();
    {
        let mut collection = source.open(config()).unwrap();
        source.upsert(&mut collection, vec![point("safe", [1.0, 0.0])]).unwrap();
    }
    let wal = source.wal.borrow().clone();
    let metadata = source.metadata.borrow().clone();

    for cut in 0..=wal.len() {
        let directory = Directory::default();
        *directory.metadata.borrow_mut() = metadata.clone();
        *directory.wal.borrow_mut() = wal[..cut].to_vec();
        let collection = directory.open(config()).unwrap();
        assert_eq!(
            collection.latest_sequence(),
            u64::from(cut == wal.len()),
            "unexpected sequence for WAL prefix {cut}"
        );
    }
}

#[test]
fn refused_log_writes_change_nothing() {
    let directory = Directory::default();
    let mut collection = directory.open(config()).unwrap();
    directory.upsert(&mut collection, vec![point("a", [1.0, 0.0])]).unwrap();
    let refused = collection.upsert(&Floats, vec![point("b", [0.0, 1.0])], |_: &Vec<u8>| {
        Err(Error::Io("disk full".into()))
    });
    assert_eq!(refused, Err(Error::Io("disk full".into())));
    assert_eq!(collection.latest_sequence(), 1);
    assert_eq!(collection.len(), 1);
    assert_eq!(collection.pending_point_count(), 1);
    assert_eq!(
        collection.delete(vec![], |_: &Vec<u8>| Ok(())),
        Err(Error::InvalidQuery("delete batch must not be empty"))
    );
}

#[test]
fn every_kind_of_value_survives_a_restart() {
    let directory = Directory::default();
    let mut metadata = Metadata::new();
    metadata.insert("keyword".into(), Value::Keyword("größer".into()));
    metadata.insert("integer".into(), Value::Integer(i64::MIN));
    metadata.insert("float".into(), Value::Float(2.5f64.to_bits()));
    metadata.insert("flag".into(), Value::Boolean(true));
    {
        let mut collection = directory.open(config()).unwrap();
        let point = UpsertPoint { id: "Ω".into(), vector: bits(&[3.0, 4.0]), metadata };
        directory.upsert(&mut collection, vec![point]).unwrap();
    }
    let check = |collection: &PersistentCollection| {
        let point = collection.collection().get("Ω").unwrap();
        assert_eq!(point.metadata.get("keyword"), Some(&Value::Keyword("größer".into())));
        assert_eq!(point.metadata.get("integer"), Some(&Value::Integer(i64::MIN)));
        assert_eq!(point.metadata.get("float"), Some(&Value::Float(2.5f64.to_bits())));
        assert_eq!(point.metadata.get("flag"), Some(&Value::Boolean(true)));
        assert_eq!(floats(&point.vector), [0.6, 0.8]);
        assert_eq!(point.sequence, 1);
    };
    let mut collection = directory.open(config()).unwrap();
    check(&collection);
    directory.flush(&mut collection).unwrap();
    check(&directory.open(config()).unwrap());
}

#[test]
fn settings_are_read_back_and_checked() {
    let bytes = encode_metadata(config());
    assert_eq!(decode_metadata(&bytes), Ok(config()));
    for length in 0..bytes.len() {
        assert!(matches!(decode_metadata(&bytes[..length]), Err(Error::CorruptStorage(_))));
    }
    assert!(matches!(read_manifest(b"{}"), Err(Error::CorruptStorage(_))));
}

#[test]
fn changed_points_are_searched_exactly() {
    let directory = Directory::default();
    let mut collection = directory.open(config()).unwrap();
    let batch = (0..50)
        .map(|index| {
            let angle = index as f32 * 0.03;
            point(&format!("p-{index:02}"), [angle.cos(), angle.sin()])
        })
        .collect();
    directory.upsert(&mut collection, batch).unwrap();
    directory.flush(&mut collection).unwrap();
    directory.upsert(&mut collection, vec![point("p-49", [1.0, 0.001])]).unwrap();
    directory.upsert(&mut collection, vec![point("new", [1.0, -0.001])]).unwrap();
    directory.delete(&mut collection, &["p-01"]).unwrap();
    let query = bits(&[1.0, 0.0]);
    let exact = collection.collection().search(&Floats, query.clone(), 5, None).unwrap();
    let hits = collection.search(&Floats, query, 5, None).unwrap();
    assert_eq!(ids(&hits), ids(&exact));
    assert_eq!(ids(&hits), ["p-00", "new", "p-49", "p-02", "p-03"]);
}

#[test]
fn what_cannot_be_read_back_is_refused() {
    let directory = Directory::default();
    let mut collection = directory.open(config()).unwrap();
    let too_large = Err(Error::InvalidQuery("batch is too large"));
    let long = point(&"x".repeat(1_000_001), [1.0, 0.0]);
    assert_eq!(directory.upsert(&mut collection, vec![long]), too_large);
    let mut keyed = point("key", [1.0, 0.0]);
    keyed.metadata.insert("x".repeat(1_000_001), Value::Boolean(true));
    assert_eq!(directory.upsert(&mut collection, vec![keyed]), too_large);
    let mut worded = point("word", [1.0, 0.0]);
    worded.metadata.insert("text".into(), Value::Keyword("x".repeat(1_000_001)));
    assert_eq!(directory.upsert(&mut collection, vec![worded]), too_large);
    assert_eq!(directory.delete(&mut collection, &["x".repeat(1_000_001).as_str()]), too_large);
    let many: Vec<String> = (0..1_000_001).map(|_| "x".to_string()).collect();
    assert_eq!(
        collection.delete(many, |frame: &Vec<u8>| directory.append(frame)),
        Err(Error::InvalidQuery("batch is too large"))
    );
    // The inverse of so small a norm is no finite single.
    let tiny = point("tiny", [f32::from_bits(1), 0.0]);
    assert_eq!(
        directory.upsert(&mut collection, vec![tiny]),
        Err(Error::InvalidQuery("stored vectors must be finite and keep a norm"))
    );
    assert!(directory.wal.borrow().is_empty());
    assert_eq!(collection.latest_sequence(), 0);

    let fits = "x".repeat(1_000_000);
    directory.upsert(&mut collection, vec![point(&fits, [1.0, 0.0])]).unwrap();
    drop(collection);
    let reopened = directory.open(config()).unwrap();
    assert!(reopened.collection().get(&fits).is_some());
    assert_eq!(reopened.latest_sequence(), 1);
}

#[test]
fn a_record_over_the_frame_limit_is_refused() {
    let directory = Directory::default();
    let mut collection = directory.open(config()).unwrap();
    let mut heavy = point("heavy", [1.0, 0.0]);
    for index in 0..270 {
        heavy.metadata.insert(format!("field-{index}"), Value::Keyword("x".repeat(1_000_000)));
    }
    assert_eq!(
        directory.upsert(&mut collection, vec![heavy]),
        Err(Error::InvalidQuery("WAL record is too large"))
    );
    assert!(directory.wal.borrow().is_empty());
}

#[test]
fn reopening_keeps_what_was_committed_beside_the_vectors() {
    let directory = Directory::default();
    let mut collection = directory.open(config()).unwrap();
    let vectors = [[0.1, 0.7], [3.0, -4.0], [1e-20, 2e-20], [5e18, 1.0]];
    for (index, vector) in vectors.into_iter().enumerate() {
        directory.upsert(&mut collection, vec![point(&format!("p{index}"), vector)]).unwrap();
        if index == 1 {
            directory.flush(&mut collection).unwrap();
        }
    }
    directory.delete(&mut collection, &["p0"]).unwrap();
    let reopened = directory.open(config()).unwrap();
    assert_eq!(reopened.latest_sequence(), collection.latest_sequence());
    assert!(reopened.has_approximate_index());
    assert_eq!(reopened.len(), 3);
    for index in 1..4 {
        let name = format!("p{index}");
        let before = collection.collection().get(&name).unwrap();
        let after = reopened.collection().get(&name).unwrap();
        assert_eq!(after.metadata, before.metadata);
        assert_eq!(after.sequence, before.sequence);
        if index == 1 {
            assert_eq!(after.vector, before.vector);
        } else {
            assert_eq!(
                after.vector,
                Metric::Cosine.prepare(&Floats, before.vector.clone()).unwrap()
            );
        }
    }
}

#[test]
fn a_burst_of_four_bytes_is_exposed() {
    let bytes: Vec<u8> = (0..64).collect();
    for start in 0..bytes.len() {
        let mut changed = bytes.clone();
        for byte in changed.iter_mut().skip(start).take(4) {
            *byte ^= 0x5a;
        }
        assert_ne!(crc32c(&changed), crc32c(&bytes));
    }
    assert_eq!(crc32c(&[]), 0);
}

fn damage(message: &str) -> Error {
    Error::CorruptStorage(message.into())
}

#[test]
fn a_changed_byte_in_any_file_is_noticed() {
    let directory = Directory::default();
    let mut collection = directory.open(config()).unwrap();
    directory.upsert(&mut collection, vec![point("a", [1.0, 0.0])]).unwrap();
    let first = directory.wal.borrow().len();
    directory.upsert(&mut collection, vec![point("b", [0.0, 1.0])]).unwrap();
    let second = directory.wal.borrow().len();
    directory.delete(&mut collection, &["a"]).unwrap();
    for position in (0..4).chain(8..second - first) {
        directory.wal.borrow_mut()[first + position] ^= 0x20;
        let what = if position < 4 { "invalid WAL magic" } else { "WAL checksum mismatch" };
        assert_eq!(
            directory.open(config()).err(),
            Some(damage(&format!("{what} at byte {first}")))
        );
        directory.wal.borrow_mut()[first + position] ^= 0x20;
    }

    directory.flush(&mut collection).unwrap();
    let settings = directory.metadata.borrow().clone().unwrap();
    let manifest = directory.manifest.borrow().clone().unwrap();
    let segment = directory.segments.borrow().values().next().unwrap().clone();
    let changed = |bytes: &[u8], position: usize| {
        let mut other = bytes.to_vec();
        other[position] ^= 0x01;
        other
    };
    for position in 0..settings.len() {
        let what = if position < 5 { "invalid collection metadata header" } else {
            "collection metadata checksum mismatch"
        };
        assert_eq!(decode_metadata(&changed(&settings, position)), Err(damage(what)));
    }
    for position in 0..manifest.len() {
        let what =
            if position < 5 { "invalid manifest header" } else { "manifest checksum mismatch" };
        assert_eq!(read_manifest(&changed(&manifest, position)).err(), Some(damage(what)));
    }
    for position in 0..segment.len() {
        let what = if position < 5 { "invalid segment header" } else { "segment checksum mismatch" };
        assert_eq!(decode_segment(&changed(&segment, position)).err(), Some(damage(what)));
    }
}

#[test]
fn a_second_flush_changes_nothing() {
    let directory = Directory::default();
    let mut collection = directory.open(config()).unwrap();
    directory
        .upsert(&mut collection, vec![point("a", [1.0, 0.0]), point("b", [0.0, 1.0])])
        .unwrap();
    assert_eq!(directory.flush(&mut collection), Ok(1));
    let segments = directory.segments.borrow().clone();
    let manifest = directory.manifest.borrow().clone();
    assert_eq!(directory.flush(&mut collection), Ok(1));
    assert_eq!(*directory.segments.borrow(), segments);
    assert_eq!(*directory.manifest.borrow(), manifest);
    assert!(directory.wal.borrow().is_empty());
    assert_eq!(collection.pending_point_count(), 0);
    assert_eq!(collection.collection().len(), 2);
}

#[test]
fn refused_commits_leave_no_byte() {
    let directory = Directory::default();
    let mut collection = directory.open(config()).unwrap();
    let mut infinite = point("a", [1.0, 0.0]);
    infinite.metadata.insert("x".into(), Value::Float(f64::INFINITY.to_bits()));
    for batch in [vec![], vec![point("", [1.0, 0.0])], vec![point("b", [1.0, 0.0]), infinite]] {
        assert!(directory.upsert(&mut collection, batch).is_err());
    }
    assert!(directory.delete(&mut collection, &[]).is_err());
    assert!(directory.delete(&mut collection, &["a", ""]).is_err());
    assert!(directory.wal.borrow().is_empty());
    assert_eq!(collection.collection().len(), 0);
}
