use focal_vector::{
    Collection, CollectionConfig, Error, Filter, Kernel, Metadata, Metric, SearchHit, UpsertPoint,
    Value,
};

struct Floats;

impl Kernel for Floats {
    fn normalize(&self, vector: &Vec<u32>) -> Vec<u32> {
        let values = floats(vector);
        let squared = values
            .iter()
            .map(|value| (*value as f64) * (*value as f64))
            .sum::<f64>();
        let inverse = squared.sqrt().recip() as f32;
        values.iter().map(|value| (value * inverse).to_bits()).collect()
    }

    fn score(&self, metric: Metric, query: &Vec<u32>, candidate: &Vec<u32>) -> u32 {
        let pairs: Vec<(f32, f32)> = floats(query).into_iter().zip(floats(candidate)).collect();
        let score: f32 = match metric {
            Metric::Cosine | Metric::DotProduct => pairs.iter().map(|(a, b)| a * b).sum(),
            Metric::Euclidean => -pairs.iter().map(|(a, b)| (a - b) * (a - b)).sum::<f32>(),
        };
        score.to_bits()
    }
}

fn floats(vector: &[u32]) -> Vec<f32> {
    vector.iter().map(|bits| f32::from_bits(*bits)).collect()
}

fn bits(vector: &[f32]) -> Vec<u32> {
    vector.iter().map(|value| value.to_bits()).collect()
}

fn metadata(tenant: &str, price: i64) -> Metadata {
    let mut metadata = Metadata::new();
    metadata.insert("tenant".into(), Value::Keyword(tenant.into()));
    metadata.insert("price".into(), Value::Integer(price));
    metadata
}

fn point(id: &str, vector: [f32; 2], tenant: &str, price: i64) -> UpsertPoint {
    UpsertPoint { id: id.into(), vector: bits(&vector), metadata: metadata(tenant, price) }
}

fn collection(metric: Metric) -> Collection {
    Collection::new(CollectionConfig { dimension: 2, metric }).unwrap()
}

fn ids(hits: &[SearchHit]) -> Vec<&str> {
    hits.iter().map(|hit| hit.id.as_str()).collect()
}

#[test]
fn cosine_search_normalizes_and_orders_results() {
    let mut collection = collection(Metric::Cosine);
    collection
        .upsert(
            &Floats,
            vec![
                point("north", [0.0, 8.0], "a", 10),
                point("east", [2.0, 0.0], "a", 20),
                point("diagonal", [1.0, 1.0], "b", 30),
            ],
        )
        .unwrap();

    let hits = collection.search(&Floats, bits(&[0.0, 3.0]), 2, None).unwrap();
    assert_eq!(ids(&hits), ["north", "diagonal"]);
    assert!((f32::from_bits(hits[0].score) - 1.0).abs() < 1e-6);
}

#[test]
fn filters_are_applied_before_ranking() {
    let mut collection = collection(Metric::DotProduct);
    collection
        .upsert(
            &Floats,
            vec![
                point("wrong-tenant", [10.0, 0.0], "b", 5),
                point("too-cheap", [9.0, 0.0], "a", 3),
                point("match", [8.0, 0.0], "a", 12),
            ],
        )
        .unwrap();
    let filter = Filter::And(vec![
        Filter::Eq { field: "tenant".into(), value: Value::Keyword("a".into()) },
        Filter::Range { field: "price".into(), gte: Some(10.0f64.to_bits()), lt: None },
    ]);

    let hits = collection.search(&Floats, bits(&[1.0, 0.0]), 10, Some(&filter)).unwrap();
    assert_eq!(hits.len(), 1);
    assert_eq!(hits[0].id, "match");
}

#[test]
fn invalid_batch_is_atomic() {
    let mut collection = collection(Metric::Euclidean);
    let result = collection.upsert(
        &Floats,
        vec![
            point("valid", [1.0, 2.0], "a", 1),
            UpsertPoint { id: "invalid".into(), vector: bits(&[1.0]), metadata: Metadata::new() },
        ],
    );

    assert!(matches!(result, Err(Error::InvalidDimension { .. })));
    assert!(collection.is_empty());
    assert_eq!(collection.latest_sequence(), 0);
}

#[test]
fn updates_and_deletes_advance_sequence() {
    let mut collection = collection(Metric::Euclidean);
    assert_eq!(collection.upsert(&Floats, vec![point("p", [1.0, 1.0], "a", 1)]).unwrap(), 1);
    assert_eq!(collection.upsert(&Floats, vec![point("p", [2.0, 2.0], "b", 2)]).unwrap(), 2);
    assert_eq!(collection.get("p").unwrap().sequence, 2);
    assert_eq!(collection.delete(&vec!["p".to_string()]).unwrap(), 3);
    assert!(collection.get("p").is_none());
}

#[test]
fn ties_are_stable_by_point_id() {
    let mut collection = collection(Metric::DotProduct);
    collection
        .upsert(
            &Floats,
            vec![point("b", [1.0, 0.0], "a", 1), point("a", [1.0, 0.0], "a", 1)],
        )
        .unwrap();

    let hits = collection.search(&Floats, bits(&[1.0, 0.0]), 2, None).unwrap();
    assert_eq!(ids(&hits), ["a", "b"]);
}

#[test]
fn refused_requests_say_why() {
    assert_eq!(
        Collection::new(CollectionConfig { dimension: 0, metric: Metric::Cosine }).err(),
        Some(Error::InvalidConfig("dimension must be greater than zero"))
    );
    let mut collection = collection(Metric::Cosine);
    assert_eq!(
        collection.upsert(&Floats, vec![]),
        Err(Error::InvalidQuery("upsert batch must not be empty"))
    );
    assert_eq!(
        collection.upsert(&Floats, vec![point("", [1.0, 0.0], "a", 1)]),
        Err(Error::InvalidQuery("point ID must not be empty"))
    );
    assert_eq!(
        collection.upsert(&Floats, vec![point("p", [f32::NAN, 0.0], "a", 1)]),
        Err(Error::InvalidVector("components must be finite"))
    );
    assert_eq!(
        collection.upsert(&Floats, vec![point("p", [0.0, -0.0], "a", 1)]),
        Err(Error::InvalidVector("cosine similarity requires a finite, non-zero norm"))
    );
    assert_eq!(
        collection.search(&Floats, bits(&[1.0, 0.0]), 0, None).err(),
        Some(Error::InvalidQuery("k must be greater than zero"))
    );
    assert_eq!(
        collection.search(&Floats, bits(&[1.0]), 1, None).err(),
        Some(Error::InvalidDimension { expected: 2, actual: 1 })
    );
    assert_eq!(
        Error::InvalidDimension { expected: 2, actual: 1 }.message(),
        "invalid vector dimension: expected 2, got 1"
    );
    assert_eq!(Error::Io("gone".into()).message(), "storage I/O error: gone");
    assert_eq!(Error::SequenceOverflow.message(), "collection sequence overflow");
}

#[test]
fn written_points_are_read_back_and_others_stay() {
    let mut collection = collection(Metric::DotProduct);
    collection.upsert(&Floats, vec![point("a", [1.0, 2.0], "x", 7)]).unwrap();
    collection.upsert(&Floats, vec![point("b", [3.0, 4.0], "y", 8)]).unwrap();
    let a = collection.get("a").unwrap();
    assert_eq!(floats(&a.vector), [1.0, 2.0]);
    assert_eq!(a.sequence, 1);
    assert_eq!(a.metadata.get("price"), Some(&Value::Integer(7)));
    assert_eq!(a.metadata.get("missing"), None);
    collection.delete(&vec!["b".to_string(), "unknown".to_string()]).unwrap();
    assert_eq!(collection.len(), 1);
    assert_eq!(collection.latest_sequence(), 3);
    assert_eq!(collection.get("a").unwrap().sequence, 1);
}

#[test]
fn filters_compare_numbers_across_kinds() {
    let mut metadata = Metadata::new();
    metadata.insert("count".into(), Value::Integer(i64::MAX));
    metadata.insert("ratio".into(), Value::Float((-0.0f64).to_bits()));
    metadata.insert("strange".into(), Value::Float(f64::NAN.to_bits()));
    let range = |field: &str, gte: Option<f64>, lt: Option<f64>| Filter::Range {
        field: field.into(),
        gte: gte.map(f64::to_bits),
        lt: lt.map(f64::to_bits),
    };
    assert!(range("count", Some(i64::MAX as f64), None).matches(&metadata));
    assert!(!range("count", None, Some(i64::MAX as f64)).matches(&metadata));
    assert!(range("ratio", Some(0.0), Some(1.0)).matches(&metadata));
    assert!(!range("strange", None, None).matches(&metadata));
    assert!(!range("missing", None, None).matches(&metadata));
    let equal = |field: &str, value: Value| Filter::Eq { field: field.into(), value };
    assert!(equal("ratio", Value::Float(0.0f64.to_bits())).matches(&metadata));
    assert!(!equal("strange", Value::Float(f64::NAN.to_bits())).matches(&metadata));
    assert!(!equal("count", Value::Float((i64::MAX as f64).to_bits())).matches(&metadata));
    assert!(Filter::Or(vec![range("missing", None, None), Filter::MatchAll]).matches(&metadata));
    assert!(!Filter::Or(vec![]).matches(&metadata));
    assert!(Filter::And(vec![]).matches(&metadata));
    assert!(Filter::Not(Box::new(Filter::Or(vec![]))).matches(&metadata));
}
