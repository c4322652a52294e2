use std::collections::HashSet;

use focal_vector::bytes::{Decoder, Format};
use focal_vector::hnsw::deterministic_level;
use focal_vector::metadata_index::MetadataIndex;
use focal_vector::ranking::is_better;
use focal_vector::{
    Error, Filter, HnswConfig, HnswHit, HnswIndex, Kernel, Metadata, Metric, Point, Value,
};

struct Floats;

impl Kernel for Floats {
    fn normalize(&self, vector: &Vec<u32>) -> Vec<u32> {
        let values = floats(vector);
        let squared = values
            .iter()
            .map(|value| (*value as f64) * (*value as f64))
            .sum::<f64>();
        let inverse = squared.sqrt().recip() as f32;
        values.iter().map(|value| (value * inverse).to_bits()).collect()
    }

    fn score(&self, metric: Metric, query: &Vec<u32>, candidate: &Vec<u32>) -> u32 {
        let pairs: Vec<(f32, f32)> = floats(query).into_iter().zip(floats(candidate)).collect();
        let score: f32 = match metric {
            Metric::Cosine | Metric::DotProduct => pairs.iter().map(|(a, b)| a * b).sum(),
            Metric::Euclidean => -pairs.iter().map(|(a, b)| (a - b) * (a - b)).sum::<f32>(),
        };
        score.to_bits()
    }
}

fn floats(vector: &[u32]) -> Vec<f32> {
    vector.iter().map(|bits| f32::from_bits(*bits)).collect()
}

fn bits(vector: &[f32]) -> Vec<u32> {
    vector.iter().map(|value| value.to_bits()).collect()
}

fn points(count: usize) -> Vec<(String, Vec<u32>)> {
    (0..count)
        .map(|index| {
            let angle = index as f32 * 0.137;
            (
                format!("point-{index:04}"),
                bits(&[angle.cos(), angle.sin(), (angle * 0.31).cos()]),
            )
        })
        .collect()
}

fn search(index: &HnswIndex, query: &[f32], k: usize, ef: usize) -> Vec<HnswHit> {
    index.search(&Floats, bits(query), k, ef).unwrap()
}

#[test]
fn finds_nearest_points_for_all_metrics() {
    for metric in [Metric::Cosine, Metric::DotProduct, Metric::Euclidean] {
        let index = HnswIndex::build(
            &Floats,
            2,
            metric,
            HnswConfig { m: 8, ef_construction: 32 },
            vec![
                ("a".into(), bits(&[1.0, 0.0])),
                ("b".into(), bits(&[0.0, 1.0])),
                ("c".into(), bits(&[-1.0, 0.0])),
            ],
        )
        .unwrap();
        let hits = search(&index, &[0.9, 0.1], 2, 8);
        assert_eq!(hits[0].id, "a");
    }
}

#[test]
fn recall_is_high_against_exact_search() {
    let points = points(500);
    let index = HnswIndex::build(
        &Floats,
        3,
        Metric::Cosine,
        HnswConfig { m: 12, ef_construction: 80 },
        points.clone(),
    )
    .unwrap();
    let mut matches = 0;
    let mut total = 0;
    for query_index in (0..500).step_by(11) {
        let query = points[query_index].1.clone();
        let approximate: HashSet<String> = index
            .search(&Floats, query.clone(), 10, 64)
            .unwrap()
            .into_iter()
            .map(|hit| hit.id)
            .collect();
        let prepared = Metric::Cosine.prepare(&Floats, query).unwrap();
        let mut exact: Vec<(u32, String)> = points
            .iter()
            .map(|(id, vector)| {
                let candidate = Metric::Cosine.prepare(&Floats, vector.clone()).unwrap();
                (Metric::Cosine.score(&Floats, &prepared, &candidate), id.clone())
            })
            .collect();
        exact.sort_by(|left, right| {
            if is_better(left.0, &left.1, right.0, &right.1) {
                std::cmp::Ordering::Less
            } else {
                std::cmp::Ordering::Greater
            }
        });
        for (_, id) in exact.iter().take(10) {
            total += 1;
            matches += usize::from(approximate.contains(id));
        }
    }
    let recall = matches as f64 / total as f64;
    assert!(recall >= 0.95, "recall@10 was {recall:.3}");
}

#[test]
fn validates_configuration_and_queries() {
    assert!(
        HnswIndex::build(
            &Floats,
            2,
            Metric::Cosine,
            HnswConfig { m: 1, ef_construction: 10 },
            vec![]
        )
        .is_err()
    );
    let index =
        HnswIndex::build(&Floats, 2, Metric::Cosine, HnswConfig::default(), vec![]).unwrap();
    assert!(index.search(&Floats, bits(&[1.0]), 1, 10).is_err());
    assert!(index.search(&Floats, bits(&[1.0, 0.0]), 10, 9).is_err());
}

#[test]
fn construction_and_ties_are_deterministic() {
    let build = || {
        HnswIndex::build(
            &Floats,
            2,
            Metric::DotProduct,
            HnswConfig::default(),
            vec![("b".into(), bits(&[1.0, 0.0])), ("a".into(), bits(&[1.0, 0.0]))],
        )
        .unwrap()
    };
    let first = search(&build(), &[1.0, 0.0], 2, 16);
    let second = search(&build(), &[1.0, 0.0], 2, 16);
    assert_eq!(first, second);
    assert_eq!(first[0].id, "a");
}

#[test]
fn graph_round_trips_through_binary_format() {
    let original = HnswIndex::build(
        &Floats,
        3,
        Metric::Cosine,
        HnswConfig { m: 8, ef_construction: 40 },
        points(100),
    )
    .unwrap();
    let restored = HnswIndex::decode(&original.encode().unwrap()).unwrap();
    assert_eq!(restored.len(), original.len());
    assert_eq!(restored.config(), original.config());
    assert_eq!(
        search(&restored, &[0.2, 0.8, 0.4], 10, 32),
        search(&original, &[0.2, 0.8, 0.4], 10, 32)
    );
}

#[test]
fn results_are_ranked_and_distinct() {
    let index = HnswIndex::build(
        &Floats,
        3,
        Metric::Euclidean,
        HnswConfig { m: 4, ef_construction: 16 },
        points(200),
    )
    .unwrap();
    let hits = search(&index, &[0.5, 0.5, 0.5], 20, 40);
    assert_eq!(hits.len(), 20);
    for pair in hits.windows(2) {
        assert!(is_better(pair[0].score, &pair[0].id, pair[1].score, &pair[1].id));
    }
}

#[test]
fn damaged_graphs_are_refused() {
    let graph = HnswIndex::build(
        &Floats,
        3,
        Metric::Cosine,
        HnswConfig { m: 4, ef_construction: 16 },
        points(10),
    )
    .unwrap();
    let bytes = graph.encode().unwrap();
    for length in 0..bytes.len() {
        assert!(HnswIndex::decode(&bytes[..length]).is_err());
    }
    let mut longer = bytes.clone();
    longer.push(0);
    assert!(matches!(HnswIndex::decode(&longer), Err(Error::CorruptStorage(_))));
    // An ID of bytes that are no text.
    let single = HnswIndex::build(
        &Floats,
        2,
        Metric::Cosine,
        HnswConfig::default(),
        vec![("é".into(), bits(&[1.0, 0.0]))],
    )
    .unwrap();
    let encoded = single.encode().unwrap();
    assert_eq!(HnswIndex::decode(&encoded).unwrap().len(), 1);
    let hits = search(&HnswIndex::decode(&encoded).unwrap(), &[1.0, 0.0], 1, 1);
    assert_eq!(hits[0].id, "é");
    let place = encoded.windows(2).position(|pair| pair == "é".as_bytes()).unwrap();
    let mut broken = encoded.clone();
    broken[place + 1] = b'x';
    assert!(HnswIndex::decode(&broken).is_err());
}

fn indexed(id: &str, tenant: &str, price: i64, enabled: bool) -> Point {
    let mut metadata = Metadata::new();
    metadata.insert("tenant".into(), Value::Keyword(tenant.into()));
    metadata.insert("price".into(), Value::Integer(price));
    metadata.insert("enabled".into(), Value::Boolean(enabled));
    Point { id: id.into(), vector: bits(&[1.0]), metadata, sequence: 1 }
}

#[test]
fn combines_equality_range_and_boolean_expressions() {
    let points = vec![
        indexed("a", "one", 5, true),
        indexed("b", "one", 15, false),
        indexed("c", "two", 25, true),
    ];
    let index = MetadataIndex::build(&points);
    let filter = Filter::And(vec![
        Filter::Eq { field: "tenant".into(), value: Value::Keyword("one".into()) },
        Filter::Range {
            field: "price".into(),
            gte: Some(10.0f64.to_bits()),
            lt: Some(20.0f64.to_bits()),
        },
        Filter::Not(Box::new(Filter::Eq {
            field: "enabled".into(),
            value: Value::Boolean(true),
        })),
    ]);
    let candidates = index.candidates(&filter);
    assert_eq!(candidates.len(), 1);
    assert!(candidates.contains("b"));
    assert!(
        index
            .candidates(&Filter::Range {
                field: "price".into(),
                gte: Some(20.0f64.to_bits()),
                lt: Some(10.0f64.to_bits()),
            })
            .is_empty()
    );
}

#[test]
fn candidates_are_the_points_that_match() {
    let points: Vec<Point> = (0..50)
        .map(|index| {
            indexed(
                &format!("p-{index:02}"),
                if index % 3 == 0 { "one" } else { "two" },
                index - 25,
                index % 2 == 0,
            )
        })
        .collect();
    let index = MetadataIndex::build(&points);
    let filters = vec![
        Filter::MatchAll,
        Filter::Range { field: "price".into(), gte: Some((-3.5f64).to_bits()), lt: None },
        Filter::Range { field: "price".into(), gte: None, lt: Some(0.0f64.to_bits()) },
        Filter::Eq { field: "price".into(), value: Value::Integer(-25) },
        Filter::Or(vec![
            Filter::Eq { field: "tenant".into(), value: Value::Keyword("one".into()) },
            Filter::Eq { field: "enabled".into(), value: Value::Boolean(true) },
        ]),
        Filter::Not(Box::new(Filter::Eq {
            field: "tenant".into(),
            value: Value::Keyword("one".into()),
        })),
    ];
    for filter in &filters {
        let candidates = index.candidates(filter);
        for point in &points {
            assert_eq!(candidates.contains(&point.id), filter.matches(&point.metadata));
        }
    }
}

#[test]
fn a_small_graph_is_searched_exactly() {
    let config = HnswConfig { m: 4, ef_construction: 4 };
    for metric in [Metric::Cosine, Metric::DotProduct, Metric::Euclidean] {
        for count in 1..=5 {
            let all = points(count);
            let index = HnswIndex::build(&Floats, 3, metric, config, all.clone()).unwrap();
            let query = metric.prepare(&Floats, bits(&[0.4, -0.2, 0.9])).unwrap();
            let mut expected: Vec<(u32, String)> = all
                .iter()
                .map(|(id, vector)| {
                    let stored = metric.prepare(&Floats, vector.clone()).unwrap();
                    (metric.score(&Floats, &query, &stored), id.clone())
                })
                .collect();
            expected.sort_by(|left, right| {
                f32::from_bits(right.0)
                    .total_cmp(&f32::from_bits(left.0))
                    .then_with(|| left.1.cmp(&right.1))
            });
            for k in 1..=count {
                let hits = search(&index, &[0.4, -0.2, 0.9], k, count);
                let found: Vec<(u32, String)> =
                    hits.into_iter().map(|hit| (hit.score, hit.id)).collect();
                assert_eq!(found, expected[..k]);
            }
        }
    }
}

#[test]
fn accepted_bytes_are_the_one_encoding() {
    let graph =
        HnswIndex::build(&Floats, 3, Metric::Cosine, HnswConfig::default(), points(20)).unwrap();
    let bytes = graph.encode().unwrap();
    assert_eq!(HnswIndex::decode(&bytes).unwrap().encode().unwrap(), bytes);
    for cut in 0..bytes.len() {
        assert!(matches!(HnswIndex::decode(&bytes[..cut]), Err(Error::CorruptStorage(_))));
    }
    let mut longer = bytes.clone();
    longer.push(0);
    assert!(matches!(HnswIndex::decode(&longer), Err(Error::CorruptStorage(_))));
}

#[test]
fn a_refused_read_consumes_nothing() {
    let bytes = [1u8, 2, 3, 0xff];
    let mut decoder = Decoder::new(&bytes, Format::Graph);
    assert_eq!(decoder.take(1).unwrap(), [1]);
    for length in [4, usize::MAX] {
        assert!(matches!(decoder.take(length), Err(Error::CorruptStorage(_))));
        assert_eq!(decoder.position, 1);
    }
    assert!(decoder.number(8).is_err());
    assert_eq!(decoder.position, 1);
    assert!(decoder.text(3).is_err());
    assert_eq!(decoder.position, 4);
    assert!(decoder.byte().is_err());
    assert_eq!(decoder.position, 4);
}

#[test]
fn levels_follow_from_the_id_and_fall_with_m() {
    for (id, levels) in [
        ("p4", [32, 3, 2, 2, 1, 0]),
        ("p40", [32, 2, 0, 0, 0, 0]),
        ("point-3", [32, 4, 0, 0, 0, 0]),
        ("alpha", [32, 0, 0, 0, 0, 0]),
    ] {
        let found = [1, 2, 3, 4, 16, 32].map(|m| deterministic_level(id, m));
        assert_eq!(found, levels);
    }
}
