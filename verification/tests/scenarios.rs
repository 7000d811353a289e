use payload_index::codec::{decode_config, encode_config};
use payload_index::context::StructFilterContext;
use payload_index::estimator::PrimaryCondition;
use payload_index::filters::{
    Condition, FieldCondition, Filter, GeoBoundingBox, GeoRadius, HasIdCondition,
    IsEmptyCondition, RangeCondition, ValueMatch,
};
use payload_index::payload_index::{ConfigEntry, PayloadConfig, StructPayloadIndex};
use payload_index::persist::SegmentStore;
use payload_index::types::{
    GeoPoint, Payload, PayloadEntry, PayloadSchemaType, PointRecord, PointStorage, Value,
};

fn payload(entries: Vec<(&str, Vec<Value>)>) -> Payload {
    Payload {
        entries: entries
            .into_iter()
            .map(|(k, values)| PayloadEntry { key: k.to_string(), values })
            .collect(),
    }
}

fn storage(points: Vec<Payload>) -> PointStorage {
    PointStorage {
        points: points
            .into_iter()
            .enumerate()
            .map(|(i, p)| PointRecord { external_id: 1000 + i as u64, payload: p })
            .collect(),
    }
}

fn open_fresh(points: Vec<Payload>) -> StructPayloadIndex {
    StructPayloadIndex::open(storage(points), SegmentStore::new()).unwrap()
}

fn match_kw(key: &str, word: &str) -> Condition {
    Condition::Field(FieldCondition::new_match(
        key.to_string(),
        ValueMatch::Keyword(word.to_string()),
    ))
}

fn match_num(key: &str, n: i64) -> Condition {
    Condition::Field(FieldCondition::new_match(key.to_string(), ValueMatch::Number(n)))
}

fn range(key: &str, gte: Option<i64>, lte: Option<i64>) -> Condition {
    Condition::Field(FieldCondition::new_range(
        key.to_string(),
        RangeCondition { gt: None, gte, lt: None, lte },
    ))
}

fn must(c: Condition) -> Filter {
    Filter::new_must(c)
}

fn sorted(mut v: Vec<u32>) -> Vec<u32> {
    v.sort();
    v
}

#[test]
fn s1_integer_range() {
    let mut index = open_fresh(vec![
        payload(vec![("age", vec![Value::Number(25)])]),
        payload(vec![("age", vec![Value::Number(30)])]),
        payload(vec![("age", vec![Value::Number(40)])]),
    ]);
    index.set_indexed(&"age".to_string(), PayloadSchemaType::Integer).unwrap();
    let f = must(range("age", Some(26), Some(35)));
    let est = index.estimate_cardinality(&f);
    assert!(est.max <= 1);
    assert_eq!(index.query_points(&f), vec![1]);
}

#[test]
fn s2_keyword_match_then_drop() {
    let mut index = open_fresh(vec![
        payload(vec![("color", vec![Value::Keyword("red".to_string())])]),
        payload(vec![("color", vec![Value::Keyword("blue".to_string())])]),
        payload(vec![("color", vec![Value::Keyword("red".to_string())])]),
    ]);
    index.set_indexed(&"color".to_string(), PayloadSchemaType::Keyword).unwrap();
    let f = must(match_kw("color", "red"));
    assert_eq!(sorted(index.query_points(&f)), vec![0, 2]);
    index.drop_index(&"color".to_string()).unwrap();
    assert_eq!(sorted(index.query_points(&f)), vec![0, 2]);
}

#[test]
fn s3_is_empty_unindexed() {
    let points: Vec<Payload> = (0..100)
        .map(|i| payload(vec![("other", vec![Value::Number(i)])]))
        .collect();
    let index = open_fresh(points);
    let f = must(Condition::IsEmpty(IsEmptyCondition { key: "size".to_string() }));
    let est = index.estimate_cardinality(&f);
    assert_eq!((est.min, est.exp, est.max), (0, 50, 100));
    assert_eq!(index.query_points(&f).len(), 100);
}

#[test]
fn s4_geo_bounding_box() {
    // Micro-degree coordinates: (0,0), (1,1), (10,10) in degrees.
    let pts = vec![(0i64, 0i64), (1_000_000, 1_000_000), (10_000_000, 10_000_000)];
    let mut index = open_fresh(
        pts.into_iter()
            .map(|(lat, lon)| payload(vec![("pos", vec![Value::Geo(GeoPoint { lat, lon })])]))
            .collect(),
    );
    index.set_indexed(&"pos".to_string(), PayloadSchemaType::Geo).unwrap();
    let f = must(Condition::Field(FieldCondition::new_geo_bounding_box(
        "pos".to_string(),
        GeoBoundingBox {
            top_left: GeoPoint { lat: 2_000_000, lon: -2_000_000 },
            bottom_right: GeoPoint { lat: -2_000_000, lon: 2_000_000 },
        },
    )));
    assert_eq!(sorted(index.query_points(&f)), vec![0, 1]);
}

#[test]
fn s5_should_with_unindexed_branch_scans() {
    let mut index = open_fresh(vec![
        payload(vec![
            ("color", vec![Value::Keyword("red".to_string())]),
            ("age", vec![Value::Number(30)]),
        ]),
        payload(vec![
            ("color", vec![Value::Keyword("blue".to_string())]),
            ("age", vec![Value::Number(70)]),
        ]),
        payload(vec![
            ("color", vec![Value::Keyword("green".to_string())]),
            ("age", vec![Value::Number(50)]),
        ]),
    ]);
    index.set_indexed(&"color".to_string(), PayloadSchemaType::Keyword).unwrap();
    let f = Filter::new_should(vec![match_kw("color", "red"), range("age", Some(60), None)]);
    let est = index.estimate_cardinality(&f);
    assert!(est.primary_clauses.is_empty());
    assert_eq!(sorted(index.query_points(&f)), vec![0, 1]);
}

#[test]
fn s6_persistence_restart() {
    let make_points = || -> Vec<Payload> {
        (0..10_000)
            .map(|i| payload(vec![("age", vec![Value::Number(i % 97)])]))
            .collect()
    };
    let mut index = open_fresh(make_points());
    index.set_indexed(&"age".to_string(), PayloadSchemaType::Integer).unwrap();
    let f = must(range("age", Some(10), Some(12)));
    let before = sorted(index.query_points(&f));

    // Process restart: reopen from the persisted store with the same data.
    let store = index.store;
    let reopened = StructPayloadIndex::open(storage(make_points()), store).unwrap();
    let fields = reopened.indexed_fields();
    assert_eq!(fields.len(), 1);
    assert_eq!(fields[0].key, "age".to_string());
    assert_eq!(fields[0].schema, PayloadSchemaType::Integer);
    assert_eq!(sorted(reopened.query_points(&f)), before);
}

#[test]
fn set_indexed_idempotent() {
    let mut index = open_fresh(vec![payload(vec![("age", vec![Value::Number(5)])])]);
    index.set_indexed(&"age".to_string(), PayloadSchemaType::Integer).unwrap();
    let fields_once = index.indexed_fields();
    let config_once = index.store.config.clone();
    index.set_indexed(&"age".to_string(), PayloadSchemaType::Integer).unwrap();
    index.set_indexed(&"age".to_string(), PayloadSchemaType::Integer).unwrap();
    assert_eq!(index.indexed_fields().len(), fields_once.len());
    assert_eq!(index.store.config, config_once);
}

#[test]
fn drop_index_absent_noop() {
    let mut index = open_fresh(vec![payload(vec![("age", vec![Value::Number(5)])])]);
    index.set_indexed(&"age".to_string(), PayloadSchemaType::Integer).unwrap();
    index.drop_index(&"nothere".to_string()).unwrap();
    let fields = index.indexed_fields();
    assert_eq!(fields.len(), 1);
    assert_eq!(fields[0].key, "age".to_string());
}

#[test]
fn no_duplicates_across_overlapping_clauses() {
    let mut index = open_fresh(vec![
        payload(vec![
            ("color", vec![Value::Keyword("red".to_string())]),
            ("age", vec![Value::Number(30)]),
        ]),
        payload(vec![
            ("color", vec![Value::Keyword("red".to_string())]),
            ("age", vec![Value::Number(30)]),
        ]),
        payload(vec![("color", vec![Value::Keyword("blue".to_string())])]),
    ]);
    index.set_indexed(&"color".to_string(), PayloadSchemaType::Keyword).unwrap();
    index.set_indexed(&"age".to_string(), PayloadSchemaType::Integer).unwrap();
    // Both clauses select the same two points.
    let f = Filter::new_should(vec![match_kw("color", "red"), match_num("age", 30)]);
    let ids = index.query_points(&f);
    let mut dedup = ids.clone();
    dedup.sort();
    dedup.dedup();
    assert_eq!(dedup.len(), ids.len());
    assert_eq!(sorted(ids), vec![0, 1]);
}

#[test]
fn estimation_bounds_hold() {
    let mut index = open_fresh(vec![
        payload(vec![
            ("color", vec![Value::Keyword("red".to_string())]),
            ("age", vec![Value::Number(10)]),
        ]),
        payload(vec![
            ("color", vec![Value::Keyword("red".to_string())]),
            ("age", vec![Value::Number(20)]),
        ]),
        payload(vec![
            ("color", vec![Value::Keyword("blue".to_string())]),
            ("age", vec![Value::Number(30)]),
        ]),
        payload(vec![("age", vec![Value::Number(40)])]),
    ]);
    index.set_indexed(&"color".to_string(), PayloadSchemaType::Keyword).unwrap();
    let filters = vec![
        must(match_kw("color", "red")),
        must(range("age", Some(15), None)),
        Filter::new_should(vec![match_kw("color", "red"), match_kw("color", "blue")]),
        Filter::new_must_not(match_kw("color", "red")),
        must(Condition::IsEmpty(IsEmptyCondition { key: "color".to_string() })),
        must(Condition::HasId(HasIdCondition { has_id: vec![1000, 1002, 9999] })),
    ];
    for f in &filters {
        let est = index.estimate_cardinality(f);
        let n = index.query_points(f).len();
        assert!(est.min <= n, "min bound broken: {} > {}", est.min, n);
        assert!(n <= est.max, "max bound broken: {} < {}", est.max, n);
        assert!(est.min <= est.exp && est.exp <= est.max);
    }
}

#[test]
fn filter_context_agrees_with_query() {
    let mut index = open_fresh(vec![
        payload(vec![
            ("color", vec![Value::Keyword("red".to_string())]),
            ("age", vec![Value::Number(30)]),
        ]),
        payload(vec![
            ("color", vec![Value::Keyword("blue".to_string())]),
            ("age", vec![Value::Number(70)]),
        ]),
        payload(vec![("age", vec![Value::Number(70), Value::Number(30)])]),
    ]);
    index.set_indexed(&"color".to_string(), PayloadSchemaType::Keyword).unwrap();
    index.set_indexed(&"age".to_string(), PayloadSchemaType::Integer).unwrap();
    let filters = vec![
        must(match_kw("color", "red")),
        must(range("age", Some(40), None)),
        Filter::new_should(vec![match_kw("color", "blue"), range("age", None, Some(35))]),
        Filter::new_must_not(range("age", Some(40), None)),
        must(Condition::HasId(HasIdCondition { has_id: vec![1001] })),
    ];
    for f in &filters {
        let expected = index.query_points(f);
        let ctx = index.filter_context(f);
        for id in 0u32..3 {
            assert_eq!(ctx.check(id), expected.contains(&id), "disagreement on {}", id);
        }
    }
}

#[test]
fn geo_radius_selects_close_points() {
    let pts = vec![(0i64, 0i64), (1_000_000, 1_000_000), (10_000_000, 10_000_000)];
    let mut index = open_fresh(
        pts.into_iter()
            .map(|(lat, lon)| payload(vec![("pos", vec![Value::Geo(GeoPoint { lat, lon })])]))
            .collect(),
    );
    index.set_indexed(&"pos".to_string(), PayloadSchemaType::Geo).unwrap();
    // Radius covering ~3 degrees of coordinate distance.
    let f = must(Condition::Field(FieldCondition::new_geo_radius(
        "pos".to_string(),
        GeoRadius { center: GeoPoint { lat: 0, lon: 0 }, radius: 3_000_000 },
    )));
    assert_eq!(sorted(index.query_points(&f)), vec![0, 1]);
}

#[test]
fn is_empty_indexed_estimate() {
    let mut index = open_fresh(vec![
        payload(vec![("size", vec![Value::Number(1)])]),
        payload(vec![("size", vec![Value::Number(2)])]),
        payload(vec![]),
        payload(vec![("other", vec![Value::Number(3)])]),
    ]);
    index.set_indexed(&"size".to_string(), PayloadSchemaType::Integer).unwrap();
    let f = must(Condition::IsEmpty(IsEmptyCondition { key: "size".to_string() }));
    let est = index.estimate_cardinality(&f);
    assert_eq!((est.min, est.exp, est.max), (0, 2, 2));
    assert_eq!(sorted(index.query_points(&f)), vec![2, 3]);
}

#[test]
fn config_codec_round_trip() {
    let config = PayloadConfig {
        indexed_fields: vec![
            ConfigEntry { key: "age".to_string(), schema: PayloadSchemaType::Integer },
            ConfigEntry { key: "we\"ird\\key".to_string(), schema: PayloadSchemaType::Geo },
            ConfigEntry { key: "color".to_string(), schema: PayloadSchemaType::Keyword },
        ],
    };
    let encoded = encode_config(&config);
    let text: String = encoded.iter().collect();
    assert!(text.starts_with("{\"indexed_fields\":{\"age\":\"integer\","));
    let decoded = decode_config(&encoded).expect("canonical encoding must decode");
    assert_eq!(decoded.indexed_fields.len(), 3);
    assert_eq!(decoded.indexed_fields[1].key, "we\"ird\\key".to_string());
    assert_eq!(decoded.indexed_fields[1].schema, PayloadSchemaType::Geo);

    let garbage: Vec<char> = "{\"indexed_fields\":{\"a\":\"integer\"".chars().collect();
    assert!(decode_config(&garbage).is_none());
    let spaced: Vec<char> = "{ \"indexed_fields\": {} }".chars().collect();
    assert!(decode_config(&spaced).is_none());
}

#[test]
fn payload_blocks_fat_clusters() {
    let mut points = Vec::new();
    for _ in 0..5 {
        points.push(payload(vec![("color", vec![Value::Keyword("red".to_string())])]));
    }
    for _ in 0..2 {
        points.push(payload(vec![("color", vec![Value::Keyword("blue".to_string())])]));
    }
    let mut index = open_fresh(points);
    index.set_indexed(&"color".to_string(), PayloadSchemaType::Keyword).unwrap();
    let blocks = index.payload_blocks(&"color".to_string(), 3);
    assert_eq!(blocks.len(), 1);
    assert_eq!(blocks[0].cardinality, 5);
    match &blocks[0].condition.match_value {
        Some(ValueMatch::Keyword(w)) => assert_eq!(w, "red"),
        other => panic!("unexpected block condition: {:?}", other.is_some()),
    }
}

#[test]
fn has_id_maps_external_ids() {
    let index = open_fresh(vec![
        payload(vec![]),
        payload(vec![]),
        payload(vec![]),
    ]);
    // External ids are 1000, 1001, 1002; unknown ids are dropped.
    let f = must(Condition::HasId(HasIdCondition { has_id: vec![1002, 1000, 77, 1000] }));
    let est = index.estimate_cardinality(&f);
    assert_eq!((est.min, est.exp, est.max), (2, 2, 2));
    assert!(matches!(est.primary_clauses[0], PrimaryCondition::Ids(_)));
    assert_eq!(sorted(index.query_points(&f)), vec![0, 2]);
}

#[test]
fn nested_filters_and_must_not() {
    let mut index = open_fresh(vec![
        payload(vec![
            ("color", vec![Value::Keyword("red".to_string())]),
            ("age", vec![Value::Number(10)]),
        ]),
        payload(vec![
            ("color", vec![Value::Keyword("red".to_string())]),
            ("age", vec![Value::Number(90)]),
        ]),
        payload(vec![
            ("color", vec![Value::Keyword("blue".to_string())]),
            ("age", vec![Value::Number(90)]),
        ]),
    ]);
    index.set_indexed(&"color".to_string(), PayloadSchemaType::Keyword).unwrap();
    // red AND NOT (age >= 50)
    let inner = must(range("age", Some(50), None));
    let f = Filter {
        should: None,
        must: Some(vec![match_kw("color", "red")]),
        must_not: Some(vec![Condition::Filter(Box::new(inner))]),
    };
    assert_eq!(sorted(index.query_points(&f)), vec![0]);
}

#[test]
fn values_count_condition() {
    let index = open_fresh(vec![
        payload(vec![("tags", vec![Value::Number(1), Value::Number(2)])]),
        payload(vec![("tags", vec![Value::Number(1)])]),
        payload(vec![("tags", vec![])]),
    ]);
    let fc = FieldCondition {
        key: "tags".to_string(),
        match_value: None,
        range: None,
        geo_radius: None,
        geo_bounding_box: None,
        values_count: Some(payload_index::filters::ValuesCountCondition {
            gt: None,
            gte: Some(2),
            lt: None,
            lte: None,
        }),
    };
    let f = must(Condition::Field(fc));
    assert_eq!(index.query_points(&f), vec![0]);
}

#[test]
fn context_fallback_flag() {
    let mut index = open_fresh(vec![
        payload(vec![("color", vec![Value::Keyword("red".to_string())])]),
        payload(vec![("color", vec![Value::Keyword("blue".to_string())])]),
    ]);
    index.set_indexed(&"color".to_string(), PayloadSchemaType::Keyword).unwrap();
    let indexed = must(match_kw("color", "red"));
    let ctx = StructFilterContext::new(&index, &indexed, index.estimate_cardinality(&indexed));
    assert!(!ctx.fallback);
    let unindexed = must(range("age", Some(1), None));
    let ctx2 = StructFilterContext::new(&index, &unindexed, index.estimate_cardinality(&unindexed));
    // The unindexed clause cannot drive a probe, so its clause list is
    // empty and nothing forces the fallback; the fast path answers leaves
    // of unindexed keys as non-matching, like the reference checker here.
    assert!(!ctx2.fallback);
    let by_id = must(Condition::HasId(HasIdCondition { has_id: vec![1000] }));
    let ctx3 = StructFilterContext::new(&index, &by_id, index.estimate_cardinality(&by_id));
    assert!(ctx3.fallback);
}

#[test]
fn drop_index_round_trip() {
    let make_points = || -> Vec<Payload> {
        (0..20)
            .map(|i| {
                payload(vec![
                    ("age", vec![Value::Number(i)]),
                    ("color", vec![Value::Keyword(if i % 2 == 0 { "red" } else { "blue" }.to_string())]),
                ])
            })
            .collect()
    };
    let mut index = open_fresh(make_points());
    index.set_indexed(&"age".to_string(), PayloadSchemaType::Integer).unwrap();
    index.set_indexed(&"color".to_string(), PayloadSchemaType::Keyword).unwrap();
    index.drop_index(&"age".to_string()).unwrap();
    assert!(index.store.get_artifact(&"age".to_string()).is_none());
    assert!(index.store.get_artifact(&"color".to_string()).is_some());

    let reopened = StructPayloadIndex::open(storage(make_points()), index.store).unwrap();
    let fields = reopened.indexed_fields();
    assert_eq!(fields.len(), 1);
    assert_eq!(fields[0].key, "color".to_string());
    assert_eq!(fields[0].schema, PayloadSchemaType::Keyword);
    let f = must(match_kw("color", "red"));
    assert_eq!(reopened.query_points(&f).len(), 10);
}
