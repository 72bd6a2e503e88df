use docstore::mapper::{from_document, to_document, FieldDesc, TypeTag};
use docstore::pipeline::{aggregate, Accumulator, Database, Expr, SortKey, Stage};
use docstore::store::{Collection, Error};
use docstore::value::{Document, Value};

fn doc(pairs: Vec<(&str, Value)>) -> Document {
    let mut d = Document::new();
    for (k, v) in pairs {
        d.set(k, v);
    }
    d
}

fn s(text: &str) -> Value {
    Value::Str(text.to_string())
}

fn i32v(n: i32) -> Value {
    Value::Int32(n)
}

fn get_i64(d: &Document, key: &str) -> i64 {
    match d.get(key) {
        Some(Value::Int64(n)) => *n,
        other => panic!("expected Int64 under {}, got {:?}", key, other.is_some()),
    }
}

fn get_i32(d: &Document, key: &str) -> i32 {
    match d.get(key) {
        Some(Value::Int32(n)) => *n,
        other => panic!("expected Int32 under {}, got {:?}", key, other.is_some()),
    }
}

#[test]
fn insert_then_find_one_by_id() {
    let mut movies = Collection::new();
    let d = doc(vec![("title", s("Parasite")), ("year", i32v(2020))]);
    let id = movies.insert(d).unwrap();
    assert!(matches!(id, Value::ObjectId(_)));
    if let Value::ObjectId(bytes) = &id {
        assert_eq!(bytes.len(), 12);
    }
    let filter = doc(vec![("_id", id.deep_copy())]);
    let found = movies.find_one(&filter).unwrap().expect("inserted document not found");
    assert!(found.get("_id").unwrap().val_eq(&id));
    assert!(found.get("title").unwrap().val_eq(&s("Parasite")));
    assert_eq!(get_i32(&found, "year"), 2020);
}

#[test]
fn insert_duplicate_key_is_refused() {
    let mut c = Collection::new();
    let d1 = doc(vec![("_id", i32v(7)), ("title", s("A"))]);
    let d2 = doc(vec![("_id", i32v(7)), ("title", s("B"))]);
    assert!(c.insert(d1).is_ok());
    let e = c.insert(d2).unwrap_err();
    assert!(matches!(e, Error::DuplicateKey));
    assert_eq!(c.len(), 1);
}

#[test]
fn generated_ids_are_object_ids() {
    let mut c = Collection::new();
    let id1 = c.insert(doc(vec![("n", i32v(1))])).unwrap();
    let id2 = c.insert(doc(vec![("n", i32v(2))])).unwrap();
    assert!(matches!(id1, Value::ObjectId(_)));
    assert!(matches!(id2, Value::ObjectId(_)));
    assert_eq!(c.len(), 2);
}

#[test]
fn update_one_sets_fields_and_is_idempotent() {
    let mut c = Collection::new();
    let id = c.insert(doc(vec![("title", s("Parasite")), ("year", i32v(2020))])).unwrap();
    let filter = doc(vec![("_id", id.deep_copy())]);
    let update = doc(vec![("$set", Value::Doc(doc(vec![("year", i32v(2019))])))]);

    let r1 = c.update_one(&filter, &update).unwrap();
    assert!(r1.matched);
    assert!(r1.modified);

    let after_first = c.find_one(&filter).unwrap().unwrap();
    assert_eq!(get_i32(&after_first, "year"), 2019);

    let r2 = c.update_one(&filter, &update).unwrap();
    assert!(r2.matched);
    assert!(!r2.modified);

    let after_second = c.find_one(&filter).unwrap().unwrap();
    assert!(after_first.doc_eq(&after_second));
}

#[test]
fn update_one_without_match_reports_nothing() {
    let mut c = Collection::new();
    c.insert(doc(vec![("title", s("A"))])).unwrap();
    let filter = doc(vec![("title", s("missing"))]);
    let update = doc(vec![("$set", Value::Doc(doc(vec![("x", i32v(1))])))]);
    let r = c.update_one(&filter, &update).unwrap();
    assert!(!r.matched);
    assert!(!r.modified);
}

#[test]
fn update_rejects_malformed_operator_document() {
    let mut c = Collection::new();
    c.insert(doc(vec![("title", s("A"))])).unwrap();
    let filter = doc(vec![("title", s("A"))]);
    let update = doc(vec![("year", i32v(3))]); // no $set
    let e = c.update_one(&filter, &update).unwrap_err();
    assert!(matches!(e, Error::InvalidPipeline));
    let update2 = doc(vec![("$set", Value::Doc(doc(vec![("_id", i32v(3))])))]);
    let e2 = c.update_one(&filter, &update2).unwrap_err();
    assert!(matches!(e2, Error::InvalidPipeline));
}

#[test]
fn delete_one_and_delete_many_count() {
    let mut c = Collection::new();
    c.insert(doc(vec![("title", s("Parasite")), ("n", i32v(1))])).unwrap();
    c.insert(doc(vec![("title", s("Parasite")), ("n", i32v(2))])).unwrap();
    c.insert(doc(vec![("title", s("Other")), ("n", i32v(3))])).unwrap();
    let filter = doc(vec![("title", s("Parasite"))]);
    assert_eq!(c.delete_one(&filter).unwrap(), 1);
    assert_eq!(c.len(), 2);
    let first = c.find(&filter).unwrap();
    assert_eq!(first.len(), 1);
    assert_eq!(get_i32(&first[0], "n"), 2);
    assert_eq!(c.delete_many(&filter).unwrap(), 1);
    assert_eq!(c.len(), 1);
    assert_eq!(c.delete_many(&filter).unwrap(), 0);
}

#[test]
fn unknown_filter_operator_is_refused() {
    let c = {
        let mut c = Collection::new();
        c.insert(doc(vec![("year", i32v(1990))])).unwrap();
        c
    };
    let filter = doc(vec![("year", Value::Doc(doc(vec![("$regex", s("x"))])))]);
    let e = c.find(&filter).unwrap_err();
    assert!(matches!(e, Error::InvalidPipeline));
}

#[test]
fn gt_and_type_operators() {
    let mut c = Collection::new();
    c.insert(doc(vec![("year", i32v(1990)), ("n", i32v(1))])).unwrap();
    c.insert(doc(vec![("year", i32v(2005)), ("n", i32v(2))])).unwrap();
    c.insert(doc(vec![("year", s("1998e")), ("n", i32v(3))])).unwrap();

    let gt = doc(vec![("year", Value::Doc(doc(vec![("$gt", i32v(1995))])))]);
    let found = c.find(&gt).unwrap();
    assert_eq!(found.len(), 1);
    assert_eq!(get_i32(&found[0], "n"), 2);

    let numeric = doc(vec![("year", Value::Doc(doc(vec![("$type", s("number"))])))]);
    let nums = c.find(&numeric).unwrap();
    assert_eq!(nums.len(), 2);
    assert_eq!(get_i32(&nums[0], "n"), 1);
    assert_eq!(get_i32(&nums[1], "n"), 2);

    // a missing field matches neither equality nor comparison
    let missing = doc(vec![("absent", Value::Doc(doc(vec![("$gt", i32v(0))])))]);
    assert_eq!(c.find(&missing).unwrap().len(), 0);
}

#[test]
fn match_then_sort_ascending() {
    // the star-is-born shape: two same-titled movies sorted by year
    let mut movies = Collection::new();
    movies.insert(doc(vec![("title", s("A")), ("year", i32v(2020))])).unwrap();
    movies.insert(doc(vec![("title", s("A")), ("year", i32v(1954))])).unwrap();
    movies.insert(doc(vec![("title", s("B")), ("year", i32v(1999))])).unwrap();

    let stages = vec![
        Stage::Match(doc(vec![("title", s("A"))])),
        Stage::Sort(vec![SortKey { field: "year".to_string(), dir: 1 }]),
    ];
    let db = Database::new();
    let out = aggregate(&movies, &stages, &db).unwrap();
    assert_eq!(out.len(), 2);
    assert_eq!(get_i32(&out[0], "year"), 1954);
    assert_eq!(get_i32(&out[1], "year"), 2020);
}

#[test]
fn sort_descending_with_limit_one() {
    let mut movies = Collection::new();
    movies.insert(doc(vec![("title", s("A")), ("year", i32v(1954))])).unwrap();
    movies.insert(doc(vec![("title", s("A")), ("year", i32v(2018))])).unwrap();
    movies.insert(doc(vec![("title", s("A")), ("year", i32v(1976))])).unwrap();
    let stages = vec![
        Stage::Match(doc(vec![("title", s("A"))])),
        Stage::Sort(vec![SortKey { field: "year".to_string(), dir: -1 }]),
        Stage::Limit(1),
    ];
    let db = Database::new();
    let out = aggregate(&movies, &stages, &db).unwrap();
    assert_eq!(out.len(), 1);
    assert_eq!(get_i32(&out[0], "year"), 2018);
}

#[test]
fn limit_zero_or_negative_keeps_nothing() {
    let mut c = Collection::new();
    c.insert(doc(vec![("n", i32v(1))])).unwrap();
    let db = Database::new();
    assert_eq!(aggregate(&c, &vec![Stage::Limit(0)], &db).unwrap().len(), 0);
    assert_eq!(aggregate(&c, &vec![Stage::Limit(-3)], &db).unwrap().len(), 0);
    assert_eq!(aggregate(&c, &vec![Stage::Limit(5)], &db).unwrap().len(), 1);
}

#[test]
fn sort_with_duplicate_keys_is_stable() {
    let mut c = Collection::new();
    c.insert(doc(vec![("year", i32v(1990)), ("n", i32v(1))])).unwrap();
    c.insert(doc(vec![("year", i32v(1954)), ("n", i32v(2))])).unwrap();
    c.insert(doc(vec![("year", i32v(1990)), ("n", i32v(3))])).unwrap();
    c.insert(doc(vec![("year", i32v(1990)), ("n", i32v(4))])).unwrap();
    let stages = vec![Stage::Sort(vec![SortKey { field: "year".to_string(), dir: 1 }])];
    let db = Database::new();
    let out = aggregate(&c, &stages, &db).unwrap();
    let ns: Vec<i32> = out.iter().map(|d| get_i32(d, "n")).collect();
    assert_eq!(ns, vec![2, 1, 3, 4]);
}

#[test]
fn lookup_attaches_exactly_the_matching_comments() {
    let mut db = Database::new();
    let ci = db.get_or_create("comments");
    let mut comments = Collection::new();
    comments
        .insert(doc(vec![("movie_id", i32v(1)), ("text", s("great"))]))
        .unwrap();
    comments
        .insert(doc(vec![("movie_id", i32v(1)), ("text", s("fine"))]))
        .unwrap();
    comments
        .insert(doc(vec![("movie_id", i32v(2)), ("text", s("bad"))]))
        .unwrap();
    db.put_coll(ci, comments);

    let mut movies = Collection::new();
    movies.insert(doc(vec![("_id", i32v(1)), ("title", s("A"))])).unwrap();
    movies.insert(doc(vec![("_id", i32v(3)), ("title", s("C"))])).unwrap();

    let stages = vec![Stage::Lookup {
        from: "comments".to_string(),
        local_field: "_id".to_string(),
        foreign_field: "movie_id".to_string(),
        as_field: "related_comments".to_string(),
    }];
    let out = aggregate(&movies, &stages, &db).unwrap();
    assert_eq!(out.len(), 2);
    match out[0].get("related_comments") {
        Some(Value::Array(arr)) => {
            assert_eq!(arr.len(), 2);
            match (&arr[0], &arr[1]) {
                (Value::Doc(a), Value::Doc(b)) => {
                    assert!(a.get("text").unwrap().val_eq(&s("great")));
                    assert!(b.get("text").unwrap().val_eq(&s("fine")));
                }
                _ => panic!("expected documents in the attached array"),
            }
        }
        _ => panic!("expected an attached array"),
    }
    // the unmatched movie gets an empty array, not omission
    match out[1].get("related_comments") {
        Some(Value::Array(arr)) => assert_eq!(arr.len(), 0),
        _ => panic!("expected an empty attached array"),
    }
}

#[test]
fn lookup_unknown_collection_is_a_reference_error() {
    let mut movies = Collection::new();
    movies.insert(doc(vec![("_id", i32v(1))])).unwrap();
    let db = Database::new();
    let stages = vec![Stage::Lookup {
        from: "comments".to_string(),
        local_field: "_id".to_string(),
        foreign_field: "movie_id".to_string(),
        as_field: "x".to_string(),
    }];
    let e = aggregate(&movies, &stages, &db).unwrap_err();
    assert!(matches!(e, Error::ReferenceError(_)));
}

#[test]
fn add_fields_size_and_gt_filter() {
    let mut movies = Collection::new();
    movies
        .insert(doc(vec![(
            "cast",
            Value::Array(vec![s("x"), s("y"), s("z")]),
        )]))
        .unwrap();
    movies.insert(doc(vec![("cast", Value::Array(vec![s("x")]))])).unwrap();
    let stages = vec![
        Stage::AddFields(vec![("cast_count".to_string(), Expr::SizeOf("cast".to_string()))]),
        Stage::Match(doc(vec![(
            "cast_count",
            Value::Doc(doc(vec![("$gt", i32v(2))])),
        )])),
    ];
    let db = Database::new();
    let out = aggregate(&movies, &stages, &db).unwrap();
    assert_eq!(out.len(), 1);
    assert_eq!(get_i64(&out[0], "cast_count"), 3);
}

#[test]
fn group_by_year_counts_and_pushes() {
    // three documents with years 1990, 1990, 1991
    let mut movies = Collection::new();
    movies.insert(doc(vec![("year", i32v(1990)), ("title", s("a"))])).unwrap();
    movies.insert(doc(vec![("year", i32v(1990)), ("title", s("b"))])).unwrap();
    movies.insert(doc(vec![("year", i32v(1991)), ("title", s("c"))])).unwrap();
    let stages = vec![Stage::Group {
        by_field: "year".to_string(),
        accums: vec![
            Accumulator::CountAll("movie_count".to_string()),
            Accumulator::PushField("movie_titles".to_string(), "title".to_string()),
        ],
    }];
    let db = Database::new();
    let out = aggregate(&movies, &stages, &db).unwrap();
    assert_eq!(out.len(), 2);
    // first-seen order: 1990 then 1991
    assert_eq!(get_i32(&out[0], "_id"), 1990);
    assert_eq!(get_i64(&out[0], "movie_count"), 2);
    assert_eq!(get_i32(&out[1], "_id"), 1991);
    assert_eq!(get_i64(&out[1], "movie_count"), 1);
    match out[0].get("movie_titles") {
        Some(Value::Array(arr)) => {
            assert_eq!(arr.len(), 2);
            assert!(arr[0].val_eq(&s("a")));
            assert!(arr[1].val_eq(&s("b")));
        }
        _ => panic!("expected pushed titles"),
    }
}

#[test]
fn group_then_sort_by_key() {
    let mut movies = Collection::new();
    for y in [1991, 1990, 1991, 1989] {
        movies.insert(doc(vec![("year", i32v(y))])).unwrap();
    }
    let stages = vec![
        Stage::Match(doc(vec![("year", Value::Doc(doc(vec![("$type", s("number"))])))])),
        Stage::Group {
            by_field: "year".to_string(),
            accums: vec![Accumulator::CountAll("movie_count".to_string())],
        },
        Stage::Sort(vec![SortKey { field: "_id".to_string(), dir: 1 }]),
    ];
    let db = Database::new();
    let out = aggregate(&movies, &stages, &db).unwrap();
    let years: Vec<i32> = out.iter().map(|d| get_i32(d, "_id")).collect();
    assert_eq!(years, vec![1989, 1990, 1991]);
}

fn movie_schema() -> Vec<FieldDesc> {
    vec![
        FieldDesc {
            key: "title".to_string(),
            alias: None,
            required: true,
            default: None,
            omit_if_absent: false,
            expected: TypeTag::Str,
        },
        FieldDesc {
            key: "year".to_string(),
            alias: None,
            required: true,
            default: None,
            omit_if_absent: false,
            expected: TypeTag::Int32,
        },
        FieldDesc {
            key: "released".to_string(),
            alias: None,
            required: false,
            default: None,
            omit_if_absent: true,
            expected: TypeTag::DateTime,
        },
    ]
}

#[test]
fn typed_round_trip_preserves_the_record() {
    let schema = movie_schema();
    let rec = vec![
        Some(s("Captain Marvel")),
        Some(i32v(2019)),
        Some(Value::DateTime(1552003200000)),
    ];
    let d = to_document(&rec, &schema);
    let back = from_document(&d, &schema).unwrap();
    assert_eq!(back.len(), 3);
    for (orig, round) in rec.iter().zip(back.iter()) {
        match (orig, round) {
            (Some(a), Some(b)) => assert!(a.val_eq(b)),
            (None, None) => {}
            _ => panic!("round trip changed presence"),
        }
    }
}

#[test]
fn typed_mapping_missing_field_fails() {
    let schema = movie_schema();
    let d = doc(vec![("title", s("X"))]);
    let e = from_document(&d, &schema).unwrap_err();
    match e {
        Error::MissingField(k) => assert_eq!(k, "year"),
        other => panic!("expected MissingField, got {:?}", matches!(other, Error::DuplicateKey)),
    }
}

#[test]
fn typed_mapping_type_mismatch_fails() {
    let schema = movie_schema();
    let d = doc(vec![("title", s("X")), ("year", s("not a year"))]);
    let e = from_document(&d, &schema).unwrap_err();
    match e {
        Error::TypeMismatch(k, expected, actual) => {
            assert_eq!(k, "year");
            assert_eq!(expected, TypeTag::Int32);
            assert_eq!(actual, TypeTag::Str);
        }
        _ => panic!("expected TypeMismatch"),
    }
}

#[test]
fn typed_mapping_alias_and_default() {
    let schema = vec![
        FieldDesc {
            key: "comments".to_string(),
            alias: Some("related_comments".to_string()),
            required: false,
            default: Some(Value::Array(vec![])),
            omit_if_absent: true,
            expected: TypeTag::Array,
        },
    ];
    // read through the alias when the primary key is absent
    let d = doc(vec![("related_comments", Value::Array(vec![s("hi")]))]);
    let r = from_document(&d, &schema).unwrap();
    match &r[0] {
        Some(Value::Array(arr)) => assert_eq!(arr.len(), 1),
        _ => panic!("expected the aliased array"),
    }
    // fall back to the declared default when both keys are absent
    let r2 = from_document(&Document::new(), &schema).unwrap();
    match &r2[0] {
        Some(Value::Array(arr)) => assert_eq!(arr.len(), 0),
        _ => panic!("expected the default"),
    }
}

#[test]
fn omitted_key_is_skipped_in_serialization() {
    let schema = movie_schema();
    let rec = vec![Some(s("T")), Some(i32v(2000)), None];
    let d = to_document(&rec, &schema);
    assert!(d.get("title").is_some());
    assert!(d.get("year").is_some());
    assert!(d.get("released").is_none());
}

#[test]
fn document_set_replaces_in_place_and_appends() {
    let mut d = doc(vec![("a", i32v(1)), ("b", i32v(2))]);
    d.set("a", i32v(10));
    assert_eq!(get_i32(&d, "a"), 10);
    assert_eq!(get_i32(&d, "b"), 2);
    d.set("c", i32v(3));
    assert_eq!(get_i32(&d, "c"), 3);
    assert!(d.keys_all_unique());
}

#[test]
fn database_creates_on_first_reference() {
    let mut db = Database::new();
    let i = db.get_or_create("movies");
    let j = db.get_or_create("movies");
    assert_eq!(i, j);
    let k = db.get_or_create("comments");
    assert_ne!(i, k);
    assert_eq!(db.coll(i).len(), 0);
}

#[test]
fn find_returns_independent_copies() {
    let mut c = Collection::new();
    c.insert(doc(vec![("title", s("A")), ("n", i32v(1))])).unwrap();
    let filter = doc(vec![("title", s("A"))]);
    let mut got = c.find(&filter).unwrap();
    got[0].set("n", i32v(99));
    let again = c.find(&filter).unwrap();
    assert_eq!(get_i32(&again[0], "n"), 1);
}

#[test]
fn path_lookup_walks_nested_documents() {
    let inner = doc(vec![("city", s("Seoul")), ("zip", i32v(100))]);
    let outer = doc(vec![("name", s("Kim")), ("address", Value::Doc(inner))]);
    let path = vec!["address".to_string(), "city".to_string()];
    let got = outer.get_path(&path).expect("nested field");
    assert!(got.val_eq(&s("Seoul")));
    let missing = vec!["address".to_string(), "street".to_string()];
    assert!(outer.get_path(&missing).is_none());
    let through_scalar = vec!["name".to_string(), "x".to_string()];
    assert!(outer.get_path(&through_scalar).is_none());
    assert!(outer.get_path(&vec![]).is_none());
}

#[test]
fn filter_key_with_dots_addresses_nested_fields() {
    let mut c = Collection::new();
    let addr1 = doc(vec![("city", s("Seoul")), ("zip", i32v(100))]);
    c.insert(doc(vec![("name", s("Kim")), ("address", Value::Doc(addr1))])).unwrap();
    let addr2 = doc(vec![("city", s("Busan")), ("zip", i32v(200))]);
    c.insert(doc(vec![("name", s("Lee")), ("address", Value::Doc(addr2))])).unwrap();

    let by_city = doc(vec![("address.city", s("Seoul"))]);
    let found = c.find(&by_city).unwrap();
    assert_eq!(found.len(), 1);
    assert!(found[0].get("name").unwrap().val_eq(&s("Kim")));

    let by_zip = doc(vec![("address.zip", Value::Doc(doc(vec![("$gt", i32v(150))])))]);
    let found = c.find(&by_zip).unwrap();
    assert_eq!(found.len(), 1);
    assert!(found[0].get("name").unwrap().val_eq(&s("Lee")));

    // a path through a scalar or to a missing leaf matches nothing
    let through_scalar = doc(vec![("name.x", s("y"))]);
    assert_eq!(c.find(&through_scalar).unwrap().len(), 0);
    let missing_leaf = doc(vec![("address.street", s("z"))]);
    assert_eq!(c.find(&missing_leaf).unwrap().len(), 0);
}
