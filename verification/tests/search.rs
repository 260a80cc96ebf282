use mauve::backend::Backend;
use mauve::cluster::{Request, Response};
use mauve::config::{MauveConfig, SledConfig, SledMode};
use mauve::errors::{CollectionError, MauveError};
use mauve::indexer::{CollectionIndexer, Event};
use mauve::labels::Label;
use mauve::meta::Metadata;
use mauve::objects::ObjectRef;
use mauve::query::request::{QueryError, QueryField, QueryKind, QueryOp, QueryRequest, QueryRun};
use mauve::search::{FoundObject, SearchError, SearchLabel, SearchRequest, SearchResponse};
use mauve::status::{BackendState, TreeReading, TreeState};

fn store(b: &mut Backend, collection: &str, name: &str, body: &[u8], labels: &str) {
    let meta = mauve::api::objects::metadata_from_headers("", "", "", Some(body.len() as u64), labels, "");
    let c = b.get_collection(collection).unwrap();
    c.put_object(name, body.to_vec(), true).unwrap();
    c.put_object_metadata(name, meta).unwrap();
    CollectionIndexer::new(collection)
        .process_event(c, Event::Insert { key: name.as_bytes().to_vec() })
        .unwrap();
}

fn animals() -> Backend {
    let mut b = Backend::open(vec![]);
    store(&mut b, "animals", "cat", b"meow", "species=cat,sound=meow");
    store(&mut b, "animals", "dog", b"woof", "species=dog");
    b
}

fn names(response: &SearchResponse) -> Vec<String> {
    let mut found: Vec<String> =
        response.result.as_ref().unwrap().iter().map(|f| f.object.to_string()).collect();
    found.sort();
    found
}

#[test]
fn store_create_and_read() {
    let b = animals();
    let c = b.collection("animals").unwrap();
    assert_eq!(c.get_object("cat").unwrap(), b"meow".to_vec());
    let meta = c.get_object_metadata("cat").unwrap();
    let mut labels: Vec<String> = meta.label_str().split(',').map(|s| s.to_string()).collect();
    labels.sort();
    assert_eq!(labels, vec!["sound=meow", "species=cat"]);
    assert_eq!(meta.size(), 4);
}

#[test]
fn store_create_conflict() {
    let mut b = animals();
    let r = b.get_collection("animals").unwrap().put_object("cat", b"meow".to_vec(), false);
    match r {
        Err(e) => {
            assert!(matches!(
                e,
                MauveError::CollectionError(CollectionError::PutObjectExistsNoReplace)
            ));
            assert_eq!(e.status(), 409);
        }
        Ok(_) => panic!("the second create was accepted"),
    }
}

#[test]
fn store_list() {
    let b = animals();
    assert_eq!(b.collection("animals").unwrap().list_objects("c").unwrap(), vec!["cat"]);
}

#[test]
fn store_search_include() {
    let b = animals();
    let mut req = SearchRequest::new("animals");
    req.include_label(Label::new("species", "cat"));
    let response = b.perform_search(req).unwrap();
    assert_eq!(names(&response), vec!["animals/cat"]);
    let found = &response.result.as_ref().unwrap()[0];
    assert_eq!(found.object, ObjectRef::new("animals", "cat"));
    assert_eq!(found.meta.size(), 4);
    assert_eq!(response.req.collection, "animals");
}

#[test]
fn store_search_include_and_exclude() {
    let b = animals();
    let mut req = SearchRequest::new("animals");
    req.include_label(Label::new("species", "cat"));
    req.exclude(Label::new("sound", "meow"));
    assert!(names(&b.perform_search(req).unwrap()).is_empty());

    let mut req = SearchRequest::new("animals");
    req.includes(vec![Label::new("species", "cat"), Label::new("species", "dog")]);
    req.excludes(vec![Label::new("species", "dog")]);
    assert_eq!(names(&b.perform_search(req).unwrap()), vec!["animals/cat"]);

    let mut req = SearchRequest::new("animals");
    req.exclude(Label::new("species", "dog"));
    req.include_label(Label::new("species", "dog"));
    req.include_label(Label::new("species", "cat"));
    assert_eq!(names(&b.perform_search(req).unwrap()), vec!["animals/cat"]);
}

#[test]
fn store_delete() {
    let mut b = animals();
    b.delete_collection("animals").unwrap();
    assert!(!b.list_collections().unwrap().contains(&"animals".to_string()));
}

#[test]
fn search_unions_what_is_included() {
    let b = animals();
    let mut req = SearchRequest::new("animals");
    req.includes(vec![
        Label::new("species", "cat"),
        Label::new("species", "dog"),
        Label::new("sound", "meow"),
        Label::new("species", "bird"),
    ]);
    assert_eq!(names(&b.perform_search(req).unwrap()), vec!["animals/cat", "animals/dog"]);
}

#[test]
fn search_without_terms_finds_nothing() {
    let b = animals();
    let response = b.perform_search(SearchRequest::new("animals")).unwrap();
    assert!(response.result.unwrap().is_empty());
}

#[test]
fn search_in_a_missing_collection_fails() {
    let b = animals();
    let r = b.perform_search(SearchRequest::new("plants"));
    assert!(matches!(r, Err(MauveError::CollectionError(CollectionError::ObjectNotFound))));
    assert_eq!(b.list_collections().unwrap(), vec!["animals"]);
}

#[test]
fn search_fails_when_metadata_of_a_hit_is_missing() {
    let mut b = animals();
    b.get_collection("animals").unwrap().delete_metadata("cat").unwrap();
    let mut req = SearchRequest::new("animals");
    req.include_label(Label::new("species", "cat"));
    assert!(matches!(
        b.perform_search(req),
        Err(MauveError::CollectionError(CollectionError::ObjectNotFound))
    ));
    let mut req = SearchRequest::new("animals");
    req.include_label(Label::new("species", "dog"));
    assert_eq!(names(&b.perform_search(req).unwrap()), vec!["animals/dog"]);
}

#[test]
fn search_passes_over_postings_that_cannot_be_read() {
    let mut b = animals();
    b.get_collection("animals").unwrap().index_fwd.insert(b"species=cat".to_vec(), vec![1, 2]);
    let mut req = SearchRequest::new("animals");
    req.includes(vec![Label::new("species", "cat"), Label::new("species", "dog")]);
    assert_eq!(names(&b.perform_search(req).unwrap()), vec!["animals/dog"]);
}

#[test]
fn search_label_counts_the_posting() {
    let b = animals();
    let c = b.collection("animals").unwrap();
    let (includes, excludes) = c.gather(&vec![
        SearchLabel::Include(Label::new("species", "cat")),
        SearchLabel::Include(Label::new("sound", "meow")),
        SearchLabel::Exclude(Label::new("species", "dog")),
    ]);
    assert_eq!(includes.len(), 1);
    assert_eq!(excludes.len(), 1);
    let mut target = includes;
    assert_eq!(c.search_label(Label::new("species", "dog"), &mut target).unwrap(), 1);
    assert_eq!(c.search_label(Label::new("species", "bird"), &mut target).unwrap(), 0);
    assert_eq!(target.len(), 2);
    assert!(target.contains(&("animals".to_string(), "dog".to_string())));
    let found = c.answer(&target, &excludes).unwrap();
    assert_eq!(found.len(), 1);
    assert_eq!(found[0].object, ObjectRef::new("animals", "cat"));
}

#[test]
fn search_response_and_deadline() {
    let mut response = SearchResponse::new(SearchRequest::new("animals"));
    assert_eq!(response.result.as_ref().err(), Some(&SearchError::NotYetExecuted));
    response.set_err(SearchError::Timeout);
    assert_eq!(response.result.as_ref().err(), Some(&SearchError::Timeout));
    let found = FoundObject::new(ObjectRef::new("animals", "cat"), Metadata::default());
    response.set_ok(vec![found]);
    assert_eq!(response.result.as_ref().unwrap().len(), 1);
    let config = MauveConfig::default();
    let kept = response.within(60, config.query_timeout_secs);
    assert!(kept.result.is_ok());
    let late = kept.within(61, config.query_timeout_secs);
    assert_eq!(late.result.err(), Some(SearchError::Timeout));
    assert_eq!(late.req.collection, "animals");
    assert!(config.timed_out(61));
    assert!(!config.timed_out(60));
}

#[test]
fn config_defaults() {
    let m = MauveConfig::default();
    assert_eq!(m.object_max_size_mb, 30);
    assert_eq!(m.query_concurrency, 16);
    assert_eq!(m.query_timeout_secs, 60);
    assert_eq!(m.object_max_size_bytes(), Some(31_457_280));
    assert!(m.accepts_object(31_457_280));
    assert!(!m.accepts_object(31_457_281));
    let huge = MauveConfig { object_max_size_mb: u64::MAX, ..m };
    assert_eq!(huge.object_max_size_bytes(), None);
    assert!(huge.accepts_object(u64::MAX));
    let s = SledConfig::default();
    assert_eq!(s.cache_capacity, 1_073_741_824);
    assert_eq!(s.flush_every_ms, Some(500));
    assert_eq!(s.path, "data/");
    assert_eq!(s.mode, "HighThroughput");
    assert!(!s.use_compression);
    assert_eq!(s.compression_factor, 5);
    assert_eq!(s.idgen_persist_interval, 1_000_000);
    assert_eq!(s.mode_kind(), SledMode::HighThroughput);
    assert!(s.compression_in_range());
    let mut low = s.clone();
    low.mode = "LowSpace".to_string();
    low.compression_factor = 23;
    assert_eq!(low.mode_kind(), SledMode::LowSpace);
    assert!(!low.compression_in_range());
    low.mode = "lowspace".to_string();
    low.compression_factor = 0;
    assert_eq!(low.mode_kind(), SledMode::HighThroughput);
    assert!(!low.compression_in_range());
}

#[test]
fn query_fields() {
    let f = QueryField::include_field("animals", "species", "cat");
    assert_eq!(f.op(), QueryOp::Include);
    assert_eq!(f.collection(), "animals");
    assert_eq!(f.name(), &Some("species".to_string()));
    assert_eq!(f.value(), &Some("cat".to_string()));
    assert_eq!(f.kind(), Ok(QueryKind::Lookup));
    let f = QueryField::exclude("animals", "species", "");
    assert_eq!(f.op(), QueryOp::Exclude);
    assert_eq!(f.value(), &None);
    assert_eq!(f.kind(), Ok(QueryKind::Prefix));
    assert_eq!(QueryField::include_field("a", "", "cat").kind(), Ok(QueryKind::Suffix));
    assert_eq!(QueryField::exclude("a", "", "").kind(), Err(QueryError::Derp));
    let f = QueryField::new(QueryOp::Include, "a".to_string(), None, Some("".to_string()));
    assert_eq!(f.kind(), Ok(QueryKind::Suffix));
    assert_eq!(f.clone().value(), &Some("".to_string()));
}

#[test]
fn query_request_and_deadline() {
    let mut q = QueryRequest::new_with_timeout(5);
    q.append_field(QueryField::include_field("a", "k", "v"));
    q.append_field(QueryField::exclude("a", "k", "w"));
    assert_eq!(q.fields.len(), 2);
    assert_eq!(q.run(Ok(7), 5), Ok(7));
    assert_eq!(q.run(Ok(7), 6), Err(QueryError::Timeout(5)));
    assert_eq!(q.run::<u8>(Err(QueryError::Derp), 0), Err(QueryError::Derp));
    assert_eq!(QueryRequest::new(&MauveConfig::default()).timeout_secs, 60);
}

#[test]
fn query_run_bounds_what_runs_at_a_time() {
    let mut q = QueryRequest::new_with_timeout(5);
    for v in ["a", "b", "c", "d", "e"] {
        q.append_field(QueryField::include_field("c", "k", v));
    }
    let mut run = q.plan(2);
    assert_eq!(run.launch(), Some(0));
    assert_eq!(run.launch(), Some(1));
    assert_eq!(run.launch(), None);
    assert_eq!(run.running(), 2);
    assert!(run.complete());
    assert_eq!(run.launch(), Some(2));
    assert!(run.complete());
    assert!(run.complete());
    assert!(!run.complete());
    assert_eq!(run.launch(), Some(3));
    assert_eq!(run.launch(), Some(4));
    assert_eq!(run.launch(), None);
    assert!(!run.drained());
    assert!(run.complete());
    assert!(run.complete());
    assert!(run.drained());
    let mut none = QueryRun::start(3, 0);
    assert_eq!(none.launch(), None);
    assert!(!none.drained());
    assert!(QueryRun::start(0, 4).drained());
}

#[test]
fn status_records() {
    let t = TreeState::from_raw(7, b"mauve_data::animals".to_vec(), 3).unwrap();
    assert_eq!(t.checksum, 7);
    assert_eq!(t.name, "mauve_data::animals");
    assert_eq!(t.len, 3);
    assert!(matches!(TreeState::from_raw(7, vec![0xff], 3), Err(MauveError::Utf8Error(_))));
    let readings = vec![
        TreeReading { checksum: 1, name: b"a".to_vec(), len: 1 },
        TreeReading { checksum: 2, name: b"b".to_vec(), len: 2 },
    ];
    let s = BackendState::from_raw(b"db".to_vec(), 9, 4096, true, readings).unwrap();
    assert_eq!(s.name, "db");
    assert_eq!(s.checksum, 9);
    assert_eq!(s.size, 4096);
    assert!(s.recovered);
    assert_eq!(s.trees.len(), 2);
    assert_eq!(s.trees[1].name, "b");
    assert_eq!(s.trees[1].len, 2);
    let bad = vec![TreeReading { checksum: 1, name: vec![0xc0], len: 1 }];
    assert!(matches!(
        BackendState::from_raw(b"db".to_vec(), 9, 0, false, bad),
        Err(MauveError::Utf8Error(_))
    ));
    assert!(matches!(
        BackendState::from_raw(vec![0x80], 9, 0, false, vec![]),
        Err(MauveError::Utf8Error(_))
    ));
}

#[test]
fn status_keeps_the_lower_32_bits_of_a_count() {
    let n = 0x1_0000_0005u64 as usize;
    let t = TreeState::from_raw(0, vec![], n).unwrap();
    assert_eq!(t.len, (n as u64 % 0x1_0000_0000) as u32);
}

#[test]
fn error_status_and_message() {
    let cases: Vec<(MauveError, u16, &str)> = vec![
        (MauveError::ConfigError("x".into()), 500, "Config error x"),
        (MauveError::RocketError("x".into()), 500, "Rocket exploded x"),
        (MauveError::Utf8Error("x".into()), 500, "Utf8 encoding error: x"),
        (MauveError::SledError("x".into()), 500, "Sled error x"),
        (MauveError::SledTxError("x".into()), 500, "Sled tx error x"),
        (MauveError::IoError("x".into()), 500, "IO error x"),
        (MauveError::SignalError("x".into()), 500, "Signaling error x"),
        (MauveError::InvalidLabel("x".into()), 500, "Invalid label string x"),
        (
            MauveError::CollectionError(CollectionError::ObjectNotFound),
            404,
            "Object not found",
        ),
        (
            MauveError::CollectionError(CollectionError::PutObjectExistsNoReplace),
            409,
            "Object exists with ident, replace=false",
        ),
        (MauveError::BincodeError("x".into()), 500, "bincode failed x"),
        (MauveError::CborError("x".into()), 500, "cbor serde x"),
        (MauveError::Timeout(60), 500, "Query timed out"),
        (MauveError::Oops("x".into()), 418, "Oopsie x"),
    ];
    for (e, status, message) in cases {
        assert_eq!(e.status(), status);
        assert_eq!(e.message(), message);
        assert_eq!(e.clone().message(), message);
    }
}

#[test]
fn replicated_changes_are_applied() {
    let mut b = Backend::open(vec![]);
    let r = b
        .apply(Request::PutObject {
            collection: "animals".to_string(),
            name: "cat".to_string(),
            object: b"meow".to_vec(),
        })
        .unwrap();
    assert!(matches!(r, Response::PutObject { path } if path == "animals/cat"));
    b.apply(Request::PutObject {
        collection: "animals".to_string(),
        name: "cat".to_string(),
        object: b"purr".to_vec(),
    })
    .unwrap();
    assert_eq!(b.collection("animals").unwrap().get_object("cat").unwrap(), b"purr".to_vec());
    let r = b
        .apply(Request::DeleteObject { collection: "animals".to_string(), name: "cat".to_string() })
        .unwrap();
    assert!(matches!(r, Response::DeleteObject { path } if path == "animals/cat"));
    assert_eq!(b.collection("animals").unwrap().head_object("cat").unwrap(), false);
    let r = b.apply(Request::DeleteCollection { name: "animals".to_string() }).unwrap();
    assert!(matches!(r, Response::DeleteCollection { path } if path == "animals"));
    assert!(b.list_collections().unwrap().is_empty());
    b.close();
    assert!(matches!(
        b.apply(Request::DeleteCollection { name: "animals".to_string() }),
        Err(MauveError::SignalError(_))
    ));
}
