use mauve::collection::Collection;
use mauve::errors::MauveError;
use mauve::indexer::{
    CollectionIndexer, Event, Indexer, IndexerAction, IndexerSignal, WorkerInput,
};
use mauve::labels::Label;
use mauve::meta::Metadata;
use mauve::objects::{decode_posting, encode_posting, ObjectRef};
use mauve::tree::Tree;

fn watch(name: &str) -> IndexerSignal {
    IndexerSignal::Watch(name.to_string())
}

fn cat_meta() -> Metadata {
    Metadata::new(
        "",
        "",
        "",
        4,
        vec![Label::new("species", "cat"), Label::new("sound", "meow")],
        "",
    )
}

fn posting(index: &Tree, key: &str) -> Option<Vec<ObjectRef>> {
    index.get(key.as_bytes()).map(|b| decode_posting(&b).unwrap())
}

#[test]
fn supervisor_starts_one_worker_per_collection() {
    let mut s = Indexer::with_collections(vec!["animals".to_string(), "plants".to_string()]);
    assert_eq!(s.workers(), 2);
    assert!(s.is_watching(&"animals".to_string()));
    assert!(s.is_watching(&"plants".to_string()));
    assert!(!s.is_watching(&"stones".to_string()));
    let mut names = s.watched();
    names.sort();
    assert_eq!(names, vec!["animals", "plants"]);
    match s.handle(watch("stones")) {
        IndexerAction::Spawn { collection, worker } => {
            assert_eq!(collection, "stones");
            assert_eq!(worker, 2);
        }
        other => panic!("unexpected {:?}", other),
    }
    assert_eq!(s.workers(), 3);
}

#[test]
fn supervisor_filters_repeated_watch() {
    let mut s = Indexer::with_collections(vec![]);
    assert!(matches!(s.handle(watch("animals")), IndexerAction::Spawn { worker: 0, .. }));
    assert!(matches!(s.handle(watch("animals")), IndexerAction::Nothing));
    assert_eq!(s.workers(), 1);
}

#[test]
fn supervisor_forwards_unwatch_to_the_worker() {
    let mut s = Indexer::with_collections(vec!["animals".to_string(), "plants".to_string()]);
    match s.handle(IndexerSignal::Unwatch("plants".to_string())) {
        IndexerAction::Forward { worker, signal } => {
            assert_eq!(worker, 1);
            assert!(matches!(signal, IndexerSignal::Unwatch(n) if n == "plants"));
        }
        other => panic!("unexpected {:?}", other),
    }
    assert!(matches!(
        s.handle(IndexerSignal::Unwatch("stones".to_string())),
        IndexerAction::Nothing
    ));
    assert!(s.is_watching(&"plants".to_string()));
}

#[test]
fn supervisor_rebuild_does_nothing_and_shutdown_stops_all() {
    let mut s = Indexer::with_collections(vec!["animals".to_string()]);
    assert!(matches!(
        s.handle(IndexerSignal::Rebuild("animals".to_string())),
        IndexerAction::Nothing
    ));
    s.handle(watch("plants"));
    assert!(matches!(s.handle(IndexerSignal::Shutdown), IndexerAction::Stop { workers: 2 }));
}

#[test]
fn upsert_makes_and_extends_postings() {
    let mut index = Tree::new();
    let cat = ObjectRef::new("animals", "cat");
    let dog = ObjectRef::new("animals", "dog");
    CollectionIndexer::upsert(&mut index, "kind=pet".to_string(), cat.clone()).unwrap();
    assert_eq!(posting(&index, "kind=pet"), Some(vec![cat.clone()]));
    CollectionIndexer::upsert(&mut index, "kind=pet".to_string(), dog.clone()).unwrap();
    assert_eq!(posting(&index, "kind=pet"), Some(vec![cat.clone(), dog.clone()]));
    CollectionIndexer::upsert(&mut index, "kind=pet".to_string(), cat.clone()).unwrap();
    assert_eq!(posting(&index, "kind=pet"), Some(vec![cat.clone(), dog, cat]));
}

#[test]
fn upsert_leaves_an_unreadable_posting() {
    let mut index = Tree::new();
    index.insert(b"k=v".to_vec(), vec![7]);
    let r = CollectionIndexer::upsert(&mut index, "k=v".to_string(), ObjectRef::new("a", "b"));
    assert!(matches!(r, Err(MauveError::SledTxError(_))));
    assert_eq!(index.get(b"k=v"), Some(vec![7]));
    let r = CollectionIndexer::downsert(&mut index, "k=v".to_string(), ObjectRef::new("a", "b"));
    assert!(matches!(r, Err(MauveError::SledTxError(_))));
    assert_eq!(index.get(b"k=v"), Some(vec![7]));
}

#[test]
fn downsert_removes_the_object_and_empty_postings() {
    let mut index = Tree::new();
    let cat = ObjectRef::new("animals", "cat");
    let dog = ObjectRef::new("animals", "dog");
    CollectionIndexer::downsert(&mut index, "kind=pet".to_string(), cat.clone()).unwrap();
    assert_eq!(index.len(), 0);
    index.insert(b"kind=pet".to_vec(), encode_posting(&vec![cat.clone(), dog.clone(), cat.clone()]));
    CollectionIndexer::downsert(&mut index, "kind=pet".to_string(), cat.clone()).unwrap();
    assert_eq!(posting(&index, "kind=pet"), Some(vec![dog.clone()]));
    CollectionIndexer::downsert(&mut index, "kind=pet".to_string(), cat.clone()).unwrap();
    assert!(!index.contains_key(b"kind=pet"));
    index.insert(b"kind=pet".to_vec(), encode_posting(&vec![cat.clone(), dog.clone()]));
    CollectionIndexer::downsert(&mut index, "kind=pet".to_string(), dog).unwrap();
    assert_eq!(posting(&index, "kind=pet"), Some(vec![cat]));
}

#[test]
fn worker_indexes_an_inserted_object() {
    let mut c = Collection::new("Animals");
    c.put_object("cat", b"meow".to_vec(), false).unwrap();
    c.put_object_metadata("cat", cat_meta()).unwrap();
    let w = CollectionIndexer::new("Animals");
    w.process_event(&mut c, Event::Insert { key: b"cat".to_vec() }).unwrap();
    let cat = ObjectRef::new("animals", "cat");
    assert_eq!(posting(&c.index_fwd, "species=cat"), Some(vec![cat.clone()]));
    assert_eq!(posting(&c.index_fwd, "sound=meow"), Some(vec![cat.clone()]));
    assert_eq!(posting(&c.index_rev, "cat=species"), Some(vec![cat.clone()]));
    assert_eq!(posting(&c.index_rev, "meow=sound"), Some(vec![cat]));
    assert_eq!(c.index_fwd.len(), 2);
    assert_eq!(c.index_rev.len(), 2);
    assert!(c.meta.contains_key(b"cat"));
    let mut labels = c.list_labels().unwrap();
    labels.sort();
    assert_eq!(labels, vec![Label::new("sound", "meow"), Label::new("species", "cat")]);
}

#[test]
fn worker_skips_an_object_without_metadata() {
    let mut c = Collection::new("animals");
    c.put_object("cat", b"meow".to_vec(), false).unwrap();
    let w = CollectionIndexer::new("animals");
    w.process_event(&mut c, Event::Insert { key: b"cat".to_vec() }).unwrap();
    w.process_event(&mut c, Event::Remove { key: b"cat".to_vec() }).unwrap();
    assert_eq!(c.index_fwd.len(), 0);
    assert_eq!(c.index_rev.len(), 0);
}

#[test]
fn worker_unindexes_a_removed_object() {
    let mut c = Collection::new("animals");
    let w = CollectionIndexer::new("animals");
    for name in ["cat", "tiger"] {
        c.put_object(name, vec![], false).unwrap();
        c.put_object_metadata(
            name,
            Metadata::new("", "", "", 0, vec![Label::new("family", "felidae")], ""),
        )
        .unwrap();
        w.process_event(&mut c, Event::Insert { key: name.as_bytes().to_vec() }).unwrap();
    }
    assert_eq!(posting(&c.index_fwd, "family=felidae").unwrap().len(), 2);
    c.delete_object("cat").unwrap();
    w.process_event(&mut c, Event::Remove { key: b"cat".to_vec() }).unwrap();
    assert_eq!(
        posting(&c.index_fwd, "family=felidae"),
        Some(vec![ObjectRef::new("animals", "tiger")])
    );
    assert_eq!(
        posting(&c.index_rev, "felidae=family"),
        Some(vec![ObjectRef::new("animals", "tiger")])
    );
    assert!(!c.meta.contains_key(b"cat"));
    c.delete_object("tiger").unwrap();
    w.process_event(&mut c, Event::Remove { key: b"tiger".to_vec() }).unwrap();
    assert_eq!(c.index_fwd.len(), 0);
    assert_eq!(c.index_rev.len(), 0);
}

#[test]
fn worker_reports_keys_and_metadata_that_cannot_be_read() {
    let mut c = Collection::new("animals");
    let w = CollectionIndexer::new("animals");
    assert!(matches!(
        w.process_event(&mut c, Event::Insert { key: vec![0xff] }),
        Err(MauveError::Utf8Error(_))
    ));
    c.meta.insert(b"cat".to_vec(), vec![1]);
    assert!(matches!(
        w.process_event(&mut c, Event::Insert { key: b"cat".to_vec() }),
        Err(MauveError::CborError(_))
    ));
    assert!(c.meta.contains_key(b"cat"));
    assert!(matches!(
        w.process_event(&mut c, Event::Remove { key: b"cat".to_vec() }),
        Err(MauveError::CborError(_))
    ));
    assert!(!c.meta.contains_key(b"cat"));
    c.put_object_metadata("dog", cat_meta()).unwrap();
    c.index_fwd.insert(b"sound=meow".to_vec(), vec![9]);
    assert!(matches!(
        w.process_event(&mut c, Event::Insert { key: b"dog".to_vec() }),
        Err(MauveError::SledTxError(_))
    ));
    assert!(c.index_fwd.contains_key(b"species=cat"));
    assert!(c.index_rev.contains_key(b"cat=species"));
    assert!(!c.index_rev.contains_key(b"meow=sound"));
}

#[test]
fn worker_loop_goes_on_until_told_to_stop() {
    let mut c = Collection::new("animals");
    c.put_object_metadata("cat", cat_meta()).unwrap();
    let w = CollectionIndexer::new("animals");
    assert!(w.run(&mut c, WorkerInput::Change(Event::Insert { key: b"cat".to_vec() })));
    assert_eq!(c.index_fwd.len(), 2);
    assert!(w.run(&mut c, WorkerInput::Change(Event::Insert { key: vec![0xff] })));
    assert!(w.run(&mut c, WorkerInput::Control(IndexerSignal::Rebuild("animals".to_string()))));
    assert!(w.run(&mut c, WorkerInput::Control(IndexerSignal::Watch("animals".to_string()))));
    assert!(!w.run(&mut c, WorkerInput::Control(IndexerSignal::Unwatch("animals".to_string()))));
    assert!(!w.run(&mut c, WorkerInput::Control(IndexerSignal::Shutdown)));
    assert!(!w.run(&mut c, WorkerInput::Closed));
    assert_eq!(c.index_fwd.len(), 2);
}

#[test]
fn supervisor_takes_a_queue_up_to_the_first_shutdown() {
    let mut s = Indexer::with_collections(vec!["animals".to_string()]);
    let actions = s.run(vec![
        watch("plants"),
        watch("animals"),
        IndexerSignal::Unwatch("animals".to_string()),
        IndexerSignal::Shutdown,
        watch("stones"),
    ]);
    assert_eq!(actions.len(), 4);
    assert!(matches!(&actions[0], IndexerAction::Spawn { worker: 1, collection } if collection == "plants"));
    assert!(matches!(&actions[1], IndexerAction::Nothing));
    assert!(matches!(&actions[2], IndexerAction::Forward { worker: 0, .. }));
    assert!(matches!(&actions[3], IndexerAction::Stop { workers: 2 }));
    assert!(!s.is_watching(&"stones".to_string()));
    assert!(s.run(vec![]).is_empty());
}

#[test]
fn supervisor_initialize_with_a_repeated_name() {
    let s = Indexer::with_collections(vec!["a".to_string(), "a".to_string(), "b".to_string()]);
    assert_eq!(s.workers(), 2);
    assert_eq!(s.watched().len(), 2);
}

#[test]
fn supervisor_watches_the_collections_of_a_store() {
    let backend = mauve::backend::Backend::open(vec![
        Collection::new("animals"),
        Collection::new("plants"),
    ]);
    let mut s = Indexer::initialize(&backend).unwrap();
    assert_eq!(s.workers(), 2);
    assert!(matches!(
        s.handle(IndexerSignal::Unwatch("plants".to_string())),
        IndexerAction::Forward { worker: 1, .. }
    ));
}
