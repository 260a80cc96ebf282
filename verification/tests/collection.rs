use mauve::backend::Backend;
use mauve::collection::Collection;
use mauve::errors::{CollectionError, MauveError};
use mauve::indexer::IndexerSignal;
use mauve::labels::Label;
use mauve::meta::Metadata;
use mauve::objects::{ObjectRef, ObjectRefs};
use mauve::tree::{has_prefix, key_order, KeyOrder, Tree};

#[test]
fn tree_keeps_keys_in_ascending_order() {
    let mut t = Tree::new();
    assert_eq!(t.insert(b"b".to_vec(), b"2".to_vec()), None);
    assert_eq!(t.insert(b"a".to_vec(), b"1".to_vec()), None);
    assert_eq!(t.insert(b"ab".to_vec(), b"3".to_vec()), None);
    assert_eq!(t.insert(b"".to_vec(), b"0".to_vec()), None);
    assert_eq!(t.len(), 4);
    let keys: Vec<Vec<u8>> = (0..t.len()).map(|i| t.entry(i).0).collect();
    assert_eq!(keys, vec![b"".to_vec(), b"a".to_vec(), b"ab".to_vec(), b"b".to_vec()]);
}

#[test]
fn tree_insert_get_remove() {
    let mut t = Tree::new();
    assert_eq!(t.get(b"k"), None);
    assert!(!t.contains_key(b"k"));
    assert_eq!(t.insert(b"k".to_vec(), b"v".to_vec()), None);
    assert_eq!(t.get(b"k"), Some(b"v".to_vec()));
    assert_eq!(t.insert(b"k".to_vec(), b"w".to_vec()), Some(b"v".to_vec()));
    assert_eq!(t.get(b"k"), Some(b"w".to_vec()));
    assert_eq!(t.len(), 1);
    assert_eq!(t.remove(b"x"), None);
    assert_eq!(t.remove(b"k"), Some(b"w".to_vec()));
    assert_eq!(t.len(), 0);
    assert!(!t.contains_key(b"k"));
}

#[test]
fn tree_scan_prefix() {
    let mut t = Tree::new();
    for k in ["car", "cat", "dog", "c", "b", "cb"] {
        t.insert(k.as_bytes().to_vec(), vec![1]);
    }
    let hits: Vec<Vec<u8>> = t.scan_prefix(b"ca").into_iter().map(|e| e.0).collect();
    assert_eq!(hits, vec![b"car".to_vec(), b"cat".to_vec()]);
    assert_eq!(t.scan_prefix(b"").len(), 6);
    assert_eq!(t.scan_prefix(b"z").len(), 0);
    let copy = t.clone();
    assert_eq!(copy.len(), 6);
    assert_eq!(copy.get(b"dog"), Some(vec![1]));
}

#[test]
fn key_order_is_bytewise() {
    assert_eq!(key_order(b"a", b"b"), KeyOrder::Before);
    assert_eq!(key_order(b"a", b"ab"), KeyOrder::Before);
    assert_eq!(key_order(b"b", b"ab"), KeyOrder::After);
    assert_eq!(key_order(b"ab", b"ab"), KeyOrder::Same);
    assert_eq!(key_order(b"", b""), KeyOrder::Same);
    assert_eq!(key_order(&[0xff], &[0x00, 0x01]), KeyOrder::After);
    assert!(has_prefix(b"cat", b"ca"));
    assert!(has_prefix(b"cat", b""));
    assert!(!has_prefix(b"c", b"ca"));
    assert!(!has_prefix(b"cot", b"ca"));
}

#[test]
fn collection_object_life() {
    let mut c = Collection::new("Animals");
    assert_eq!(c.head_object("cat").unwrap(), false);
    let made = c.put_object("Cat", b"meow".to_vec(), false).unwrap();
    assert_eq!(made, ObjectRef::new("animals", "cat"));
    assert_eq!(c.head_object("Cat").unwrap(), true);
    assert_eq!(c.head_object("cat").unwrap(), false);
    assert_eq!(c.get_object("Cat").unwrap(), b"meow".to_vec());
    assert!(matches!(
        c.put_object("Cat", b"purr".to_vec(), false),
        Err(MauveError::CollectionError(CollectionError::PutObjectExistsNoReplace))
    ));
    assert_eq!(c.get_object("Cat").unwrap(), b"meow".to_vec());
    c.put_object("Cat", b"purr".to_vec(), true).unwrap();
    assert_eq!(c.get_object("Cat").unwrap(), b"purr".to_vec());
    assert_eq!(c.delete_object("Cat").unwrap(), Some(b"purr".to_vec()));
    assert_eq!(c.head_object("Cat").unwrap(), false);
    assert_eq!(c.delete_object("Cat").unwrap(), None);
    assert!(matches!(
        c.get_object("Cat"),
        Err(MauveError::CollectionError(CollectionError::ObjectNotFound))
    ));
}

#[test]
fn collection_put_does_not_touch_metadata() {
    let mut c = Collection::new("animals");
    c.put_object("cat", b"meow".to_vec(), false).unwrap();
    assert!(matches!(
        c.get_object_metadata("cat"),
        Err(MauveError::CollectionError(CollectionError::ObjectNotFound))
    ));
    let m = Metadata::new("text/plain", "", "", 4, vec![Label::new("species", "cat")], "");
    assert_eq!(c.put_object_metadata("cat", m).unwrap(), "cat");
    c.put_object("cat", b"purr".to_vec(), true).unwrap();
    let got = c.get_object_metadata("cat").unwrap();
    assert_eq!(got.content_type(), "text/plain");
    assert_eq!(got.labels(), &vec![Label::new("species", "cat")]);
    let gone = c.delete_metadata("cat").unwrap().unwrap();
    assert_eq!(gone.size(), 4);
    assert!(c.delete_metadata("cat").unwrap().is_none());
    assert_eq!(c.get_object("cat").unwrap(), b"purr".to_vec());
}

#[test]
fn collection_metadata_that_cannot_be_read() {
    let mut c = Collection::new("animals");
    c.meta.insert(b"cat".to_vec(), vec![1, 2, 3]);
    assert!(matches!(c.get_object_metadata("cat"), Err(MauveError::CborError(_))));
    assert!(matches!(c.delete_metadata("cat"), Err(MauveError::CborError(_))));
    assert!(!c.meta.contains_key(b"cat"));
}

#[test]
fn collection_lists_by_prefix_in_key_order() {
    let mut c = Collection::new("animals");
    for name in ["dog", "cat", "cow", "crab", "ant"] {
        c.put_object(name, vec![], false).unwrap();
    }
    c.data.insert(vec![b'c', 0xff, 0xfe], vec![]);
    assert_eq!(c.list_objects("c").unwrap(), vec!["cat", "cow", "crab"]);
    assert_eq!(c.list_objects("").unwrap(), vec!["ant", "cat", "cow", "crab", "dog"]);
    assert!(c.list_objects("x").unwrap().is_empty());
    assert_eq!(c.list_objects("cat").unwrap(), vec!["cat"]);
}

#[test]
fn collection_typed_objects() {
    let mut c = Collection::new("postings");
    let refs = ObjectRefs::new(vec![ObjectRef::new("a", "b")]);
    c.put_object_t("p", &refs, false).unwrap();
    let got: ObjectRefs = c.get_object_t("p").unwrap();
    assert_eq!(got.0, refs.0);
    assert!(c.put_object_t("p", &refs, false).is_err());
    c.put_object("raw", vec![9, 9], false).unwrap();
    assert!(matches!(c.get_object_t::<ObjectRefs>("raw"), Err(MauveError::CborError(_))));
    assert!(matches!(
        c.get_object_t::<ObjectRefs>("none"),
        Err(MauveError::CollectionError(CollectionError::ObjectNotFound))
    ));
    let gone: Option<ObjectRefs> = c.delete_object_t("p").unwrap();
    assert_eq!(gone.unwrap().len(), 1);
    assert!(c.delete_object_t::<ObjectRefs>("p").unwrap().is_none());
    assert!(c.delete_object_t::<Metadata>("raw").is_err());
    assert_eq!(c.head_object("raw").unwrap(), false);
}

#[test]
fn collection_lists_labels_of_the_forward_index() {
    let mut c = Collection::new("animals");
    assert!(c.list_labels().unwrap().is_empty());
    c.index_fwd.insert(b"species=cat".to_vec(), vec![]);
    c.index_fwd.insert(b"sound=meow".to_vec(), vec![]);
    assert_eq!(
        c.list_labels().unwrap(),
        vec![Label::new("sound", "meow"), Label::new("species", "cat")]
    );
    c.index_fwd.insert(b"zzz".to_vec(), vec![]);
    match c.list_labels() {
        Err(MauveError::InvalidLabel(t)) => assert_eq!(t, "zzz"),
        other => panic!("unexpected {:?}", other),
    }
    c.index_fwd.insert(vec![0xff], vec![]);
    assert!(matches!(c.list_labels(), Err(MauveError::InvalidLabel(_))));
    c.index_fwd.remove(b"zzz");
    assert!(matches!(c.list_labels(), Err(MauveError::Utf8Error(_))));
}

#[test]
fn collection_tree_names() {
    let c = Collection::new("animals");
    assert_eq!(c.data_tree_name(), "mauve_data::animals");
    assert_eq!(c.meta_tree_name(), "mauve_meta::animals");
    assert_eq!(c.fwd_tree_name(), "mauve_fwd::animals");
    assert_eq!(c.rev_tree_name(), "mauve_rev::animals");
    assert_eq!(Collection::named_by("mauve_meta::animals"), Some("animals".to_string()));
    assert_eq!(Collection::named_by("mauve_meta::"), Some("".to_string()));
    assert_eq!(Collection::named_by("mauve_data::animals"), None);
    assert_eq!(Collection::named_by("__sled__default"), None);
}

#[test]
fn backend_makes_collections_on_first_use() {
    let mut b = Backend::open(vec![]);
    assert!(b.list_collections().unwrap().is_empty());
    assert!(b.collection("animals").is_none());
    b.get_collection("animals").unwrap().put_object("cat", b"meow".to_vec(), false).unwrap();
    assert_eq!(b.list_collections().unwrap(), vec!["animals"]);
    assert_eq!(b.get_collection("animals").unwrap().get_object("cat").unwrap(), b"meow".to_vec());
    assert_eq!(b.len(), 1);
    let signals = b.take_signals();
    assert_eq!(signals.len(), 2);
    assert!(matches!(&signals[0], IndexerSignal::Watch(n) if n == "animals"));
    assert!(b.take_signals().is_empty());
    assert_eq!(
        b.tree_names(),
        vec!["mauve_data::animals", "mauve_meta::animals", "mauve_fwd::animals", "mauve_rev::animals"]
    );
}

#[test]
fn backend_delete_collection_is_isolated() {
    let mut b = Backend::open(vec![]);
    b.get_collection("animals").unwrap().put_object("cat", b"meow".to_vec(), false).unwrap();
    b.get_collection("plants").unwrap().put_object("oak", b"leaf".to_vec(), false).unwrap();
    b.take_signals();
    assert_eq!(b.delete_collection("animals").unwrap(), "animals");
    assert_eq!(b.list_collections().unwrap(), vec!["plants"]);
    assert!(b.collection("animals").is_none());
    assert!(b.tree_names().iter().all(|n| !n.ends_with("::animals")));
    assert_eq!(b.collection("plants").unwrap().get_object("oak").unwrap(), b"leaf".to_vec());
    let signals = b.take_signals();
    assert_eq!(signals.len(), 1);
    assert!(matches!(&signals[0], IndexerSignal::Unwatch(n) if n == "animals"));
    b.delete_collection("nothing").unwrap();
    assert_eq!(b.list_collections().unwrap(), vec!["plants"]);
    assert_eq!(b.get_collection("animals").unwrap().head_object("cat").unwrap(), false);
}

#[test]
fn backend_signal_failure_when_the_indexer_is_gone() {
    let mut b = Backend::open(vec![Collection::new("animals")]);
    b.close();
    assert!(matches!(b.get_collection("animals"), Err(MauveError::SignalError(_))));
    assert!(matches!(b.get_collection("plants"), Err(MauveError::SignalError(_))));
    assert_eq!(b.list_collections().unwrap(), vec!["animals", "plants"]);
    assert!(matches!(b.delete_collection("animals"), Err(MauveError::SignalError(_))));
    assert_eq!(b.len(), 2);
    assert!(matches!(b.send_signal(IndexerSignal::Shutdown), Err(MauveError::SignalError(_))));
    assert!(b.take_signals().is_empty());
}

#[test]
fn backend_open_keeps_the_collections_given() {
    let mut c = Collection::new("animals");
    c.put_object("cat", b"meow".to_vec(), false).unwrap();
    let b = Backend::open(vec![c, Collection::new("plants")]);
    assert_eq!(b.list_collections().unwrap(), vec!["animals", "plants"]);
    assert_eq!(b.collection("animals").unwrap().get_object("cat").unwrap(), b"meow".to_vec());
}

#[test]
fn tree_from_entries_takes_the_last_of_equal_keys() {
    let t = Tree::from_entries(vec![
        (b"b".to_vec(), b"1".to_vec()),
        (b"a".to_vec(), b"2".to_vec()),
        (b"b".to_vec(), b"3".to_vec()),
    ]);
    assert_eq!(t.len(), 2);
    assert_eq!(t.entry(0), (b"a".to_vec(), b"2".to_vec()));
    assert_eq!(t.get(b"b"), Some(b"3".to_vec()));
    assert_eq!(Tree::from_entries(vec![]).len(), 0);
}
