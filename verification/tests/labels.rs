use mauve::errors::MauveError;
use mauve::labels::Label;
use mauve::objects::ObjectRef;

#[test]
fn label_new_lowercases_both_fields() {
    let l = Label::new("Species", "CAT");
    assert_eq!(l.name, "species");
    assert_eq!(l.value, "cat");
}

#[test]
fn label_keys_and_text() {
    let l = Label::new("species", "cat");
    assert_eq!(l.to_fwd(), "species=cat");
    assert_eq!(l.to_rev(), "cat=species");
    assert_eq!(l.to_string(), "species=cat");
}

#[test]
fn label_parse_splits_at_first_separator() {
    let l = Label::from_str("a=b=c").unwrap();
    assert_eq!(l.name, "a");
    assert_eq!(l.value, "b=c");
}

#[test]
fn label_parse_without_separator_is_invalid() {
    match Label::from_str("nolabel") {
        Err(MauveError::InvalidLabel(t)) => assert_eq!(t, "nolabel"),
        other => panic!("unexpected {:?}", other),
    }
    assert!(matches!(Label::from_str(""), Err(MauveError::InvalidLabel(_))));
}

#[test]
fn label_round_trip() {
    let l = Label::new("Sound", "Meow");
    let back = Label::from_str(&l.to_string()).unwrap();
    assert_eq!(back, l);
}

#[test]
fn label_parse_lowercases() {
    let l = Label::from_str("Species=Cat").unwrap();
    assert_eq!(l, Label::new("species", "cat"));
}

#[test]
fn object_ref_is_case_insensitive_on_inputs() {
    let a = ObjectRef::new("Animals", "Cat");
    let b = ObjectRef::new("animals", "cat");
    assert_eq!(a, b);
    assert_eq!(a.collection, "animals");
    assert_eq!(a.name, "cat");
    assert!(a.same(&b));
    assert_eq!(a.to_string(), "animals/cat");
}

#[test]
fn object_ref_keeps_non_ascii_letters() {
    let a = ObjectRef::new("ÄB", "Çd");
    assert_eq!(a.collection, "Äb");
    assert_eq!(a.name, "Çd");
}

#[test]
fn object_refs_order_is_by_collection_then_name() {
    let a = ObjectRef::new("a", "z");
    let b = ObjectRef::new("b", "a");
    let c = ObjectRef::new("b", "b");
    assert!(a < b);
    assert!(b < c);
}

#[test]
fn label_with_separator_in_its_name_parses_to_another_label() {
    let l = Label::new("a=b", "c");
    assert_eq!(l.to_string(), "a=b=c");
    let back = Label::from_str(&l.to_string()).unwrap();
    assert_eq!(back, Label::new("a", "b=c"));
    assert_ne!(back, l);
}

#[test]
fn label_default_is_empty() {
    let l = Label::default();
    assert_eq!(l.name, "");
    assert_eq!(l.to_fwd(), "=");
    assert_eq!(Label::from_str("=").unwrap(), l);
}

#[test]
fn object_ref_precedes_agrees_with_the_order_of_the_pair() {
    let refs = vec![
        ObjectRef::new("", ""),
        ObjectRef::new("a", ""),
        ObjectRef::new("a", "b"),
        ObjectRef::new("a", "ba"),
        ObjectRef::new("ab", "a"),
        ObjectRef::new("b", "a"),
        ObjectRef::new("é", "a"),
    ];
    for x in refs.iter() {
        for y in refs.iter() {
            assert_eq!(x.precedes(y), x < y, "{:?} {:?}", x, y);
        }
    }
    assert_eq!(ObjectRef::default(), ObjectRef::new("", ""));
}
