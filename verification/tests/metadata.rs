use ciborium::value::{Integer, Value};
use mauve::api::objects::{metadata_from_headers, DescribeResponse};
use mauve::cbor::{read_head, read_text, write_head, write_text};
use mauve::collection::Collection;
use mauve::errors::MauveError;
use mauve::labels::Label;
use mauve::meta::{dedupe, Metadata, ObjectWithMetadata};
use mauve::objects::{decode_posting, encode_posting, ObjectRef, ObjectRefs, ToFromMauve};

fn sample() -> Metadata {
    Metadata::new(
        "text/plain",
        "gzip",
        "en",
        4,
        vec![Label::new("species", "cat"), Label::new("sound", "meow")],
        "0-3",
    )
}

fn text(s: &str) -> Value {
    Value::Text(s.to_string())
}

fn label_value(name: &str, value: &str) -> Value {
    Value::Map(vec![(text("name"), text(name)), (text("value"), text(value))])
}

fn sample_value() -> Value {
    Value::Map(vec![
        (text("content_type"), text("text/plain")),
        (text("content_encoding"), text("gzip")),
        (text("content_language"), text("en")),
        (text("size"), Value::Integer(Integer::from(4u64))),
        (
            text("labels"),
            Value::Array(vec![label_value("species", "cat"), label_value("sound", "meow")]),
        ),
        (text("offset_map"), text("0-3")),
    ])
}

#[test]
fn metadata_round_trip() {
    let m = sample();
    let bytes = m.to_object().unwrap();
    let back = Metadata::from_object(bytes).unwrap();
    assert_eq!(back.content_type(), "text/plain");
    assert_eq!(back.content_encoding(), "gzip");
    assert_eq!(back.content_language(), "en");
    assert_eq!(back.size(), 4);
    assert_eq!(back.offset_map(), "0-3");
    assert_eq!(back.labels(), m.labels());
    assert_eq!(back.labels().len(), 2);
}

#[test]
fn metadata_default_round_trip() {
    let m = Metadata::default();
    let back = Metadata::read(&m.write()).unwrap();
    assert_eq!(back.content_type(), "");
    assert_eq!(back.size(), 0);
    assert!(back.labels().is_empty());
    assert_eq!(back.label_str(), "");
}

#[test]
fn metadata_bytes_are_the_cbor_of_the_record() {
    let mut expected = Vec::new();
    ciborium::into_writer(&sample_value(), &mut expected).unwrap();
    assert_eq!(sample().write(), expected);
}

#[test]
fn metadata_bytes_are_read_by_a_cbor_reader() {
    let bytes = sample().write();
    let value: Value = ciborium::from_reader(&bytes[..]).unwrap();
    assert_eq!(value, sample_value());
}

#[test]
fn metadata_reads_what_a_cbor_writer_wrote() {
    let mut bytes = Vec::new();
    ciborium::into_writer(&sample_value(), &mut bytes).unwrap();
    let m = Metadata::read(&bytes).unwrap();
    assert_eq!(m.labels(), sample().labels());
    assert_eq!(m.size(), 4);
}

#[test]
fn metadata_with_large_size_and_long_text() {
    let long = "x".repeat(70_000);
    let m = Metadata::new(&long, "", "é", u64::MAX, vec![Label::new("k", "ü=v")], "");
    let bytes = m.write();
    let value: Value = ciborium::from_reader(&bytes[..]).unwrap();
    let mut again = Vec::new();
    ciborium::into_writer(&value, &mut again).unwrap();
    assert_eq!(bytes, again);
    let back = Metadata::read(&bytes).unwrap();
    assert_eq!(back.content_type(), &long);
    assert_eq!(back.content_language(), "é");
    assert_eq!(back.size(), u64::MAX);
    assert_eq!(back.labels()[0].value, "ü=v");
}

#[test]
fn metadata_rejects_what_is_not_metadata() {
    assert!(matches!(Metadata::from_object(vec![]), Err(MauveError::CborError(_))));
    assert!(matches!(Metadata::from_object(vec![0xa6]), Err(MauveError::CborError(_))));
    let mut bytes = sample().write();
    bytes.push(0);
    assert!(Metadata::read(&bytes).is_none());
    let mut cut = sample().write();
    cut.pop();
    assert!(Metadata::read(&cut).is_none());
}

#[test]
fn metadata_rejects_a_head_that_is_longer_than_needed() {
    // the text "en" with its length in two bytes instead of in the head
    let short = [0x62, b'e', b'n'];
    let long = [0x78, 0x02, b'e', b'n'];
    assert_eq!(read_text(&short, 0), Some(("en".to_string(), 3)));
    assert_eq!(read_text(&long, 0), None);
}

#[test]
fn metadata_labels_are_a_set() {
    let m = Metadata::new(
        "",
        "",
        "",
        0,
        vec![Label::new("a", "b"), Label::new("A", "B"), Label::new("c", "d"), Label::new("a", "b")],
        "",
    );
    assert_eq!(m.labels(), &vec![Label::new("a", "b"), Label::new("c", "d")]);
    let kept = dedupe(vec![Label::new("x", "y"), Label::new("x", "y")]);
    assert_eq!(kept, vec![Label::new("x", "y")]);
}

#[test]
fn metadata_read_collapses_repeated_labels() {
    let value = Value::Map(vec![
        (text("content_type"), text("")),
        (text("content_encoding"), text("")),
        (text("content_language"), text("")),
        (text("size"), Value::Integer(Integer::from(0u64))),
        (text("labels"), Value::Array(vec![label_value("a", "b"), label_value("a", "b")])),
        (text("offset_map"), text("")),
    ]);
    let mut bytes = Vec::new();
    ciborium::into_writer(&value, &mut bytes).unwrap();
    let m = Metadata::read(&bytes).unwrap();
    assert_eq!(m.labels().len(), 1);
}

#[test]
fn label_str_joins_with_commas() {
    assert_eq!(sample().label_str(), "species=cat,sound=meow");
    let one = Metadata::new("", "", "", 0, vec![Label::new("k", "v")], "");
    assert_eq!(one.label_str(), "k=v");
}

#[test]
fn labels_from_header_skips_empty_and_invalid_parts() {
    let labels = Metadata::labels_from_header("species=cat,,nolabel,sound=meow,");
    assert_eq!(labels, vec![Label::new("species", "cat"), Label::new("sound", "meow")]);
    assert!(Metadata::labels_from_header("").is_empty());
    assert!(Metadata::labels_from_header(",,,").is_empty());
    assert_eq!(Metadata::labels_from_header("A=B,a=b"), vec![Label::new("a", "b")]);
}

#[test]
fn metadata_from_headers_takes_the_declared_length_or_zero() {
    let m = metadata_from_headers("text/plain", "", "", Some(4), "species=cat,sound=meow", "");
    assert_eq!(m.size(), 4);
    assert_eq!(m.label_str(), "species=cat,sound=meow");
    let none = metadata_from_headers("", "", "", None, "", "");
    assert_eq!(none.size(), 0);
}

#[test]
fn heads_take_the_shortest_form() {
    let cases: Vec<(u64, Vec<u8>)> = vec![
        (0, vec![0x00]),
        (23, vec![0x17]),
        (24, vec![0x18, 24]),
        (255, vec![0x18, 0xff]),
        (256, vec![0x19, 0x01, 0x00]),
        (65535, vec![0x19, 0xff, 0xff]),
        (65536, vec![0x1a, 0x00, 0x01, 0x00, 0x00]),
        (0xffff_ffff, vec![0x1a, 0xff, 0xff, 0xff, 0xff]),
        (0x1_0000_0000, vec![0x1b, 0, 0, 0, 1, 0, 0, 0, 0]),
        (u64::MAX, vec![0x1b, 0xff, 0xff, 0xff, 0xff, 0xff, 0xff, 0xff, 0xff]),
    ];
    for (n, bytes) in cases {
        let mut out = Vec::new();
        write_head(&mut out, 0, n);
        assert_eq!(out, bytes);
        assert_eq!(read_head(&bytes, 0), Some((0, n, bytes.len())));
    }
    let mut out = Vec::new();
    write_head(&mut out, 5, 6);
    assert_eq!(out, vec![0xa6]);
    assert_eq!(read_head(&[0x18, 3], 0), None);
    assert_eq!(read_head(&[0x19, 0, 200], 0), None);
    assert_eq!(read_head(&[0x1c], 0), None);
    assert_eq!(read_head(&[], 0), None);
}

#[test]
fn text_is_written_with_its_byte_length() {
    let mut out = Vec::new();
    write_text(&mut out, "é");
    assert_eq!(out, vec![0x62, 0xc3, 0xa9]);
    assert_eq!(read_text(&[0x62, 0xc3, 0x28], 0), None);
}

#[test]
fn posting_round_trip() {
    let refs = vec![ObjectRef::new("animals", "cat"), ObjectRef::new("animals", "dog")];
    let bytes = encode_posting(&refs);
    assert_eq!(decode_posting(&bytes), Some(refs.clone()));
    let value: Value = ciborium::from_reader(&bytes[..]).unwrap();
    let expected = Value::Array(vec![
        Value::Map(vec![(text("collection"), text("animals")), (text("name"), text("cat"))]),
        Value::Map(vec![(text("collection"), text("animals")), (text("name"), text("dog"))]),
    ]);
    assert_eq!(value, expected);
    assert_eq!(decode_posting(&encode_posting(&vec![])), Some(vec![]));
    assert_eq!(decode_posting(&[0x80, 0x00]), None);
    assert_eq!(decode_posting(&[]), None);
}

#[test]
fn test_mauve_object() {
    for n in 0..10u64 {
        let labels: Vec<Label> =
            (0..n).map(|i| Label::new(&format!("k{i}"), &format!("v{}", i * 7919 % 13))).collect();
        let object = Metadata::new(
            &format!("type/{n}"),
            &"z".repeat((n * 37) as usize),
            "",
            n.wrapping_mul(0x9e37_79b9_7f4a_7c15),
            labels,
            &format!("{n}-{}", n * n),
        );
        let bytes = object.to_object().unwrap();
        let got = Metadata::from_object(bytes).unwrap();
        assert_eq!(object.write(), got.write());
        assert_eq!(object.labels(), got.labels());
        let refs = ObjectRefs::new(
            (0..n).map(|i| ObjectRef::new("c", &format!("o{i}"))).collect(),
        );
        let got = ObjectRefs::from_object(refs.to_object().unwrap()).unwrap();
        assert_eq!(refs.0, got.0);
        println!("test {n} is ok");
    }
}

#[test]
fn describe_response_echoes_metadata() {
    let mut c = Collection::new("animals");
    c.put_object("cat", b"meow".to_vec(), false).unwrap();
    c.put_object_metadata("cat", sample()).unwrap();
    let d = DescribeResponse::new(&c, "cat").unwrap();
    assert_eq!(d.collection, "animals");
    assert_eq!(d.name, "cat");
    let headers = d.headers();
    assert_eq!(
        headers,
        vec![
            ("x-mauve-content-type".to_string(), "text/plain".to_string()),
            ("x-mauve-content-encoding".to_string(), "gzip".to_string()),
            ("x-mauve-content-language".to_string(), "en".to_string()),
            ("x-mauve-labels".to_string(), "species=cat,sound=meow".to_string()),
            ("x-mauve-offsets-inclusive".to_string(), "0-3".to_string()),
        ]
    );
    assert!(matches!(
        DescribeResponse::new(&c, "dog"),
        Err(MauveError::CollectionError(mauve::errors::CollectionError::ObjectNotFound))
    ));
}

#[test]
fn object_with_metadata_holds_both() {
    let o = ObjectWithMetadata::new(b"meow".to_vec(), sample());
    assert_eq!(o.object(), &b"meow".to_vec());
    assert_eq!(o.meta().size(), 4);
}
