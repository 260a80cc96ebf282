//! Describing an object: its metadata, as an answer and as headers.

use vstd::prelude::*;
use vstd::string::*;
use vstd::utf8::*;
use crate::collection::Collection;
use crate::errors::{CollectionError, MauveError};
use crate::meta::{distinct, listed_labels, read_metadata, Metadata, MetadataView};

verus! {

/// The description of an object.
#[derive(Debug)]
pub struct DescribeResponse {
    /// The collection of the object.
    pub collection: String,
    /// The name of the object.
    pub name: String,
    /// The metadata of the object.
    pub meta: Metadata,
}

/// A header: its name and its value.
pub struct HeaderView {
    pub name: Seq<char>,
    pub value: Seq<char>,
}

/// The headers that echo metadata, in this order.
pub open spec fn echo_headers(m: MetadataView) -> Seq<HeaderView> {
    seq![
        HeaderView { name: "x-mauve-content-type"@, value: m.content_type },
        HeaderView { name: "x-mauve-content-encoding"@, value: m.content_encoding },
        HeaderView { name: "x-mauve-content-language"@, value: m.content_language },
        HeaderView { name: "x-mauve-labels"@, value: m.label_text() },
        HeaderView { name: "x-mauve-offsets-inclusive"@, value: m.offset_map },
    ]
}

/// The texts of some headers.
pub open spec fn header_views(hs: Seq<(String, String)>) -> Seq<HeaderView> {
    Seq::new(hs.len(), |i: int| HeaderView { name: hs[i].0@, value: hs[i].1@ })
}

/// The metadata that the headers of an upload carry: the three content
/// headers as they are, the declared length or 0, the labels that the label
/// header names, and the offsets as they are.
pub open spec fn from_headers(
    content_type: Seq<char>,
    content_encoding: Seq<char>,
    content_language: Seq<char>,
    content_length: Option<u64>,
    labels: Seq<char>,
    offsets: Seq<char>,
) -> MetadataView {
    MetadataView {
        content_type,
        content_encoding,
        content_language,
        size: match content_length {
            Some(n) => n,
            None => 0,
        },
        labels: distinct(listed_labels(labels)),
        offset_map: offsets,
    }
}

/// The metadata that the headers of an upload carry.
pub fn metadata_from_headers(
    content_type: &str,
    content_encoding: &str,
    content_language: &str,
    content_length: Option<u64>,
    labels: &str,
    offsets: &str,
) -> (r: Metadata)
    ensures
        r@ == from_headers(
            content_type@,
            content_encoding@,
            content_language@,
            content_length,
            labels@,
            offsets@,
        ),
{
    let size = match content_length {
        Some(n) => n,
        None => 0,
    };
    let found = Metadata::labels_from_header(labels);
    proof {
        crate::meta::lemma_distinct(listed_labels(labels@));
        crate::meta::lemma_distinct_of_distinct(distinct(listed_labels(labels@)));
    }
    Metadata::new(content_type, content_encoding, content_language, size, found, offsets)
}

impl DescribeResponse {
    /// The description of the object `name` of `collection`. Where no
    /// metadata is stored for it the error is `ObjectNotFound`; where what is
    /// stored cannot be read it is `CborError`.
    pub fn new(collection: &Collection, name: &str) -> (r: Result<Self, MauveError>)
        ensures
            match r {
                Ok(d) => {
                    &&& d.name@ == name@
                    &&& d.collection@ == collection.name@
                    &&& collection.meta@.contains_key(encode_utf8(name@))
                    &&& read_metadata(collection.meta@[encode_utf8(name@)]) == Some(d.meta@)
                },
                Err(MauveError::CollectionError(CollectionError::ObjectNotFound)) =>
                    !collection.meta@.contains_key(encode_utf8(name@)),
                Err(MauveError::CborError(_)) => collection.meta@.contains_key(encode_utf8(name@))
                    && read_metadata(collection.meta@[encode_utf8(name@)]) is None,
                Err(_) => false,
            },
    {
        match collection.get_object_metadata(name) {
            Ok(meta) => Ok(
                Self { name: name.to_owned(), collection: collection.name.clone(), meta },
            ),
            Err(e) => Err(e),
        }
    }

    /// The headers that echo the metadata of the object.
    pub fn headers(&self) -> (r: Vec<(String, String)>)
        ensures
            header_views(r@) == echo_headers(self.meta@),
    {
        let mut r: Vec<(String, String)> = Vec::new();
        r.push(("x-mauve-content-type".to_owned(), self.meta.content_type().clone()));
        r.push(("x-mauve-content-encoding".to_owned(), self.meta.content_encoding().clone()));
        r.push(("x-mauve-content-language".to_owned(), self.meta.content_language().clone()));
        r.push(("x-mauve-labels".to_owned(), self.meta.label_str()));
        r.push(("x-mauve-offsets-inclusive".to_owned(), self.meta.offset_map().clone()));
        proof {
            assert(header_views(r@) =~= echo_headers(self.meta@));
        }
        r
    }
}

} // verus!
