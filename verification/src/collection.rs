//! A collection: a named group of objects with their metadata and the two
//! label indexes, each in a key space of its own.

use vstd::prelude::*;
use vstd::string::*;
use vstd::utf8::*;
use crate::errors::{CollectionError, MauveError};
use crate::labels::{parse_label, Label, LabelView};
use crate::meta::{label_views, read_metadata, Metadata};
use crate::objects::{ObjectRef, ObjectRefView, ToFromMauve};
use crate::text::{from_utf8, starts_with, utf8_bytes};
use crate::tree::{ascending, assoc, bytes_lt, check_order, wire, Tree};

verus! {

/// The name of the key space that holds the objects of a collection.
pub open spec fn data_tree_name(collection: Seq<char>) -> Seq<char> {
    "mauve_data::"@ + collection
}

/// The name of the key space that holds the metadata of a collection.
pub open spec fn meta_tree_name(collection: Seq<char>) -> Seq<char> {
    "mauve_meta::"@ + collection
}

/// The name of the key space that holds the forward index of a collection.
pub open spec fn fwd_tree_name(collection: Seq<char>) -> Seq<char> {
    "mauve_fwd::"@ + collection
}

/// The name of the key space that holds the reverse index of a collection.
pub open spec fn rev_tree_name(collection: Seq<char>) -> Seq<char> {
    "mauve_rev::"@ + collection
}

/// The collection whose metadata is kept in the key space of that name, if
/// the name is that of such a key space.
pub open spec fn collection_of(tree_name: Seq<char>) -> Option<Seq<char>> {
    if starts_with(tree_name, "mauve_meta::"@) {
        Some(tree_name.subrange("mauve_meta::"@.len() as int, tree_name.len() as int))
    } else {
        None
    }
}

/// The four names of the key spaces of a collection: objects, metadata,
/// forward index, reverse index.
pub open spec fn tree_names(collection: Seq<char>) -> Seq<Seq<char>> {
    seq![
        data_tree_name(collection),
        meta_tree_name(collection),
        fwd_tree_name(collection),
        rev_tree_name(collection),
    ]
}

/// Of the four key spaces of a collection, that of the metadata names the
/// collection and the other three name none.
pub proof fn lemma_collection_of(collection: Seq<char>)
    ensures
        collection_of(meta_tree_name(collection)) == Some(collection),
        collection_of(data_tree_name(collection)) is None,
        collection_of(fwd_tree_name(collection)) is None,
        collection_of(rev_tree_name(collection)) is None,
{
    reveal_strlit("mauve_meta::");
    reveal_strlit("mauve_data::");
    reveal_strlit("mauve_fwd::");
    reveal_strlit("mauve_rev::");
    let meta = meta_tree_name(collection);
    assert(meta.subrange(0, 12) =~= "mauve_meta::"@);
    assert(meta.subrange(12, meta.len() as int) =~= collection);
    let data = data_tree_name(collection);
    if starts_with(data, "mauve_meta::"@) {
        assert(data.subrange(0, 12)[6] == data[6]);
        assert(data[6] == 'd');
    }
    let fwd = fwd_tree_name(collection);
    if starts_with(fwd, "mauve_meta::"@) {
        assert(fwd.subrange(0, 12)[6] == fwd[6]);
        assert(fwd[6] == 'f');
    }
    let rev = rev_tree_name(collection);
    if starts_with(rev, "mauve_meta::"@) {
        assert(rev.subrange(0, 12)[6] == rev[6]);
        assert(rev[6] == 'r');
    }
}

/// The key spaces of two collections with different names have different
/// names.
pub proof fn lemma_tree_names_apart(a: Seq<char>, b: Seq<char>)
    requires
        a != b,
    ensures
        forall|i: int, j: int|
            0 <= i < 4 && 0 <= j < 4 ==> #[trigger] tree_names(a)[i] != #[trigger] tree_names(b)[j],
{
    reveal_strlit("mauve_meta::");
    reveal_strlit("mauve_data::");
    reveal_strlit("mauve_fwd::");
    reveal_strlit("mauve_rev::");
    assert forall|i: int, j: int| 0 <= i < 4 && 0 <= j < 4 implies #[trigger] tree_names(a)[i]
        != #[trigger] tree_names(b)[j] by {
        let x = tree_names(a)[i];
        let y = tree_names(b)[j];
        if x == y {
            assert(x[6] == y[6]);
            assert(i == j);
            if i == 0 || i == 1 {
                assert(x.subrange(12, x.len() as int) =~= a);
                assert(y.subrange(12, y.len() as int) =~= b);
            } else {
                assert(x.subrange(11, x.len() as int) =~= a);
                assert(y.subrange(11, y.len() as int) =~= b);
            }
        }
    }
}

/// The texts that the keys of some entries encode, in the order of the
/// entries. Keys that are not UTF-8 are passed over.
pub open spec fn names(entries: Seq<(Seq<u8>, Seq<u8>)>) -> Seq<Seq<char>>
    decreases entries.len(),
{
    if entries.len() == 0 {
        Seq::empty()
    } else {
        let front = names(entries.drop_last());
        if valid_utf8(entries.last().0) {
            front.push(decode_utf8(entries.last().0))
        } else {
            front
        }
    }
}

/// The texts of some strings.
pub open spec fn listing(found: Seq<String>) -> Seq<Seq<char>> {
    Seq::new(found.len(), |i: int| found[i]@)
}

/// The entries whose key starts with `prefix`.
pub open spec fn with_prefix(entries: Seq<(Seq<u8>, Seq<u8>)>, prefix: Seq<u8>) -> Seq<
    (Seq<u8>, Seq<u8>),
> {
    entries.filter(|e: (Seq<u8>, Seq<u8>)| starts_with(e.0, prefix))
}

/// Whether an object may be stored under `key`: it may unless one is stored
/// there and the caller did not ask to replace it.
pub open spec fn accepts(data: Map<Seq<u8>, Seq<u8>>, key: Seq<u8>, replace: bool) -> bool {
    replace || !data.contains_key(key)
}

/// The objects after an attempt to store `object` under `key`.
pub open spec fn after_put(
    data: Map<Seq<u8>, Seq<u8>>,
    key: Seq<u8>,
    object: Seq<u8>,
    replace: bool,
) -> Map<Seq<u8>, Seq<u8>> {
    if accepts(data, key, replace) {
        data.insert(key, object)
    } else {
        data
    }
}

/// What listing the labels of some index keys gives: the labels that the keys
/// name, or the first key that names none.
pub enum Listed {
    Labels(Seq<LabelView>),
    NotText,
    NotLabel(Seq<char>),
}

/// The labels that the keys of some entries name, in the order of the
/// entries, up to the first key that is no UTF-8 text or holds no `=`.
pub open spec fn labels_of(entries: Seq<(Seq<u8>, Seq<u8>)>) -> Listed
    decreases entries.len(),
{
    if entries.len() == 0 {
        Listed::Labels(Seq::empty())
    } else {
        match labels_of(entries.drop_last()) {
            Listed::Labels(front) => {
                let key = entries.last().0;
                if !valid_utf8(key) {
                    Listed::NotText
                } else {
                    match parse_label(decode_utf8(key)) {
                        Some(l) => Listed::Labels(front.push(l)),
                        None => Listed::NotLabel(decode_utf8(key)),
                    }
                }
            },
            failed => failed,
        }
    }
}

/// A named group of objects.
#[derive(Debug)]
pub struct Collection {
    /// The name of the collection.
    pub name: String,
    /// The objects, by name.
    pub data: Tree,
    /// The metadata of the objects, by name, in binary form.
    pub meta: Tree,
    /// For each label text `name=value` the posting of the objects that carry
    /// the label.
    pub index_fwd: Tree,
    /// The same postings under `value=name`.
    pub index_rev: Tree,
}

/// What a collection holds.
pub struct CollectionView {
    pub name: Seq<char>,
    pub data: Map<Seq<u8>, Seq<u8>>,
    pub meta: Map<Seq<u8>, Seq<u8>>,
    pub index_fwd: Map<Seq<u8>, Seq<u8>>,
    pub index_rev: Map<Seq<u8>, Seq<u8>>,
}

impl View for Collection {
    type V = CollectionView;

    open spec fn view(&self) -> CollectionView {
        CollectionView {
            name: self.name@,
            data: self.data@,
            meta: self.meta@,
            index_fwd: self.index_fwd@,
            index_rev: self.index_rev@,
        }
    }
}

impl Collection {
    /// What an empty collection of that name holds.
    pub open spec fn empty_view(name: Seq<char>) -> CollectionView {
        CollectionView {
            name,
            data: Map::empty(),
            meta: Map::empty(),
            index_fwd: Map::empty(),
            index_rev: Map::empty(),
        }
    }

    /// An empty collection.
    pub fn new(name: &str) -> (r: Self)
        ensures
            r@ == Self::empty_view(name@),
    {
        Collection {
            name: name.to_owned(),
            data: Tree::new(),
            meta: Tree::new(),
            index_fwd: Tree::new(),
            index_rev: Tree::new(),
        }
    }

    /// The name of the key space of the objects.
    pub fn data_tree_name(&self) -> (r: String)
        ensures
            r@ == data_tree_name(self.name@),
    {
        proof {
            crate::text::lemma_empty_text("mauve_data::"@ + self.name@);
        }
        crate::text::concat3("mauve_data::", self.name.as_str(), "")
    }

    /// The name of the key space of the metadata.
    pub fn meta_tree_name(&self) -> (r: String)
        ensures
            r@ == meta_tree_name(self.name@),
    {
        proof {
            crate::text::lemma_empty_text("mauve_meta::"@ + self.name@);
        }
        crate::text::concat3("mauve_meta::", self.name.as_str(), "")
    }

    /// The name of the key space of the forward index.
    pub fn fwd_tree_name(&self) -> (r: String)
        ensures
            r@ == fwd_tree_name(self.name@),
    {
        proof {
            crate::text::lemma_empty_text("mauve_fwd::"@ + self.name@);
        }
        crate::text::concat3("mauve_fwd::", self.name.as_str(), "")
    }

    /// The name of the key space of the reverse index.
    pub fn rev_tree_name(&self) -> (r: String)
        ensures
            r@ == rev_tree_name(self.name@),
    {
        proof {
            crate::text::lemma_empty_text("mauve_rev::"@ + self.name@);
        }
        crate::text::concat3("mauve_rev::", self.name.as_str(), "")
    }

    /// The collection whose metadata is kept in the key space of that name.
    pub fn named_by(tree_name: &str) -> (r: Option<String>)
        ensures
            match r {
                Some(c) => collection_of(tree_name@) == Some(c@),
                None => collection_of(tree_name@) is None,
            },
    {
        match crate::text::strip_prefix(tree_name, "mauve_meta::") {
            Some(rest) => Some(rest.to_owned()),
            None => None,
        }
    }

    /// The key space of the objects.
    pub fn data_tree(&self) -> (r: &Tree)
        ensures
            *r == self.data,
    {
        &self.data
    }

    /// The key space of the metadata.
    pub fn meta_tree(&self) -> (r: &Tree)
        ensures
            *r == self.meta,
    {
        &self.meta
    }

    /// The key space of the forward index.
    pub fn index_fwd(&self) -> (r: &Tree)
        ensures
            *r == self.index_fwd,
    {
        &self.index_fwd
    }

    /// The key space of the reverse index.
    pub fn index_rev(&self) -> (r: &Tree)
        ensures
            *r == self.index_rev,
    {
        &self.index_rev
    }

    /// The names of the objects whose name starts with `prefix`, in ascending
    /// order of their keys. Keys that are not UTF-8 are passed over.
    pub fn list_objects(&self, prefix: &str) -> (r: Result<Vec<String>, MauveError>)
        ensures
            r matches Ok(found) && listing(found@) == names(
                with_prefix(self.data.entries(), encode_utf8(prefix@)),
            ),
            r matches Ok(found) ==> forall|name: Seq<char>|
                listing(found@).contains(name) <==> self.data@.contains_key(encode_utf8(name))
                    && starts_with(encode_utf8(name), encode_utf8(prefix@)),
            r matches Ok(found) ==> forall|i: int, j: int|
                0 <= i < j < found@.len() ==> bytes_lt(
                    encode_utf8(#[trigger] listing(found@)[i]),
                    encode_utf8(#[trigger] listing(found@)[j]),
                ),
    {
        check_order(&self.data);
        let hits = self.data.scan_prefix(prefix.as_bytes());
        let ghost all = wire(hits@);
        let mut found: Vec<String> = Vec::new();
        let mut i: usize = 0;
        proof {
            assert(all.take(0) =~= Seq::empty());
            assert(listing(found@) =~= names(all.take(0)));
        }
        while i < hits.len()
            invariant
                i <= hits@.len(),
                all == wire(hits@),
                listing(found@) == names(all.take(i as int)),
            decreases hits@.len() - i,
        {
            proof {
                assert(all.take(i as int + 1).drop_last() =~= all.take(i as int));
                assert(all.take(i as int + 1).last() == all[i as int]);
            }
            let ghost earlier = listing(found@);
            let key = crate::tree::copy_bytes(hits[i].0.as_slice());
            match from_utf8(key) {
                Ok(name) => {
                    found.push(name);
                    proof {
                        assert(listing(found@) =~= earlier.push(
                            decode_utf8(all[i as int].0),
                        ));
                    }
                },
                Err(_) => {},
            }
            i += 1;
        }
        proof {
            assert(all.take(i as int) =~= all);
            lemma_listing(self.data.entries(), encode_utf8(prefix@));
        }
        Ok(found)
    }

    /// Whether an object is stored under `ident`.
    pub fn head_object(&self, ident: &str) -> (r: Result<bool, MauveError>)
        ensures
            r matches Ok(there) && there == self.data@.contains_key(encode_utf8(ident@)),
    {
        Ok(self.data.contains_key(ident.as_bytes()))
    }

    /// The object stored under `ident`, read as a `T`.
    pub fn get_object_t<T: ToFromMauve>(&self, ident: &str) -> (r: Result<T, MauveError>)
        ensures
            !self.data@.contains_key(encode_utf8(ident@)) ==> r matches Err(
                MauveError::CollectionError(CollectionError::ObjectNotFound),
            ),
            self.data@.contains_key(encode_utf8(ident@)) ==> (r is Ok <==> T::readable(
                self.data@[encode_utf8(ident@)],
            )),
            r matches Ok(v) ==> self.data@.contains_key(encode_utf8(ident@)) && T::read_as(
                self.data@[encode_utf8(ident@)],
                &v,
            ),
    {
        match self.get_object(ident) {
            Ok(bytes) => T::from_object(bytes),
            Err(e) => Err(e),
        }
    }

    /// The bytes of the object stored under `ident`. Where there is none, the
    /// error is `ObjectNotFound`.
    pub fn get_object(&self, ident: &str) -> (r: Result<Vec<u8>, MauveError>)
        ensures
            match r {
                Ok(bytes) => self.data@.contains_key(encode_utf8(ident@)) && bytes@
                    == self.data@[encode_utf8(ident@)],
                Err(MauveError::CollectionError(CollectionError::ObjectNotFound)) =>
                    !self.data@.contains_key(encode_utf8(ident@)),
                Err(_) => false,
            },
    {
        match self.data.get(ident.as_bytes()) {
            Some(bytes) => Ok(bytes),
            None => Err(MauveError::CollectionError(CollectionError::ObjectNotFound)),
        }
    }

    /// The metadata stored under `ident`. Where there is none, the error is
    /// `ObjectNotFound`; where what is stored is not the binary form of
    /// metadata, it is `CborError`.
    pub fn get_object_metadata(&self, ident: &str) -> (r: Result<Metadata, MauveError>)
        ensures
            match r {
                Ok(m) => self.meta@.contains_key(encode_utf8(ident@)) && read_metadata(
                    self.meta@[encode_utf8(ident@)],
                ) == Some(m@),
                Err(MauveError::CollectionError(CollectionError::ObjectNotFound)) =>
                    !self.meta@.contains_key(encode_utf8(ident@)),
                Err(MauveError::CborError(_)) => self.meta@.contains_key(encode_utf8(ident@))
                    && read_metadata(self.meta@[encode_utf8(ident@)]) is None,
                Err(_) => false,
            },
    {
        match self.meta.get(ident.as_bytes()) {
            Some(bytes) => match Metadata::read(bytes.as_slice()) {
                Some(m) => Ok(m),
                None => Err(MauveError::CborError("not the binary form of metadata".to_owned())),
            },
            None => Err(MauveError::CollectionError(CollectionError::ObjectNotFound)),
        }
    }

    /// Stores `object` under `ident` and returns the reference of the object.
    /// Where an object is stored there already, it is replaced if `replace`
    /// is set; otherwise nothing changes and the error is
    /// `PutObjectExistsNoReplace`. The metadata is left as it is.
    pub fn put_object(&mut self, ident: &str, object: Vec<u8>, replace: bool) -> (r: Result<
        ObjectRef,
        MauveError,
    >)
        ensures
            final(self).name == old(self).name,
            final(self).meta == old(self).meta,
            final(self).index_fwd == old(self).index_fwd,
            final(self).index_rev == old(self).index_rev,
            final(self).data@ == after_put(
                old(self).data@,
                encode_utf8(ident@),
                object@,
                replace,
            ),
            match r {
                Ok(made) => accepts(old(self).data@, encode_utf8(ident@), replace) && made@ == (
                ObjectRefView { collection: old(self).name@, name: ident@ }).normalized(),
                Err(MauveError::CollectionError(CollectionError::PutObjectExistsNoReplace)) =>
                    !accepts(old(self).data@, encode_utf8(ident@), replace),
                Err(_) => false,
            },
    {
        if self.data.contains_key(ident.as_bytes()) && !replace {
            return Err(MauveError::CollectionError(CollectionError::PutObjectExistsNoReplace));
        }
        let _ = self.data.insert(utf8_bytes(ident), object);
        Ok(ObjectRef::new(self.name.as_str(), ident))
    }

    /// Stores the binary form of `object` under `ident`, as `put_object` does,
    /// and returns the reference of the object. An object that has no binary
    /// form is not stored, and the error is the one that writing it gave; an
    /// object that may not replace the one that is there is refused with
    /// `PutObjectExistsNoReplace`. The metadata is left as it is.
    pub fn put_object_t<T: ToFromMauve>(&mut self, ident: &str, object: &T, replace: bool) -> (r:
        Result<ObjectRef, MauveError>)
        ensures
            final(self).name == old(self).name,
            final(self).meta == old(self).meta,
            final(self).index_fwd == old(self).index_fwd,
            final(self).index_rev == old(self).index_rev,
            final(self).data@ == if object.has_form() {
                after_put(old(self).data@, encode_utf8(ident@), object.object_bytes(), replace)
            } else {
                old(self).data@
            },
            r is Ok <==> object.has_form() && accepts(
                old(self).data@,
                encode_utf8(ident@),
                replace,
            ),
            r matches Ok(made) ==> made@ == (ObjectRefView {
                collection: old(self).name@,
                name: ident@,
            }).normalized(),
            object.has_form() && !accepts(old(self).data@, encode_utf8(ident@), replace)
                ==> r matches Err(
                MauveError::CollectionError(CollectionError::PutObjectExistsNoReplace),
            ),
    {
        match object.to_object() {
            Ok(bytes) => self.put_object(ident, bytes, replace),
            Err(e) => Err(e),
        }
    }

    /// Stores `meta` as the metadata of `ident`, in place of what was stored
    /// before, and returns `ident`.
    pub fn put_object_metadata(&mut self, ident: &str, meta: Metadata) -> (r: Result<
        String,
        MauveError,
    >)
        ensures
            final(self).name == old(self).name,
            final(self).data == old(self).data,
            final(self).index_fwd == old(self).index_fwd,
            final(self).index_rev == old(self).index_rev,
            final(self).meta@ == old(self).meta@.insert(encode_utf8(ident@), meta@.bytes()),
            read_metadata(meta@.bytes()) == Some(meta@),
            r matches Ok(s) && s@ == ident@,
    {
        let bytes = meta.write();
        let _ = self.meta.insert(utf8_bytes(ident), bytes);
        Ok(ident.to_owned())
    }

    /// Takes the object stored under `ident` out and returns it, read as a
    /// `T`. The object is gone also where it cannot be read.
    pub fn delete_object_t<T: ToFromMauve>(&mut self, ident: &str) -> (r: Result<
        Option<T>,
        MauveError,
    >)
        ensures
            final(self).name == old(self).name,
            final(self).meta == old(self).meta,
            final(self).index_fwd == old(self).index_fwd,
            final(self).index_rev == old(self).index_rev,
            final(self).data@ == old(self).data@.remove(encode_utf8(ident@)),
            !old(self).data@.contains_key(encode_utf8(ident@)) ==> r matches Ok(None),
            old(self).data@.contains_key(encode_utf8(ident@)) ==> match r {
                Ok(Some(v)) => T::readable(old(self).data@[encode_utf8(ident@)]) && T::read_as(
                    old(self).data@[encode_utf8(ident@)],
                    &v,
                ),
                Ok(None) => false,
                Err(_) => !T::readable(old(self).data@[encode_utf8(ident@)]),
            },
    {
        match self.data.remove(ident.as_bytes()) {
            Some(bytes) => match T::from_object(bytes) {
                Ok(v) => Ok(Some(v)),
                Err(e) => Err(e),
            },
            None => Ok(None),
        }
    }

    /// Takes the object stored under `ident` out and returns its bytes, if
    /// there was one.
    pub fn delete_object(&mut self, ident: &str) -> (r: Result<Option<Vec<u8>>, MauveError>)
        ensures
            final(self).name == old(self).name,
            final(self).meta == old(self).meta,
            final(self).index_fwd == old(self).index_fwd,
            final(self).index_rev == old(self).index_rev,
            final(self).data@ == old(self).data@.remove(encode_utf8(ident@)),
            match r {
                Ok(Some(bytes)) => old(self).data@.contains_key(encode_utf8(ident@)) && bytes@
                    == old(self).data@[encode_utf8(ident@)],
                Ok(None) => !old(self).data@.contains_key(encode_utf8(ident@)),
                Err(_) => false,
            },
    {
        Ok(self.data.remove(ident.as_bytes()))
    }

    /// Takes the metadata stored under `ident` out and returns it, if there
    /// was any. It is gone also where it cannot be read, which is reported as
    /// `CborError`.
    pub fn delete_metadata(&mut self, ident: &str) -> (r: Result<Option<Metadata>, MauveError>)
        ensures
            final(self).name == old(self).name,
            final(self).data == old(self).data,
            final(self).index_fwd == old(self).index_fwd,
            final(self).index_rev == old(self).index_rev,
            final(self).meta@ == old(self).meta@.remove(encode_utf8(ident@)),
            match r {
                Ok(Some(m)) => old(self).meta@.contains_key(encode_utf8(ident@)) && read_metadata(
                    old(self).meta@[encode_utf8(ident@)],
                ) == Some(m@),
                Ok(None) => !old(self).meta@.contains_key(encode_utf8(ident@)),
                Err(MauveError::CborError(_)) => old(self).meta@.contains_key(encode_utf8(ident@))
                    && read_metadata(old(self).meta@[encode_utf8(ident@)]) is None,
                Err(_) => false,
            },
    {
        match self.meta.remove(ident.as_bytes()) {
            Some(bytes) => match Metadata::read(bytes.as_slice()) {
                Some(m) => Ok(Some(m)),
                None => Err(MauveError::CborError("not the binary form of metadata".to_owned())),
            },
            None => Ok(None),
        }
    }

    /// The labels that the keys of the forward index name, in ascending order
    /// of the keys. The first key that is no UTF-8 text ends the listing with
    /// `Utf8Error`, the first that holds no `=` with `InvalidLabel`.
    pub fn list_labels(&self) -> (r: Result<Vec<Label>, MauveError>)
        ensures
            match r {
                Ok(found) => labels_of(self.index_fwd.entries()) == Listed::Labels(
                    label_views(found@),
                ),
                Err(MauveError::Utf8Error(_)) => labels_of(self.index_fwd.entries())
                    == Listed::NotText,
                Err(MauveError::InvalidLabel(t)) => labels_of(self.index_fwd.entries())
                    == Listed::NotLabel(t@),
                Err(_) => false,
            },
    {
        let ghost all = self.index_fwd.entries();
        let mut labels: Vec<Label> = Vec::new();
        let n = self.index_fwd.len();
        let mut i: usize = 0;
        proof {
            assert(all.take(0) =~= Seq::empty());
            assert(label_views(labels@) =~= Seq::empty());
        }
        while i < n
            invariant
                i <= n == all.len(),
                all == self.index_fwd.entries(),
                labels_of(all.take(i as int)) == Listed::Labels(label_views(labels@)),
            decreases n - i,
        {
            proof {
                assert(all.take(i as int + 1).drop_last() =~= all.take(i as int));
                assert(all.take(i as int + 1).last() == all[i as int]);
                lemma_labels_of_failure_stays(all, i as int + 1);
            }
            let (key, _) = self.index_fwd.entry(i);
            let text = match from_utf8(key) {
                Ok(text) => text,
                Err(message) => {
                    return Err(MauveError::Utf8Error(message));
                },
            };
            let ghost earlier = label_views(labels@);
            match Label::from_str(text.as_str()) {
                Ok(l) => {
                    labels.push(l);
                    proof {
                        assert(label_views(labels@) =~= earlier.push(
                            parse_label(decode_utf8(all[i as int].0)).unwrap(),
                        ));
                    }
                },
                Err(e) => {
                    return Err(e);
                },
            }
            i += 1;
        }
        proof {
            assert(all.take(i as int) =~= all);
        }
        Ok(labels)
    }
}

/// Once listing the labels of the first `n` keys has failed, listing the
/// labels of all keys fails in the same way.
pub proof fn lemma_labels_of_failure_stays(entries: Seq<(Seq<u8>, Seq<u8>)>, n: int)
    requires
        0 <= n <= entries.len(),
    ensures
        !(labels_of(entries.take(n)) is Labels) ==> labels_of(entries) == labels_of(
            entries.take(n),
        ),
    decreases entries.len() - n,
{
    if n < entries.len() {
        lemma_labels_of_failure_stays(entries, n + 1);
        assert(entries.take(n + 1).drop_last() =~= entries.take(n));
    } else {
        assert(entries.take(n) =~= entries);
    }
}

/// The life of an object. Storing `first` under a free name without leave to
/// replace is accepted, and then the object is there and is `first`. Storing
/// again without leave to replace is refused. Storing `second` with leave to
/// replace is accepted, and then the object is `second`. Deleting takes
/// `second` out, and then no object is there.
pub proof fn lemma_object_life(
    data: Map<Seq<u8>, Seq<u8>>,
    name: Seq<u8>,
    first: Seq<u8>,
    again: Seq<u8>,
    second: Seq<u8>,
)
    requires
        !data.contains_key(name),
    ensures
        ({
            let created = after_put(data, name, first, false);
            let replaced = after_put(created, name, second, true);
            &&& accepts(data, name, false)
            &&& created.contains_key(name)
            &&& created[name] == first
            &&& !accepts(created, name, false)
            &&& after_put(created, name, again, false) == created
            &&& accepts(created, name, true)
            &&& replaced.contains_key(name)
            &&& replaced[name] == second
            &&& !replaced.remove(name).contains_key(name)
            &&& replaced.remove(name) == data
        }),
{
    let created = after_put(data, name, first, false);
    let replaced = after_put(created, name, second, true);
    assert(replaced.remove(name) =~= data);
}

/// Storing or deleting an object leaves every other object as it was.
pub proof fn lemma_other_objects_stay(
    data: Map<Seq<u8>, Seq<u8>>,
    name: Seq<u8>,
    object: Seq<u8>,
    replace: bool,
    other: Seq<u8>,
)
    requires
        other != name,
    ensures
        after_put(data, name, object, replace).contains_key(other) == data.contains_key(other),
        data.contains_key(other) ==> after_put(data, name, object, replace)[other] == data[other],
        data.remove(name).contains_key(other) == data.contains_key(other),
        data.contains_key(other) ==> data.remove(name)[other] == data[other],
{
}

/// Among entries in ascending order, the texts that the keys encode are those
/// texts whose UTF-8 form is a key, each once, in ascending order of their
/// UTF-8 forms.
pub proof fn lemma_names(entries: Seq<(Seq<u8>, Seq<u8>)>)
    requires
        ascending(entries),
    ensures
        forall|name: Seq<char>|
            names(entries).contains(name) <==> exists|i: int|
                0 <= i < entries.len() && #[trigger] entries[i].0 == encode_utf8(name),
        forall|i: int, j: int|
            0 <= i < j < names(entries).len() ==> bytes_lt(
                encode_utf8(#[trigger] names(entries)[i]),
                encode_utf8(#[trigger] names(entries)[j]),
            ),
    decreases entries.len(),
{
    if entries.len() > 0 {
        let front = entries.drop_last();
        let last = entries.last().0;
        let at = entries.len() - 1;
        assert(ascending(front)) by {
            assert forall|i: int, j: int| 0 <= i < j < front.len() implies bytes_lt(
                #[trigger] front[i].0,
                #[trigger] front[j].0,
            ) by {
                assert(front[i] == entries[i] && front[j] == entries[j]);
            }
        }
        lemma_names(front);
        let all = names(entries);
        let before = names(front);
        if valid_utf8(last) {
            decode_utf8_encode_utf8(last);
        }
        assert forall|name: Seq<char>| all.contains(name) implies exists|i: int|
            0 <= i < entries.len() && #[trigger] entries[i].0 == encode_utf8(name) by {
            let j = choose|j: int| 0 <= j < all.len() && all[j] == name;
            if j < before.len() {
                assert(before[j] == name);
                assert(before.contains(name));
                let i = choose|i: int| 0 <= i < front.len() && #[trigger] front[i].0 == encode_utf8(
                    name,
                );
                assert(entries[i].0 == encode_utf8(name));
            } else {
                assert(entries[at].0 == encode_utf8(name));
            }
        }
        assert forall|name: Seq<char>|
            (exists|i: int| 0 <= i < entries.len() && #[trigger] entries[i].0 == encode_utf8(
                name,
            )) implies all.contains(name) by {
            let i = choose|i: int| 0 <= i < entries.len() && #[trigger] entries[i].0 == encode_utf8(
                name,
            );
            encode_utf8_valid_utf8(name);
            encode_utf8_decode_utf8(name);
            if i < at {
                assert(front[i].0 == encode_utf8(name));
                assert(before.contains(name));
                let j = choose|j: int| 0 <= j < before.len() && before[j] == name;
                assert(all[j] == name);
            } else {
                assert(all[before.len() as int] == name);
            }
        }
        assert forall|i: int, j: int| 0 <= i < j < all.len() implies bytes_lt(
            encode_utf8(#[trigger] all[i]),
            encode_utf8(#[trigger] all[j]),
        ) by {
            if j < before.len() {
                assert(all[i] == before[i] && all[j] == before[j]);
            } else {
                assert(all[i] == before[i]);
                assert(before.contains(all[i]));
                let k = choose|k: int| 0 <= k < front.len() && #[trigger] front[k].0 == encode_utf8(
                    all[i],
                );
                assert(entries[k].0 == front[k].0);
                assert(bytes_lt(entries[k].0, entries[at].0));
            }
        }
    }
}

/// Among entries in ascending order, those whose key starts with `prefix` are
/// in ascending order too, and they are the entries that start with it.
pub proof fn lemma_with_prefix(entries: Seq<(Seq<u8>, Seq<u8>)>, prefix: Seq<u8>)
    requires
        ascending(entries),
    ensures
        ascending(with_prefix(entries, prefix)),
        forall|e: (Seq<u8>, Seq<u8>)|
            with_prefix(entries, prefix).contains(e) <==> entries.contains(e) && starts_with(
                e.0,
                prefix,
            ),
    decreases entries.len(),
{
    reveal(Seq::filter);
    let keep = |e: (Seq<u8>, Seq<u8>)| starts_with(e.0, prefix);
    if entries.len() > 0 {
        let front = entries.drop_last();
        let last = entries.last();
        let at = entries.len() - 1;
        assert(ascending(front)) by {
            assert forall|i: int, j: int| 0 <= i < j < front.len() implies bytes_lt(
                #[trigger] front[i].0,
                #[trigger] front[j].0,
            ) by {
                assert(front[i] == entries[i] && front[j] == entries[j]);
            }
        }
        lemma_with_prefix(front, prefix);
        let all = with_prefix(entries, prefix);
        let before = with_prefix(front, prefix);
        assert(all == if keep(last) {
            before.push(last)
        } else {
            before
        });
        assert forall|e: (Seq<u8>, Seq<u8>)| all.contains(e) implies entries.contains(e)
            && starts_with(e.0, prefix) by {
            let j = choose|j: int| 0 <= j < all.len() && all[j] == e;
            if j < before.len() {
                assert(before[j] == e);
                assert(before.contains(e));
                assert(front.contains(e));
                let i = choose|i: int| 0 <= i < front.len() && front[i] == e;
                assert(entries[i] == e);
            } else {
                assert(entries[at] == e);
            }
        }
        assert forall|e: (Seq<u8>, Seq<u8>)|
            entries.contains(e) && starts_with(e.0, prefix) implies all.contains(e) by {
            let i = choose|i: int| 0 <= i < entries.len() && entries[i] == e;
            if i < at {
                assert(front[i] == e);
                assert(front.contains(e));
                assert(before.contains(e));
                let j = choose|j: int| 0 <= j < before.len() && before[j] == e;
                assert(all[j] == e);
            } else {
                assert(all[before.len() as int] == e);
            }
        }
        assert forall|i: int, j: int| 0 <= i < j < all.len() implies bytes_lt(
            #[trigger] all[i].0,
            #[trigger] all[j].0,
        ) by {
            if j < before.len() {
                assert(all[i] == before[i] && all[j] == before[j]);
            } else {
                assert(all[i] == before[i]);
                assert(before.contains(all[i]));
                assert(front.contains(all[i]));
                let k = choose|k: int| 0 <= k < front.len() && front[k] == all[i];
                assert(entries[k] == front[k]);
                assert(bytes_lt(entries[k].0, entries[at].0));
            }
        }
    } else {
        assert(with_prefix(entries, prefix) =~= Seq::empty());
    }
}

/// What listing the objects under a prefix gives: a text is listed exactly if
/// its UTF-8 form is a key that starts with the prefix, no text is listed
/// twice, and the texts stand in ascending order of their keys.
pub proof fn lemma_listing(entries: Seq<(Seq<u8>, Seq<u8>)>, prefix: Seq<u8>)
    requires
        ascending(entries),
    ensures
        forall|name: Seq<char>|
            names(with_prefix(entries, prefix)).contains(name) <==> assoc(entries).contains_key(
                encode_utf8(name),
            ) && starts_with(encode_utf8(name), prefix),
        forall|i: int, j: int|
            0 <= i < j < names(with_prefix(entries, prefix)).len() ==> bytes_lt(
                encode_utf8(#[trigger] names(with_prefix(entries, prefix))[i]),
                encode_utf8(#[trigger] names(with_prefix(entries, prefix))[j]),
            ),
{
    let hits = with_prefix(entries, prefix);
    lemma_with_prefix(entries, prefix);
    lemma_names(hits);
    assert forall|name: Seq<char>| names(hits).contains(name) implies assoc(entries).contains_key(
        encode_utf8(name),
    ) && starts_with(encode_utf8(name), prefix) by {
        let i = choose|i: int| 0 <= i < hits.len() && #[trigger] hits[i].0 == encode_utf8(name);
        assert(hits.contains(hits[i]));
        assert(entries.contains(hits[i]));
        let k = choose|k: int| 0 <= k < entries.len() && entries[k] == hits[i];
        assert(entries[k].0 == encode_utf8(name));
    }
    assert forall|name: Seq<char>|
        assoc(entries).contains_key(encode_utf8(name)) && starts_with(
            encode_utf8(name),
            prefix,
        ) implies names(hits).contains(name) by {
        let k = choose|k: int| 0 <= k < entries.len() && #[trigger] entries[k].0 == encode_utf8(
            name,
        );
        assert(entries.contains(entries[k]));
        assert(hits.contains(entries[k]));
        let i = choose|i: int| 0 <= i < hits.len() && hits[i] == entries[k];
        assert(hits[i].0 == encode_utf8(name));
    }
}

} // verus!
