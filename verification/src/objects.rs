//! Object references: the `(collection, name)` identity of an object, kept in
//! lower case, and lists of them as stored in the label indexes.

use vstd::prelude::*;
use vstd::string::*;
use crate::cbor::{
    lemma_pair_list_round_trip, pair_list, pairs, parse_pair_list, read_pair_list, texts,
    writable, write_head, write_pair, MAJOR_LIST,
};
use crate::errors::MauveError;
use crate::text::{concat3, lower, to_lower};

verus! {

/// What an object reference is: two texts.
pub struct ObjectRefView {
    pub collection: Seq<char>,
    pub name: Seq<char>,
}

impl ObjectRefView {
    /// The reference with both fields in lower case.
    pub open spec fn normalized(self) -> ObjectRefView {
        ObjectRefView { collection: lower(self.collection), name: lower(self.name) }
    }

    /// The text form `collection/name`.
    pub open spec fn path(self) -> Seq<char> {
        self.collection + seq!['/'] + self.name
    }
}

/// The order of references: by collection first, then by name, each in the
/// order of their UTF-8 bytes.
pub open spec fn comes_before(a: ObjectRefView, b: ObjectRefView) -> bool {
    crate::tree::bytes_lt(
        vstd::utf8::encode_utf8(a.collection),
        vstd::utf8::encode_utf8(b.collection),
    ) || (vstd::utf8::encode_utf8(a.collection) == vstd::utf8::encode_utf8(b.collection)
        && crate::tree::bytes_lt(vstd::utf8::encode_utf8(a.name), vstd::utf8::encode_utf8(b.name)))
}

/// The identity of an object inside the store.
#[derive(Debug, Eq, PartialOrd, Ord, Hash)]
pub struct ObjectRef {
    pub collection: String,
    pub name: String,
}

impl View for ObjectRef {
    type V = ObjectRefView;

    open spec fn view(&self) -> ObjectRefView {
        ObjectRefView { collection: self.collection@, name: self.name@ }
    }
}

impl Clone for ObjectRef {
    fn clone(&self) -> (r: Self)
        ensures
            r == *self,
    {
        ObjectRef { collection: self.collection.clone(), name: self.name.clone() }
    }
}

impl PartialEq for ObjectRef {
    fn eq(&self, other: &Self) -> (r: bool) {
        self.collection == other.collection && self.name == other.name
    }
}

impl vstd::std_specs::cmp::PartialEqSpecImpl for ObjectRef {
    open spec fn obeys_eq_spec() -> bool {
        true
    }

    open spec fn eq_spec(&self, other: &Self) -> bool {
        self.collection@ == other.collection@ && self.name@ == other.name@
    }
}

impl Default for ObjectRef {
    fn default() -> (r: Self)
        ensures
            r@ == (ObjectRefView { collection: Seq::<char>::empty(), name: Seq::<char>::empty() }),
    {
        ObjectRef { collection: String::new(), name: String::new() }
    }
}

impl ObjectRef {
    /// A reference from a collection name and an object name, both taken to
    /// lower case.
    pub fn new(collection: &str, name: &str) -> (r: Self)
        ensures
            r@ == (ObjectRefView { collection: collection@, name: name@ }).normalized(),
    {
        Self { collection: to_lower(collection), name: to_lower(name) }
    }

    /// The text form of this reference: `collection/name`.
    pub fn to_string(&self) -> (r: String)
        ensures
            r@ == self@.path(),
    {
        proof {
            reveal_strlit("/");
            assert("/"@ =~= seq!['/']);
        }
        concat3(self.collection.as_str(), "/", self.name.as_str())
    }

    /// Whether this reference comes before `other`: by collection first, then
    /// by name, each in the order of their UTF-8 bytes.
    pub fn precedes(&self, other: &ObjectRef) -> (r: bool)
        ensures
            r == comes_before(self@, other@),
    {
        match crate::tree::key_order(
            self.collection.as_str().as_bytes(),
            other.collection.as_str().as_bytes(),
        ) {
            crate::tree::KeyOrder::Before => true,
            crate::tree::KeyOrder::After => false,
            crate::tree::KeyOrder::Same => {
                match crate::tree::key_order(
                    self.name.as_str().as_bytes(),
                    other.name.as_str().as_bytes(),
                ) {
                    crate::tree::KeyOrder::Before => true,
                    _ => false,
                }
            },
        }
    }

    /// Whether two references are the same pair of texts.
    pub fn same(&self, other: &ObjectRef) -> (r: bool)
        ensures
            r == (self@ == other@),
    {
        self.collection == other.collection && self.name == other.name
    }
}

/// Two references made from inputs that differ only in ASCII case are equal.
pub proof fn lemma_object_ref_case_insensitive(
    c1: Seq<char>,
    n1: Seq<char>,
    c2: Seq<char>,
    n2: Seq<char>,
)
    requires
        lower(c1) == lower(c2),
        lower(n1) == lower(n2),
    ensures
        (ObjectRefView { collection: c1, name: n1 }).normalized() == (ObjectRefView {
            collection: c2,
            name: n2,
        }).normalized(),
{
}

/// The views of some references.
pub open spec fn ref_views(refs: Seq<ObjectRef>) -> Seq<ObjectRefView> {
    Seq::new(refs.len(), |i: int| refs[i]@)
}

/// The references as records of two texts.
pub open spec fn ref_pairs(refs: Seq<ObjectRefView>) -> Seq<(Seq<char>, Seq<char>)> {
    Seq::new(refs.len(), |i: int| (refs[i].collection, refs[i].name))
}

/// The records of two texts as references.
pub open spec fn pair_refs(ps: Seq<(Seq<char>, Seq<char>)>) -> Seq<ObjectRefView> {
    Seq::new(ps.len(), |i: int| ObjectRefView { collection: ps[i].0, name: ps[i].1 })
}

/// The binary form of a posting: the list of its references, each a record
/// of its collection and its name.
#[verifier::opaque]
pub open spec fn posting_bytes(refs: Seq<ObjectRefView>) -> Seq<u8> {
    pair_list("collection"@, "name"@, ref_pairs(refs))
}

/// Reads a posting: a list of references and nothing after it.
#[verifier::opaque]
pub open spec fn parse_posting(b: Seq<u8>) -> Option<Seq<ObjectRefView>> {
    match parse_pair_list("collection"@, "name"@, Some(b)) {
        Some((ps, after)) => if after.len() == 0 {
            Some(pair_refs(ps))
        } else {
            None
        },
        None => None,
    }
}

/// A posting that was written is read back as it was.
pub proof fn lemma_posting_round_trip(refs: Seq<ObjectRefView>)
    requires
        writable(ref_pairs(refs)),
    ensures
        parse_posting(posting_bytes(refs)) == Some(refs),
{
    reveal(posting_bytes);
    reveal(parse_posting);
    lemma_pair_list_round_trip("collection"@, "name"@, ref_pairs(refs), Seq::empty());
    assert(posting_bytes(refs) + Seq::<u8>::empty() =~= posting_bytes(refs));
    assert(pair_refs(ref_pairs(refs)) =~= refs);
}

/// The binary form of a posting.
pub fn encode_posting(refs: &Vec<ObjectRef>) -> (r: Vec<u8>)
    ensures
        r@ == posting_bytes(ref_views(refs@)),
        writable(ref_pairs(ref_views(refs@))),
        parse_posting(r@) == Some(ref_views(refs@)),
{
    let ghost all = ref_pairs(ref_views(refs@));
    let mut out: Vec<u8> = Vec::new();
    write_head(&mut out, MAJOR_LIST, refs.len() as u64);
    let ghost opened = out@;
    let mut i: usize = 0;
    proof {
        assert(all.take(0) =~= Seq::empty());
        assert(out@ =~= opened + pairs("collection"@, "name"@, all.take(0)));
    }
    while i < refs.len()
        invariant
            i <= refs@.len(),
            all == ref_pairs(ref_views(refs@)),
            out@ == opened + pairs("collection"@, "name"@, all.take(i as int)),
            forall|j: int| 0 <= j < i ==> #[trigger] crate::cbor::short(all[j]),
        decreases refs@.len() - i,
    {
        proof {
            assert(all.take(i as int + 1).drop_last() =~= all.take(i as int));
            assert(all.take(i as int + 1).last() == (refs@[i as int].collection@, refs@[i as int].name@));
        }
        write_pair(&mut out, "collection", "name", refs[i].collection.as_str(), refs[i].name.as_str());
        proof {
            assert(out@ =~= opened + pairs("collection"@, "name"@, all.take(i as int + 1)));
        }
        i += 1;
    }
    proof {
        assert(all.take(i as int) =~= all);
        assert(out@ =~= posting_bytes(ref_views(refs@))) by {
            reveal(posting_bytes);
        }
        lemma_posting_round_trip(ref_views(refs@));
    }
    out
}

/// Reads a posting from its binary form, if `b` is one.
pub fn decode_posting(b: &[u8]) -> (r: Option<Vec<ObjectRef>>)
    ensures
        match r {
            Some(refs) => parse_posting(b@) == Some(ref_views(refs@)),
            None => parse_posting(b@) is None,
        },
{
    proof {
        reveal(parse_posting);
        assert(b@.skip(0) =~= b@);
    }
    let (found, end) = match read_pair_list(b, 0, "collection", "name") {
        Some(f) => f,
        None => {
            return None;
        },
    };
    if end != b.len() {
        return None;
    }
    let ghost wanted = pair_refs(texts(found@));
    let mut refs: Vec<ObjectRef> = Vec::new();
    let mut i: usize = 0;
    proof {
        assert(ref_views(refs@) =~= wanted.take(0));
    }
    while i < found.len()
        invariant
            i <= found@.len(),
            wanted == pair_refs(texts(found@)),
            ref_views(refs@) == wanted.take(i as int),
        decreases found@.len() - i,
    {
        let ghost earlier = ref_views(refs@);
        refs.push(ObjectRef { collection: found[i].0.clone(), name: found[i].1.clone() });
        proof {
            assert(ref_views(refs@) =~= earlier.push(wanted[i as int]));
            assert(ref_views(refs@) =~= wanted.take(i as int + 1));
        }
        i += 1;
    }
    proof {
        assert(wanted.take(i as int) =~= wanted);
        assert(b@.skip(end as int).len() == 0);
    }
    Some(refs)
}

/// What can be stored as an object: a value with a binary form.
pub trait ToFromMauve: Sized {
    /// Whether the value has a binary form: writing it succeeds exactly then.
    spec fn has_form(&self) -> bool;

    /// The binary form of the value, where it has one.
    spec fn object_bytes(&self) -> Seq<u8>;

    /// Whether `b` is the binary form of some value.
    spec fn readable(b: Seq<u8>) -> bool;

    /// Whether `value` is what reading `b` gives.
    spec fn read_as(b: Seq<u8>, value: &Self) -> bool;

    /// Writes the value: its binary form where it has one, an error where
    /// it has none.
    fn to_object(&self) -> (r: Result<Vec<u8>, MauveError>)
        ensures
            r is Ok <==> self.has_form(),
            r matches Ok(b) ==> b@ == self.object_bytes(),
    ;

    /// Reads a value. Bytes that are not a binary form are refused.
    fn from_object(b: Vec<u8>) -> (r: Result<Self, MauveError>)
        ensures
            r matches Ok(v) ==> Self::readable(b@) && Self::read_as(b@, &v),
            r is Err ==> !Self::readable(b@),
    ;
}

/// The list of references stored under one index key.
#[derive(Debug)]
pub struct ObjectRefs(pub Vec<ObjectRef>);

impl ToFromMauve for ObjectRefs {
    open spec fn has_form(&self) -> bool {
        true
    }

    open spec fn object_bytes(&self) -> Seq<u8> {
        posting_bytes(self.refs())
    }

    open spec fn readable(b: Seq<u8>) -> bool {
        parse_posting(b) is Some
    }

    open spec fn read_as(b: Seq<u8>, value: &Self) -> bool {
        parse_posting(b) == Some(value.refs())
    }

    fn to_object(&self) -> (r: Result<Vec<u8>, MauveError>) {
        Ok(encode_posting(&self.0))
    }

    fn from_object(b: Vec<u8>) -> (r: Result<Self, MauveError>)
        ensures
            r is Err ==> r matches Err(MauveError::CborError(_)),
    {
        match decode_posting(b.as_slice()) {
            Some(refs) => Ok(ObjectRefs(refs)),
            None => Err(MauveError::CborError("not the binary form of a posting".to_owned())),
        }
    }
}

impl ObjectRefs {
    /// The references as a sequence of their views.
    pub open spec fn refs(self) -> Seq<ObjectRefView> {
        ref_views(self.0@)
    }

    /// A posting list with the given members, in their order.
    pub fn new(inner: Vec<ObjectRef>) -> (r: Self)
        ensures
            r.0 == inner,
    {
        Self(inner)
    }

    /// The members, in their order.
    pub fn into_vec(self) -> (r: Vec<ObjectRef>)
        ensures
            r == self.0,
    {
        self.0
    }

    /// How many members the list has.
    pub fn len(&self) -> (r: usize)
        ensures
            r == self.0@.len(),
    {
        self.0.len()
    }
}

} // verus!
