//! Metadata of an object: what its content is, how large it is said to be,
//! its labels, and a text that describes its inner structure for clients.

use vstd::prelude::*;
use vstd::string::*;
use vstd::utf8::*;
use crate::cbor::{
    field, head, lemma_field_round_trip, lemma_listed_round_trip, lemma_number_round_trip,
    lemma_skip_round_trip, listed, number, pair_list, pairs, parse_field, parse_number,
    parse_pair_list, read_field, read_number, read_pair_list, read_skip, rest, skip_bytes, text,
    texts, writable, write_head, write_pair, write_text, MAJOR_LIST, MAJOR_RECORD, MAJOR_UINT,
};
use crate::errors::MauveError;
use crate::labels::{parse_label, Label, LabelView};
use crate::objects::ToFromMauve;
use crate::text::{first_index_of, lemma_first_index_of, split_once};

verus! {

/// A sequence without its repetitions: of equal members the first stays.
pub open spec fn distinct<A>(s: Seq<A>) -> Seq<A>
    decreases s.len(),
{
    if s.len() == 0 {
        s
    } else {
        let before = distinct(s.drop_last());
        if before.contains(s.last()) {
            before
        } else {
            before.push(s.last())
        }
    }
}

/// `distinct` keeps the members and has none twice.
pub proof fn lemma_distinct<A>(s: Seq<A>)
    ensures
        distinct(s).no_duplicates(),
        forall|a: A| distinct(s).contains(a) <==> s.contains(a),
    decreases s.len(),
{
    if s.len() > 0 {
        let front = s.drop_last();
        let last = s.last();
        lemma_distinct(front);
        let before = distinct(front);
        let all = distinct(s);
        assert forall|a: A| all.contains(a) implies s.contains(a) by {
            let j = choose|j: int| 0 <= j < all.len() && all[j] == a;
            if j < before.len() {
                assert(before[j] == a);
                assert(before.contains(a));
                assert(front.contains(a));
                let i = choose|i: int| 0 <= i < front.len() && front[i] == a;
                assert(s[i] == a);
            } else {
                assert(s[s.len() - 1] == a);
            }
        }
        assert forall|a: A| s.contains(a) implies all.contains(a) by {
            let i = choose|i: int| 0 <= i < s.len() && s[i] == a;
            if i < s.len() - 1 {
                assert(front[i] == a);
                assert(front.contains(a));
                assert(before.contains(a));
                let j = choose|j: int| 0 <= j < before.len() && before[j] == a;
                assert(all[j] == a);
            } else {
                if before.contains(last) {
                } else {
                    assert(all[before.len() as int] == a);
                }
            }
        }
    }
}

/// `distinct` changes nothing where no member stands twice.
pub proof fn lemma_distinct_of_distinct<A>(s: Seq<A>)
    requires
        s.no_duplicates(),
    ensures
        distinct(s) == s,
    decreases s.len(),
{
    if s.len() > 0 {
        let front = s.drop_last();
        lemma_distinct_of_distinct(front);
        if front.contains(s.last()) {
            let i = choose|i: int| 0 <= i < front.len() && front[i] == s.last();
            assert(s[i] == s[s.len() - 1]);
        }
        assert(front.push(s.last()) =~= s);
    }
}

/// What metadata is.
pub struct MetadataView {
    pub content_type: Seq<char>,
    pub content_encoding: Seq<char>,
    pub content_language: Seq<char>,
    pub size: u64,
    pub labels: Seq<LabelView>,
    pub offset_map: Seq<char>,
}

/// The labels as records of two texts.
pub open spec fn label_pairs(ls: Seq<LabelView>) -> Seq<(Seq<char>, Seq<char>)> {
    Seq::new(ls.len(), |i: int| (ls[i].name, ls[i].value))
}

/// The records of two texts as labels.
pub open spec fn pair_labels(ps: Seq<(Seq<char>, Seq<char>)>) -> Seq<LabelView> {
    Seq::new(ps.len(), |i: int| LabelView { name: ps[i].0, value: ps[i].1 })
}

/// The views of some labels.
pub open spec fn label_views(ls: Seq<Label>) -> Seq<LabelView> {
    Seq::new(ls.len(), |i: int| ls[i]@)
}

impl MetadataView {
    /// The binary form of metadata: a record of six fields, in this order.
    #[verifier::opaque]
    pub open spec fn bytes(self) -> Seq<u8> {
        let t6 = field("offset_map"@, self.offset_map, Seq::empty());
        let t5 = listed("labels"@, "name"@, "value"@, label_pairs(self.labels), t6);
        let t4 = number("size"@, self.size, t5);
        let t3 = field("content_language"@, self.content_language, t4);
        let t2 = field("content_encoding"@, self.content_encoding, t3);
        let t1 = field("content_type"@, self.content_type, t2);
        head(MAJOR_RECORD, 6) + t1
    }

    /// Whether every part is short enough to be written.
    pub open spec fn writable(self) -> bool {
        &&& encode_utf8(self.content_type).len() <= u64::MAX
        &&& encode_utf8(self.content_encoding).len() <= u64::MAX
        &&& encode_utf8(self.content_language).len() <= u64::MAX
        &&& encode_utf8(self.offset_map).len() <= u64::MAX
        &&& writable(label_pairs(self.labels))
    }

    /// The labels, `name=value` each, with a comma between them.
    pub open spec fn label_text(self) -> Seq<char> {
        joined(self.labels)
    }
}

/// Labels as texts `name=value` with a comma between them.
pub open spec fn joined(ls: Seq<LabelView>) -> Seq<char>
    decreases ls.len(),
{
    if ls.len() == 0 {
        Seq::empty()
    } else if ls.len() == 1 {
        ls[0].forward()
    } else {
        joined(ls.drop_last()) + seq![','] + ls.last().forward()
    }
}

/// Reads metadata: the six fields in their order and nothing after them. The
/// labels come as they stand, repetitions included.
#[verifier::opaque]
pub open spec fn parse_metadata(b: Seq<u8>) -> Option<MetadataView> {
    let content_type = parse_field(skip_bytes(b, head(MAJOR_RECORD, 6)), "content_type"@);
    let content_encoding = parse_field(rest(content_type), "content_encoding"@);
    let content_language = parse_field(rest(content_encoding), "content_language"@);
    let size = parse_number(rest(content_language), "size"@);
    let labels = parse_pair_list(
        "name"@,
        "value"@,
        match rest(size) {
            Some(r) => skip_bytes(r, text("labels"@)),
            None => None,
        },
    );
    let offset_map = parse_field(rest(labels), "offset_map"@);
    if offset_map is Some && offset_map.unwrap().1.len() == 0 {
        Some(
            MetadataView {
                content_type: content_type.unwrap().0,
                content_encoding: content_encoding.unwrap().0,
                content_language: content_language.unwrap().0,
                size: size.unwrap().0,
                labels: pair_labels(labels.unwrap().0),
                offset_map: offset_map.unwrap().0,
            },
        )
    } else {
        None
    }
}

/// Metadata as it is taken over when read: of equal labels the first stays.
pub open spec fn as_read(v: MetadataView) -> MetadataView {
    MetadataView {
        content_type: v.content_type,
        content_encoding: v.content_encoding,
        content_language: v.content_language,
        size: v.size,
        labels: distinct(v.labels),
        offset_map: v.offset_map,
    }
}

/// What reading metadata from its binary form gives.
pub open spec fn read_metadata(b: Seq<u8>) -> Option<MetadataView> {
    match parse_metadata(b) {
        Some(v) => Some(as_read(v)),
        None => None,
    }
}

/// Metadata whose labels are a set is read back from its binary form as it
/// was written.
pub proof fn lemma_metadata_survives_storage(m: MetadataView)
    requires
        m.writable(),
        m.labels.no_duplicates(),
    ensures
        read_metadata(m.bytes()) == Some(m),
{
    lemma_metadata_round_trip(m);
    lemma_distinct_of_distinct(m.labels);
}

/// Metadata that was written is read back as it was.
pub proof fn lemma_metadata_round_trip(m: MetadataView)
    requires
        m.writable(),
    ensures
        parse_metadata(m.bytes()) == Some(m),
{
    reveal(MetadataView::bytes);
    reveal(parse_metadata);
    let t6 = field("offset_map"@, m.offset_map, Seq::empty());
    let t5 = listed("labels"@, "name"@, "value"@, label_pairs(m.labels), t6);
    let t4 = number("size"@, m.size, t5);
    let t3 = field("content_language"@, m.content_language, t4);
    let t2 = field("content_encoding"@, m.content_encoding, t3);
    let t1 = field("content_type"@, m.content_type, t2);
    lemma_skip_round_trip(head(MAJOR_RECORD, 6), t1);
    lemma_field_round_trip("content_type"@, m.content_type, t2);
    lemma_field_round_trip("content_encoding"@, m.content_encoding, t3);
    lemma_field_round_trip("content_language"@, m.content_language, t4);
    lemma_number_round_trip("size"@, m.size, t5);
    lemma_listed_round_trip("labels"@, "name"@, "value"@, label_pairs(m.labels), t6);
    lemma_field_round_trip("offset_map"@, m.offset_map, Seq::empty());
    assert(pair_labels(label_pairs(m.labels)) =~= m.labels);
}

/// The labels that a comma-separated text names: each part that holds `=` is
/// parsed as a label, every other part, an empty one too, is passed over.
pub open spec fn listed_labels(s: Seq<char>) -> Seq<LabelView>
    decreases s.len(),
{
    if s.contains(',') {
        let k = first_index_of(s, ',');
        if 0 <= k < s.len() {
            named(s.subrange(0, k)) + listed_labels(s.subrange(k + 1, s.len() as int))
        } else {
            Seq::empty()
        }
    } else {
        named(s)
    }
}

/// The label that one part of a comma-separated text names, if any.
pub open spec fn named(part: Seq<char>) -> Seq<LabelView> {
    match parse_label(part) {
        Some(l) => seq![l],
        None => Seq::empty(),
    }
}

/// Whether `labels` holds a label equal to `l`.
fn holds_label(labels: &Vec<Label>, l: &Label) -> (r: bool)
    ensures
        r == label_views(labels@).contains(l@),
{
    let mut i: usize = 0;
    while i < labels.len()
        invariant
            i <= labels@.len(),
            forall|j: int| 0 <= j < i ==> label_views(labels@)[j] != l@,
        decreases labels@.len() - i,
    {
        if labels[i].name == l.name && labels[i].value == l.value {
            proof {
                assert(label_views(labels@)[i as int] == l@);
            }
            return true;
        }
        i += 1;
    }
    false
}

/// The labels without their repetitions, the first of each kept.
pub fn dedupe(labels: Vec<Label>) -> (r: Vec<Label>)
    ensures
        label_views(r@) == distinct(label_views(labels@)),
        label_views(r@).no_duplicates(),
{
    let ghost all = label_views(labels@);
    let mut kept: Vec<Label> = Vec::new();
    let mut i: usize = 0;
    proof {
        assert(all.take(0) =~= Seq::empty());
        assert(label_views(kept@) =~= Seq::empty());
    }
    while i < labels.len()
        invariant
            i <= labels@.len(),
            all == label_views(labels@),
            label_views(kept@) == distinct(all.take(i as int)),
        decreases labels@.len() - i,
    {
        proof {
            assert(all.take(i as int + 1).drop_last() =~= all.take(i as int));
            assert(all.take(i as int + 1).last() == labels@[i as int]@);
        }
        if !holds_label(&kept, &labels[i]) {
            let ghost earlier = label_views(kept@);
            kept.push(labels[i].clone());
            proof {
                assert(label_views(kept@) =~= earlier.push(labels@[i as int]@));
            }
        }
        i += 1;
    }
    proof {
        assert(all.take(i as int) =~= all);
        lemma_distinct(all);
    }
    kept
}

/// Two pieces appended to what is written, and what follows them, is what is
/// written followed by the two pieces and what follows them.
proof fn lemma_append3(written: Seq<u8>, a: Seq<u8>, b: Seq<u8>, after: Seq<u8>)
    ensures
        written + (a + b + after) == written + a + b + after,
{
    assert(written + (a + b + after) =~= written + a + b + after);
}

/// What is known of an object's content.
#[derive(Debug)]
pub struct Metadata {
    pub(crate) content_type: String,
    pub(crate) content_encoding: String,
    pub(crate) content_language: String,
    pub(crate) size: u64,
    pub(crate) labels: Vec<Label>,
    pub(crate) offset_map: String,
}

impl View for Metadata {
    type V = MetadataView;

    closed spec fn view(&self) -> MetadataView {
        MetadataView {
            content_type: self.content_type@,
            content_encoding: self.content_encoding@,
            content_language: self.content_language@,
            size: self.size,
            labels: label_views(self.labels@),
            offset_map: self.offset_map@,
        }
    }
}

impl Clone for Metadata {
    fn clone(&self) -> (r: Self)
        ensures
            r@ == self@,
    {
        proof {
            use_type_invariant(self);
        }
        let mut labels: Vec<Label> = Vec::new();
        let mut i: usize = 0;
        while i < self.labels.len()
            invariant
                i <= self.labels@.len(),
                label_views(labels@) == label_views(self.labels@).take(i as int),
            decreases self.labels@.len() - i,
        {
            let ghost earlier = label_views(labels@);
            labels.push(self.labels[i].clone());
            proof {
                assert(label_views(labels@) =~= earlier.push(self.labels@[i as int]@));
                assert(label_views(labels@) =~= label_views(self.labels@).take(i as int + 1));
            }
            i += 1;
        }
        proof {
            assert(label_views(self.labels@).take(i as int) =~= label_views(self.labels@));
        }
        Metadata {
            content_type: self.content_type.clone(),
            content_encoding: self.content_encoding.clone(),
            content_language: self.content_language.clone(),
            size: self.size,
            labels,
            offset_map: self.offset_map.clone(),
        }
    }
}

impl Default for Metadata {
    fn default() -> (r: Self)
        ensures
            r@ == (MetadataView {
                content_type: Seq::empty(),
                content_encoding: Seq::empty(),
                content_language: Seq::empty(),
                size: 0,
                labels: Seq::empty(),
                offset_map: Seq::empty(),
            }),
    {
        let r = Metadata {
            content_type: String::new(),
            content_encoding: String::new(),
            content_language: String::new(),
            size: 0,
            labels: Vec::new(),
            offset_map: String::new(),
        };
        proof {
            assert(r@.labels =~= Seq::empty());
        }
        r
    }
}

impl Metadata {
    #[verifier::type_invariant]
    spec fn labels_are_a_set(self) -> bool {
        label_views(self.labels@).no_duplicates()
    }

    /// Metadata from its parts. Of equal labels only the first is kept.
    pub fn new(
        content_type: &str,
        content_encoding: &str,
        content_language: &str,
        size: u64,
        labels: Vec<Label>,
        offset_map: &str,
    ) -> (r: Self)
        ensures
            r@ == (MetadataView {
                content_type: content_type@,
                content_encoding: content_encoding@,
                content_language: content_language@,
                size,
                labels: distinct(label_views(labels@)),
                offset_map: offset_map@,
            }),
    {
        Metadata {
            content_type: content_type.to_owned(),
            content_encoding: content_encoding.to_owned(),
            content_language: content_language.to_owned(),
            size,
            labels: dedupe(labels),
            offset_map: offset_map.to_owned(),
        }
    }

    /// The labels that a header value names: a comma-separated list of
    /// `name=value`. Parts without `=`, empty ones too, are passed over, and
    /// of equal labels only the first is kept.
    pub fn labels_from_header(header: &str) -> (r: Vec<Label>)
        ensures
            label_views(r@) == distinct(listed_labels(header@)),
    {
        let mut found: Vec<Label> = Vec::new();
        let mut left: &str = header;
        proof {
            assert(label_views(found@) =~= Seq::empty());
            assert(Seq::<LabelView>::empty() + listed_labels(left@) =~= listed_labels(left@));
        }
        loop
            invariant_except_break
                listed_labels(header@) == label_views(found@) + listed_labels(left@),
            ensures
                listed_labels(header@) == label_views(found@),
            decreases left@.len(),
        {
            proof {
                lemma_first_index_of(left@, ',');
            }
            let ghost earlier = label_views(found@);
            match split_once(left, ',') {
                Some((part, more)) => {
                    match Label::from_str(part) {
                        Ok(l) => {
                            found.push(l);
                            proof {
                                assert(label_views(found@) =~= earlier + named(part@));
                            }
                        },
                        Err(_) => {
                            proof {
                                assert(label_views(found@) =~= earlier + named(part@));
                            }
                        },
                    }
                    proof {
                        assert(earlier + (named(part@) + listed_labels(more@)) =~= earlier + named(
                            part@,
                        ) + listed_labels(more@));
                    }
                    left = more;
                },
                None => {
                    match Label::from_str(left) {
                        Ok(l) => {
                            found.push(l);
                            proof {
                                assert(label_views(found@) =~= earlier + named(left@));
                            }
                        },
                        Err(_) => {
                            proof {
                                assert(label_views(found@) =~= earlier + named(left@));
                            }
                        },
                    }
                    break;
                },
            }
        }
        dedupe(found)
    }

    /// The type of the content.
    pub fn content_type(&self) -> (r: &String)
        ensures
            r@ == self@.content_type,
    {
        &self.content_type
    }

    /// The encoding of the content.
    pub fn content_encoding(&self) -> (r: &String)
        ensures
            r@ == self@.content_encoding,
    {
        &self.content_encoding
    }

    /// The language of the content.
    pub fn content_language(&self) -> (r: &String)
        ensures
            r@ == self@.content_language,
    {
        &self.content_language
    }

    /// The size that was declared for the content, 0 if none was.
    pub fn size(&self) -> (r: u64)
        ensures
            r == self@.size,
    {
        self.size
    }

    /// The labels, none of them twice.
    pub fn labels(&self) -> (r: &Vec<Label>)
        ensures
            label_views(r@) == self@.labels,
            self@.labels.no_duplicates(),
    {
        proof {
            use_type_invariant(self);
        }
        &self.labels
    }

    /// The description of the content's inner structure.
    pub fn offset_map(&self) -> (r: &String)
        ensures
            r@ == self@.offset_map,
    {
        &self.offset_map
    }

    /// The labels as one text: `name=value` each, with a comma between them.
    pub fn label_str(&self) -> (r: String)
        ensures
            r@ == self@.label_text(),
    {
        let mut s = String::new();
        let mut i: usize = 0;
        proof {
            assert(label_views(self.labels@).take(0) =~= Seq::empty());
        }
        while i < self.labels.len()
            invariant
                i <= self.labels@.len(),
                s@ == joined(label_views(self.labels@).take(i as int)),
            decreases self.labels@.len() - i,
        {
            proof {
                let all = label_views(self.labels@);
                assert(all.take(i as int + 1).drop_last() =~= all.take(i as int));
                assert(all.take(i as int + 1).last() == self.labels@[i as int]@);
                reveal_strlit(",");
                assert(","@ =~= seq![',']);
                assert(Seq::<char>::empty() + self.labels@[i as int]@.forward()
                    =~= self.labels@[i as int]@.forward());
            }
            if i > 0 {
                s.append(",");
            }
            let piece = self.labels[i].to_fwd();
            s.append(piece.as_str());
            i += 1;
        }
        proof {
            assert(label_views(self.labels@).take(i as int) =~= label_views(self.labels@));
        }
        s
    }

    /// Appends the labels as a list of records under the key `labels`.
    fn write_labels(&self, out: &mut Vec<u8>)
        ensures
            final(out)@ == old(out)@ + text("labels"@) + pair_list(
                "name"@,
                "value"@,
                label_pairs(self@.labels),
            ),
            writable(label_pairs(self@.labels)),
    {
        let ghost all = label_pairs(self@.labels);
        write_text(out, "labels");
        write_head(out, MAJOR_LIST, self.labels.len() as u64);
        let ghost opened = out@;
        let mut i: usize = 0;
        proof {
            assert(all.take(0) =~= Seq::empty());
            assert(out@ =~= opened + pairs("name"@, "value"@, all.take(0)));
        }
        while i < self.labels.len()
            invariant
                i <= self.labels@.len(),
                all == label_pairs(self@.labels),
                out@ == opened + pairs("name"@, "value"@, all.take(i as int)),
                forall|j: int| 0 <= j < i ==> #[trigger] crate::cbor::short(all[j]),
            decreases self.labels@.len() - i,
        {
            proof {
                assert(all.take(i as int + 1).drop_last() =~= all.take(i as int));
                assert(all.take(i as int + 1).last() == (
                    self.labels@[i as int].name@,
                    self.labels@[i as int].value@,
                ));
            }
            write_pair(
                out,
                "name",
                "value",
                self.labels[i].name.as_str(),
                self.labels[i].value.as_str(),
            );
            proof {
                assert(out@ =~= opened + pairs("name"@, "value"@, all.take(i as int + 1)));
            }
            i += 1;
        }
        proof {
            assert(all.take(i as int) =~= all);
            assert(out@ =~= old(out)@ + text("labels"@) + pair_list("name"@, "value"@, all));
        }
    }

    /// The binary form of this metadata, from which it can be read back.
    pub fn write(&self) -> (r: Vec<u8>)
        ensures
            r@ == self@.bytes(),
            self@.writable(),
            self@.labels.no_duplicates(),
            read_metadata(r@) == Some(self@),
    {
        proof {
            use_type_invariant(self);
        }
        let ghost m = self@;
        let ghost t6 = field("offset_map"@, m.offset_map, Seq::empty());
        let ghost t5 = listed("labels"@, "name"@, "value"@, label_pairs(m.labels), t6);
        let ghost t4 = number("size"@, m.size, t5);
        let ghost t3 = field("content_language"@, m.content_language, t4);
        let ghost t2 = field("content_encoding"@, m.content_encoding, t3);
        let ghost t1 = field("content_type"@, m.content_type, t2);
        let mut out: Vec<u8> = Vec::new();
        write_head(&mut out, MAJOR_RECORD, 6);
        let ghost o0 = out@;
        proof {
            reveal(MetadataView::bytes);
            assert(o0 =~= head(MAJOR_RECORD, 6));
        }
        write_text(&mut out, "content_type");
        write_text(&mut out, self.content_type.as_str());
        let ghost o1 = out@;
        proof {
            lemma_append3(o0, text("content_type"@), text(m.content_type), t2);
        }
        write_text(&mut out, "content_encoding");
        write_text(&mut out, self.content_encoding.as_str());
        let ghost o2 = out@;
        proof {
            lemma_append3(o1, text("content_encoding"@), text(m.content_encoding), t3);
        }
        write_text(&mut out, "content_language");
        write_text(&mut out, self.content_language.as_str());
        let ghost o3 = out@;
        proof {
            lemma_append3(o2, text("content_language"@), text(m.content_language), t4);
        }
        write_text(&mut out, "size");
        write_head(&mut out, MAJOR_UINT, self.size);
        let ghost o4 = out@;
        proof {
            lemma_append3(o3, text("size"@), head(MAJOR_UINT, m.size), t5);
        }
        self.write_labels(&mut out);
        let ghost o5 = out@;
        proof {
            lemma_append3(
                o4,
                text("labels"@),
                pair_list("name"@, "value"@, label_pairs(m.labels)),
                t6,
            );
        }
        write_text(&mut out, "offset_map");
        write_text(&mut out, self.offset_map.as_str());
        proof {
            lemma_append3(o5, text("offset_map"@), text(m.offset_map), Seq::empty());
            assert(out@ + Seq::<u8>::empty() =~= out@);
            lemma_metadata_survives_storage(m);
        }
        out
    }

    /// Reads metadata from its binary form, if `b` is one. Of equal labels
    /// only the first is kept.
    pub fn read(b: &[u8]) -> (r: Option<Self>)
        ensures
            match r {
                Some(m) => read_metadata(b@) == Some(m@),
                None => read_metadata(b@) is None,
            },
    {
        proof {
            reveal(parse_metadata);
            assert(b@.skip(0) =~= b@);
        }
        let mut opening: Vec<u8> = Vec::new();
        write_head(&mut opening, MAJOR_RECORD, 6);
        proof {
            assert(opening@ =~= head(MAJOR_RECORD, 6));
        }
        let opened = match read_skip(b, 0, opening.as_slice()) {
            Some(p) => p,
            None => {
                return None;
            },
        };
        let (content_type, after_type) = match read_field(b, opened, "content_type") {
            Some(f) => f,
            None => {
                return None;
            },
        };
        let (content_encoding, after_encoding) = match read_field(b, after_type, "content_encoding") {
            Some(f) => f,
            None => {
                return None;
            },
        };
        let (content_language, after_language) = match read_field(b, after_encoding, "content_language") {
            Some(f) => f,
            None => {
                return None;
            },
        };
        let (size, after_size) = match read_number(b, after_language, "size") {
            Some(f) => f,
            None => {
                return None;
            },
        };
        let mut key: Vec<u8> = Vec::new();
        write_text(&mut key, "labels");
        proof {
            assert(key@ =~= text("labels"@));
        }
        let at_labels = match read_skip(b, after_size, key.as_slice()) {
            Some(p) => p,
            None => {
                return None;
            },
        };
        let (pairs, after_labels) = match read_pair_list(b, at_labels, "name", "value") {
            Some(f) => f,
            None => {
                return None;
            },
        };
        let (offset_map, end) = match read_field(b, after_labels, "offset_map") {
            Some(f) => f,
            None => {
                return None;
            },
        };
        if end != b.len() {
            return None;
        }
        let mut labels: Vec<Label> = Vec::new();
        let mut i: usize = 0;
        let ghost wanted = pair_labels(texts(pairs@));
        proof {
            assert(label_views(labels@) =~= wanted.take(0));
        }
        while i < pairs.len()
            invariant
                i <= pairs@.len(),
                wanted == pair_labels(texts(pairs@)),
                label_views(labels@) == wanted.take(i as int),
            decreases pairs@.len() - i,
        {
            let ghost earlier = label_views(labels@);
            labels.push(Label { name: pairs[i].0.clone(), value: pairs[i].1.clone() });
            proof {
                assert(label_views(labels@) =~= earlier.push(wanted[i as int]));
                assert(label_views(labels@) =~= wanted.take(i as int + 1));
            }
            i += 1;
        }
        proof {
            assert(wanted.take(i as int) =~= wanted);
            assert(b@.skip(end as int).len() == 0);
        }
        Some(
            Metadata {
                content_type,
                content_encoding,
                content_language,
                size,
                labels: dedupe(labels),
                offset_map,
            },
        )
    }
}

impl ToFromMauve for Metadata {
    open spec fn has_form(&self) -> bool {
        true
    }

    open spec fn object_bytes(&self) -> Seq<u8> {
        self@.bytes()
    }

    open spec fn readable(b: Seq<u8>) -> bool {
        read_metadata(b) is Some
    }

    open spec fn read_as(b: Seq<u8>, value: &Self) -> bool {
        read_metadata(b) == Some(value@)
    }

    /// The binary form of this metadata.
    fn to_object(&self) -> (r: Result<Vec<u8>, MauveError>) {
        Ok(self.write())
    }

    /// Reads metadata from its binary form. Of equal labels only the first is
    /// kept. Bytes that are not the binary form of metadata are refused as
    /// `CborError`.
    fn from_object(b: Vec<u8>) -> (r: Result<Self, MauveError>)
        ensures
            r is Err ==> r matches Err(MauveError::CborError(_)),
    {
        match Self::read(b.as_slice()) {
            Some(m) => Ok(m),
            None => Err(MauveError::CborError("not the binary form of metadata".to_owned())),
        }
    }
}

/// An object together with its metadata.
#[derive(Debug)]
pub struct ObjectWithMetadata {
    pub object: Vec<u8>,
    pub meta: Metadata,
}

impl ObjectWithMetadata {
    /// An object beside its metadata.
    pub fn new(object: Vec<u8>, meta: Metadata) -> (r: Self)
        ensures
            r.object == object,
            r.meta == meta,
    {
        Self { object, meta }
    }

    /// The bytes of the object.
    pub fn object(&self) -> (r: &Vec<u8>)
        ensures
            *r == self.object,
    {
        &self.object
    }

    /// The metadata of the object.
    pub fn meta(&self) -> (r: &Metadata)
        ensures
            *r == self.meta,
    {
        &self.meta
    }
}

} // verus!
