//! Running a label search on a collection: the postings of the terms are
//! gathered in two sets, what is asked for and what is left out, and the
//! objects in the first and not in the second are answered with their
//! metadata.

use vstd::prelude::*;
use vstd::utf8::*;
use dashmap::DashSet;
use crate::backend::Backend;
use crate::collection::Collection;
use crate::errors::{CollectionError, MauveError};
use crate::labels::{Label, LabelView};
use crate::meta::read_metadata;
use crate::objects::{decode_posting, parse_posting, ref_views, ObjectRef, ObjectRefView};
use crate::search::{FoundObject, SearchLabel, SearchLabelView, SearchRequest, SearchResponse};

verus! {

/// `dashmap::DashSet`, taken as it is: nothing is known of a set but what
/// `set_refs` says it holds.
#[verifier::external_type_specification]
#[verifier::external_body]
#[verifier::reject_recursive_types(K)]
#[verifier::reject_recursive_types(S)]
pub struct ExDashSet<K, S>(DashSet<K, S>);

/// The members of a set of references, each a pair of collection and name.
/// A set is changed only through a unique reference to it, so that what it
/// holds goes with its value.
pub uninterp spec fn set_refs(s: DashSet<(String, String)>) -> Set<(Seq<char>, Seq<char>)>;

/// `DashSet::new`: a set without members.
#[verifier::external_body]
fn refs_new() -> (r: DashSet<(String, String)>)
    ensures
        set_refs(r) =~= Set::empty(),
{
    DashSet::new()
}

/// `DashSet::insert`: the set gets the member, and the result says whether it
/// was not there before.
#[verifier::external_body]
fn refs_insert(s: &mut DashSet<(String, String)>, collection: String, name: String) -> (r: bool)
    ensures
        set_refs(*final(s)) == set_refs(*old(s)).insert((collection@, name@)),
        r == !set_refs(*old(s)).contains((collection@, name@)),
{
    s.insert((collection, name))
}

/// `DashSet::contains`: whether the set has the member.
#[verifier::external_body]
fn refs_contains(s: &DashSet<(String, String)>, collection: &String, name: &String) -> (r: bool)
    ensures
        r == set_refs(*s).contains((collection@, name@)),
{
    s.contains(&(collection.clone(), name.clone()))
}

/// `DashSet::iter`: every member of the set once, in no stated order.
#[verifier::external_body]
fn refs_members(s: &DashSet<(String, String)>) -> (r: Vec<(String, String)>)
    ensures
        forall|i: int, j: int| 0 <= i < j < r@.len() ==> pair_view(r@[i]) != pair_view(r@[j]),
        forall|p: (Seq<char>, Seq<char>)|
            set_refs(*s).contains(p) <==> exists|i: int|
                0 <= i < r@.len() && pair_view(#[trigger] r@[i]) == p,
{
    s.iter().map(|member| member.key().clone()).collect()
}

/// The texts of a pair of strings.
pub open spec fn pair_view(p: (String, String)) -> (Seq<char>, Seq<char>) {
    (p.0@, p.1@)
}

/// A reference as a pair of collection and name.
pub open spec fn as_pair(r: ObjectRefView) -> (Seq<char>, Seq<char>) {
    (r.collection, r.name)
}

/// The references of a posting as a set of pairs.
pub open spec fn pairs_of(refs: Seq<ObjectRefView>) -> Set<(Seq<char>, Seq<char>)> {
    Set::new(
        |p: (Seq<char>, Seq<char>)|
            refs.contains(ObjectRefView { collection: p.0, name: p.1 }),
    )
}

/// The posting of a label in a forward index: empty where there is none,
/// `None` where it cannot be read.
pub open spec fn posting_at(index: Map<Seq<u8>, Seq<u8>>, label: LabelView) -> Option<
    Seq<ObjectRefView>,
> {
    if index.contains_key(encode_utf8(label.forward())) {
        parse_posting(index[encode_utf8(label.forward())])
    } else {
        Some(Seq::empty())
    }
}

/// The objects that an index gives for a label: those of its posting, none
/// where there is no posting or it cannot be read.
pub open spec fn tagged(index: Map<Seq<u8>, Seq<u8>>, label: LabelView) -> Set<
    (Seq<char>, Seq<char>),
> {
    match posting_at(index, label) {
        Some(refs) => pairs_of(refs),
        None => Set::empty(),
    }
}

/// The objects that the terms of a search ask for: those tagged with any
/// label that is included.
pub open spec fn included(index: Map<Seq<u8>, Seq<u8>>, terms: Seq<SearchLabelView>) -> Set<
    (Seq<char>, Seq<char>),
>
    decreases terms.len(),
{
    if terms.len() == 0 {
        Set::empty()
    } else {
        let before = included(index, terms.drop_last());
        match terms.last() {
            SearchLabelView::Include(l) => before.union(tagged(index, l)),
            SearchLabelView::Exclude(_) => before,
        }
    }
}

/// The objects that the terms of a search leave out: those tagged with any
/// label that is excluded.
pub open spec fn excluded(index: Map<Seq<u8>, Seq<u8>>, terms: Seq<SearchLabelView>) -> Set<
    (Seq<char>, Seq<char>),
>
    decreases terms.len(),
{
    if terms.len() == 0 {
        Set::empty()
    } else {
        let before = excluded(index, terms.drop_last());
        match terms.last() {
            SearchLabelView::Include(_) => before,
            SearchLabelView::Exclude(l) => before.union(tagged(index, l)),
        }
    }
}

/// The objects that a search finds: those asked for and not left out.
pub open spec fn hits(index: Map<Seq<u8>, Seq<u8>>, terms: Seq<SearchLabelView>) -> Set<
    (Seq<char>, Seq<char>),
> {
    included(index, terms).difference(excluded(index, terms))
}

/// Whether `found` answers a search with the hits `wanted`: each hit is there
/// once, nothing else is, and each comes with the metadata stored under its
/// name.
pub open spec fn answers(
    found: Seq<FoundObject>,
    wanted: Set<(Seq<char>, Seq<char>)>,
    meta: Map<Seq<u8>, Seq<u8>>,
) -> bool {
    &&& forall|i: int, j: int|
        0 <= i < j < found.len() ==> (#[trigger] found[i]).object@ != (#[trigger] found[j]).object@
    &&& forall|p: (Seq<char>, Seq<char>)|
        wanted.contains(p) <==> exists|i: int|
            0 <= i < found.len() && as_pair((#[trigger] found[i]).object@) == p
    &&& forall|i: int|
        0 <= i < found.len() ==> meta.contains_key(
            encode_utf8((#[trigger] found[i]).object@.name),
        ) && read_metadata(meta[encode_utf8(found[i].object@.name)]) == Some(found[i].meta@)
}

/// An object is asked for exactly if some included label tags it, and left
/// out exactly if some excluded label tags it.
pub proof fn lemma_terms(
    index: Map<Seq<u8>, Seq<u8>>,
    terms: Seq<SearchLabelView>,
    p: (Seq<char>, Seq<char>),
)
    ensures
        included(index, terms).contains(p) <==> exists|i: int|
            0 <= i < terms.len() && #[trigger] terms[i] is Include && tagged(
                index,
                terms[i]->Include_0,
            ).contains(p),
        excluded(index, terms).contains(p) <==> exists|i: int|
            0 <= i < terms.len() && #[trigger] terms[i] is Exclude && tagged(
                index,
                terms[i]->Exclude_0,
            ).contains(p),
    decreases terms.len(),
{
    if terms.len() > 0 {
        let front = terms.drop_last();
        let at = terms.len() - 1;
        lemma_terms(index, front, p);
        if included(index, front).contains(p) {
            let i = choose|i: int|
                0 <= i < front.len() && #[trigger] front[i] is Include && tagged(
                    index,
                    front[i]->Include_0,
                ).contains(p);
            assert(terms[i] == front[i]);
        }
        if excluded(index, front).contains(p) {
            let i = choose|i: int|
                0 <= i < front.len() && #[trigger] front[i] is Exclude && tagged(
                    index,
                    front[i]->Exclude_0,
                ).contains(p);
            assert(terms[i] == front[i]);
        }
        if exists|i: int|
            0 <= i < terms.len() && #[trigger] terms[i] is Include && tagged(
                index,
                terms[i]->Include_0,
            ).contains(p) {
            let i = choose|i: int|
                0 <= i < terms.len() && #[trigger] terms[i] is Include && tagged(
                    index,
                    terms[i]->Include_0,
                ).contains(p);
            if i < at {
                assert(front[i] == terms[i]);
            }
        }
        if exists|i: int|
            0 <= i < terms.len() && #[trigger] terms[i] is Exclude && tagged(
                index,
                terms[i]->Exclude_0,
            ).contains(p) {
            let i = choose|i: int|
                0 <= i < terms.len() && #[trigger] terms[i] is Exclude && tagged(
                    index,
                    terms[i]->Exclude_0,
                ).contains(p);
            if i < at {
                assert(front[i] == terms[i]);
            }
        }
    }
}

/// A search that includes two labels and excludes a third finds the objects
/// tagged with the first or the second and not with the third.
pub proof fn lemma_search_composition(
    index: Map<Seq<u8>, Seq<u8>>,
    first: LabelView,
    second: LabelView,
    third: LabelView,
)
    ensures
        hits(
            index,
            seq![
                SearchLabelView::Include(first),
                SearchLabelView::Include(second),
                SearchLabelView::Exclude(third),
            ],
        ) == tagged(index, first).union(tagged(index, second)).difference(tagged(index, third)),
{
    let terms = seq![
        SearchLabelView::Include(first),
        SearchLabelView::Include(second),
        SearchLabelView::Exclude(third),
    ];
    let two = terms.drop_last();
    let one = two.drop_last();
    assert(one.drop_last() =~= Seq::empty());
    assert(two.last() == SearchLabelView::Include(second));
    assert(one.last() == SearchLabelView::Include(first));
    reveal_with_fuel(included, 4);
    reveal_with_fuel(excluded, 4);
    assert(included(index, terms) =~= tagged(index, first).union(tagged(index, second)));
    assert(excluded(index, terms) =~= tagged(index, third));
}

/// A search without terms finds nothing.
pub proof fn lemma_no_terms_no_hits(index: Map<Seq<u8>, Seq<u8>>)
    ensures
        hits(index, Seq::empty()) == Set::<(Seq<char>, Seq<char>)>::empty(),
{
    assert(hits(index, Seq::empty()) =~= Set::<(Seq<char>, Seq<char>)>::empty());
}

impl Collection {
    /// Puts the objects of the posting of `label` into `target` and says how
    /// many the posting holds. Where there is no posting that is none; a
    /// posting that cannot be read is reported as `CborError`.
    pub fn search_label(&self, label: Label, target: &mut DashSet<(String, String)>) -> (r: Result<
        usize,
        MauveError,
    >)
        ensures
            match posting_at(self.index_fwd@, label@) {
                Some(refs) => r == Ok::<usize, MauveError>(refs.len() as usize) && set_refs(
                    *final(target),
                ) == set_refs(*old(target)).union(pairs_of(refs)),
                None => r matches Err(MauveError::CborError(_)) && set_refs(*final(target))
                    == set_refs(*old(target)),
            },
    {
        let key = label.to_fwd();
        let bytes = match self.index_fwd.get(key.as_str().as_bytes()) {
            Some(bytes) => bytes,
            None => {
                proof {
                    assert(set_refs(*old(target)).union(pairs_of(Seq::empty())) =~= set_refs(
                        *old(target),
                    ));
                }
                return Ok(0);
            },
        };
        let refs = match decode_posting(bytes.as_slice()) {
            Some(refs) => refs,
            None => {
                return Err(MauveError::CborError("not the binary form of a posting".to_owned()));
            },
        };
        let ghost all = ref_views(refs@);
        let mut i: usize = 0;
        proof {
            assert(set_refs(*target).union(pairs_of(all.take(0))) =~= set_refs(*target));
        }
        while i < refs.len()
            invariant
                i <= refs@.len(),
                all == ref_views(refs@),
                set_refs(*target) == set_refs(*old(target)).union(pairs_of(all.take(i as int))),
            decreases refs@.len() - i,
        {
            let ghost before = set_refs(*target);
            let _ = refs_insert(target, refs[i].collection.clone(), refs[i].name.clone());
            proof {
                let member = all[i as int];
                let shorter = all.take(i as int);
                let longer = all.take(i as int + 1);
                assert(longer =~= shorter.push(member));
                assert forall|p: (Seq<char>, Seq<char>)|
                    pairs_of(longer).contains(p) <==> pairs_of(shorter).contains(p) || p
                        == as_pair(member) by {
                    let r = ObjectRefView { collection: p.0, name: p.1 };
                    if shorter.contains(r) {
                        let k = choose|k: int| 0 <= k < shorter.len() && shorter[k] == r;
                        assert(longer[k] == r);
                    }
                    if p == as_pair(member) {
                        assert(longer[i as int] == r);
                    }
                    if longer.contains(r) {
                        let k = choose|k: int| 0 <= k < longer.len() && longer[k] == r;
                        if k < i {
                            assert(shorter[k] == r);
                        }
                    }
                }
                assert(set_refs(*target) =~= set_refs(*old(target)).union(
                    pairs_of(all.take(i as int + 1)),
                ));
            }
            i += 1;
        }
        proof {
            assert(all.take(i as int) =~= all);
        }
        Ok(refs.len())
    }
}

/// What a search in a collection gives. It finds the hits with their
/// metadata, or it fails because some hit has no metadata (`ObjectNotFound`)
/// or metadata that cannot be read (`CborError`).
pub open spec fn search_gives(
    r: Result<Vec<FoundObject>, MauveError>,
    wanted: Set<(Seq<char>, Seq<char>)>,
    meta: Map<Seq<u8>, Seq<u8>>,
) -> bool {
    match r {
        Ok(found) => answers(found@, wanted, meta),
        Err(MauveError::CollectionError(CollectionError::ObjectNotFound)) => exists|
            p: (Seq<char>, Seq<char>),
        |
            wanted.contains(p) && !meta.contains_key(#[trigger] encode_utf8(p.1)),
        Err(MauveError::CborError(_)) => exists|p: (Seq<char>, Seq<char>)|
            wanted.contains(p) && meta.contains_key(#[trigger] encode_utf8(p.1)) && read_metadata(
                meta[encode_utf8(p.1)],
            ) is None,
        Err(_) => false,
    }
}

/// What holds while the candidates are gone through: `picked` are the
/// positions, below `upto`, of the candidates that are not left out, in
/// ascending order, and `found` holds one object for each, with its metadata.
pub open spec fn picking(
    found: Seq<FoundObject>,
    picked: Seq<int>,
    cands: Seq<(Seq<char>, Seq<char>)>,
    upto: int,
    out: Set<(Seq<char>, Seq<char>)>,
    meta: Map<Seq<u8>, Seq<u8>>,
) -> bool {
    &&& 0 <= upto <= cands.len()
    &&& picked.len() == found.len()
    &&& forall|a: int| 0 <= a < picked.len() ==> 0 <= #[trigger] picked[a] < upto
    &&& forall|a: int, b: int|
        0 <= a < b < picked.len() ==> #[trigger] picked[a] < #[trigger] picked[b]
    &&& forall|a: int| 0 <= a < picked.len() ==> taken(#[trigger] found[a], cands[picked[a]], out, meta)
    &&& forall|k: int| 0 <= k < upto && !out.contains(#[trigger] cands[k]) ==> picked.contains(k)
    &&& forall|a: int, b: int|
        0 <= a < b < cands.len() ==> #[trigger] cands[a] != #[trigger] cands[b]
}

/// Whether `item` is the answer for the candidate `cand`.
pub open spec fn taken(
    item: FoundObject,
    cand: (Seq<char>, Seq<char>),
    out: Set<(Seq<char>, Seq<char>)>,
    meta: Map<Seq<u8>, Seq<u8>>,
) -> bool {
    &&& as_pair(item.object@) == cand
    &&& !out.contains(cand)
    &&& meta.contains_key(encode_utf8(item.object@.name))
    &&& read_metadata(meta[encode_utf8(item.object@.name)]) == Some(item.meta@)
}

/// Passing over a candidate that is left out.
proof fn lemma_picking_skip(
    found: Seq<FoundObject>,
    picked: Seq<int>,
    cands: Seq<(Seq<char>, Seq<char>)>,
    upto: int,
    out: Set<(Seq<char>, Seq<char>)>,
    meta: Map<Seq<u8>, Seq<u8>>,
)
    requires
        picking(found, picked, cands, upto, out, meta),
        upto < cands.len(),
        out.contains(cands[upto]),
    ensures
        picking(found, picked, cands, upto + 1, out, meta),
{
}

/// Taking a candidate that is not left out.
proof fn lemma_picking_push(
    found: Seq<FoundObject>,
    picked: Seq<int>,
    cands: Seq<(Seq<char>, Seq<char>)>,
    upto: int,
    out: Set<(Seq<char>, Seq<char>)>,
    meta: Map<Seq<u8>, Seq<u8>>,
    item: FoundObject,
)
    requires
        picking(found, picked, cands, upto, out, meta),
        upto < cands.len(),
        taken(item, cands[upto], out, meta),
    ensures
        picking(found.push(item), picked.push(upto), cands, upto + 1, out, meta),
{
    let more_found = found.push(item);
    let more_picked = picked.push(upto);
    assert forall|a: int| 0 <= a < more_picked.len() implies taken(
        #[trigger] more_found[a],
        cands[more_picked[a]],
        out,
        meta,
    ) by {
        if a < picked.len() {
            assert(more_found[a] == found[a]);
            assert(more_picked[a] == picked[a]);
        }
    }
    assert forall|k: int| 0 <= k < upto + 1 && !out.contains(#[trigger] cands[k]) implies more_picked.contains(
        k,
    ) by {
        if k < upto {
            assert(picked.contains(k));
            let a = choose|a: int| 0 <= a < picked.len() && picked[a] == k;
            assert(more_picked[a] == k);
        } else {
            assert(more_picked[picked.len() as int] == k);
        }
    }
    assert forall|a: int, b: int| 0 <= a < b < more_picked.len() implies #[trigger] more_picked[a] < #[trigger] more_picked[b] by {
        assert(more_picked[a] == picked[a]);
        if b < picked.len() {
            assert(more_picked[b] == picked[b]);
        }
    }
    assert forall|a: int| 0 <= a < more_picked.len() implies 0 <= #[trigger] more_picked[a] < upto + 1 by {
        if a < picked.len() {
            assert(more_picked[a] == picked[a]);
        }
    }
}

/// When all candidates are gone through, what was found answers the search.
proof fn lemma_picking_done(
    found: Seq<FoundObject>,
    picked: Seq<int>,
    cands: Seq<(Seq<char>, Seq<char>)>,
    out: Set<(Seq<char>, Seq<char>)>,
    meta: Map<Seq<u8>, Seq<u8>>,
    within: Set<(Seq<char>, Seq<char>)>,
)
    requires
        picking(found, picked, cands, cands.len() as int, out, meta),
        forall|p: (Seq<char>, Seq<char>)|
            within.contains(p) <==> exists|k: int| 0 <= k < cands.len() && #[trigger] cands[k] == p,
    ensures
        answers(found, within.difference(out), meta),
{
    let wanted = within.difference(out);
    assert forall|i: int, j: int| 0 <= i < j < found.len() implies (#[trigger] found[i]).object@ != (
    #[trigger] found[j]).object@ by {
        assert(taken(found[i], cands[picked[i]], out, meta));
        assert(taken(found[j], cands[picked[j]], out, meta));
        assert(picked[i] < picked[j]);
        assert(cands[picked[i]] != cands[picked[j]]);
    }
    assert forall|p: (Seq<char>, Seq<char>)| wanted.contains(p) implies exists|i: int|
        0 <= i < found.len() && as_pair((#[trigger] found[i]).object@) == p by {
        let k = choose|k: int| 0 <= k < cands.len() && #[trigger] cands[k] == p;
        assert(picked.contains(k));
        let a = choose|a: int| 0 <= a < picked.len() && picked[a] == k;
        assert(taken(found[a], cands[picked[a]], out, meta));
    }
    assert forall|p: (Seq<char>, Seq<char>)|
        (exists|i: int| 0 <= i < found.len() && as_pair((#[trigger] found[i]).object@) == p)
        implies wanted.contains(p) by {
        let i = choose|i: int| 0 <= i < found.len() && as_pair((#[trigger] found[i]).object@) == p;
        assert(taken(found[i], cands[picked[i]], out, meta));
        assert(cands[picked[i]] == p);
    }
    assert forall|i: int| 0 <= i < found.len() implies meta.contains_key(
        encode_utf8((#[trigger] found[i]).object@.name),
    ) && read_metadata(meta[encode_utf8(found[i].object@.name)]) == Some(found[i].meta@) by {
        assert(taken(found[i], cands[picked[i]], out, meta));
    }
}

impl Collection {
    /// Gathers the postings of the terms: the objects asked for in the first
    /// set, the objects left out in the second. A posting that cannot be read
    /// adds nothing.
    pub fn gather(&self, terms: &Vec<SearchLabel>) -> (r: (
        DashSet<(String, String)>,
        DashSet<(String, String)>,
    ))
        ensures
            set_refs(r.0) == included(self.index_fwd@, crate::search::term_views(terms@)),
            set_refs(r.1) == excluded(self.index_fwd@, crate::search::term_views(terms@)),
    {
        let ghost all = crate::search::term_views(terms@);
        let ghost index = self.index_fwd@;
        let mut includes = refs_new();
        let mut excludes = refs_new();
        let mut i: usize = 0;
        proof {
            assert(all.take(0) =~= Seq::empty());
        }
        while i < terms.len()
            invariant
                i <= terms@.len(),
                all == crate::search::term_views(terms@),
                index == self.index_fwd@,
                set_refs(includes) == included(index, all.take(i as int)),
                set_refs(excludes) == excluded(index, all.take(i as int)),
            decreases terms@.len() - i,
        {
            proof {
                assert(all.take(i as int + 1).drop_last() =~= all.take(i as int));
                assert(all.take(i as int + 1).last() == terms@[i as int]@);
            }
            match &terms[i] {
                SearchLabel::Include(l) => {
                    let _ = self.search_label(l.clone(), &mut includes);
                    proof {
                        assert(set_refs(includes) =~= included(index, all.take(i as int + 1)));
                    }
                },
                SearchLabel::Exclude(l) => {
                    let _ = self.search_label(l.clone(), &mut excludes);
                    proof {
                        assert(set_refs(excludes) =~= excluded(index, all.take(i as int + 1)));
                    }
                },
            }
            i += 1;
        }
        proof {
            assert(all.take(i as int) =~= all);
        }
        (includes, excludes)
    }

    /// Answers with the objects that are in `includes` and not in `excludes`,
    /// each with its metadata. The first of them without metadata that can be
    /// read ends the search with its error.
    pub fn answer(
        &self,
        includes: &DashSet<(String, String)>,
        excludes: &DashSet<(String, String)>,
    ) -> (r: Result<Vec<FoundObject>, MauveError>)
        ensures
            search_gives(r, set_refs(*includes).difference(set_refs(*excludes)), self.meta@),
    {
        let ghost out = set_refs(*excludes);
        let ghost meta = self.meta@;
        let candidates = refs_members(includes);
        let ghost cands = Seq::new(candidates@.len(), |k: int| pair_view(candidates@[k]));
        let mut found: Vec<FoundObject> = Vec::new();
        let ghost mut picked: Seq<int> = Seq::empty();
        let mut i: usize = 0;
        proof {
            assert forall|p: (Seq<char>, Seq<char>)| set_refs(*includes).contains(p) implies exists|
                k: int,
            |
                0 <= k < cands.len() && #[trigger] cands[k] == p by {
                let k = choose|k: int|
                    0 <= k < candidates@.len() && pair_view(#[trigger] candidates@[k]) == p;
                assert(cands[k] == p);
            }
            assert forall|k: int| 0 <= k < cands.len() implies set_refs(*includes).contains(
                #[trigger] cands[k],
            ) by {
                assert(pair_view(candidates@[k]) == cands[k]);
            }
        }
        while i < candidates.len()
            invariant
                i <= candidates@.len(),
                meta == self.meta@,
                out == set_refs(*excludes),
                cands == Seq::new(candidates@.len(), |k: int| pair_view(candidates@[k])),
                picking(found@, picked, cands, i as int, out, meta),
                forall|k: int|
                    0 <= k < cands.len() ==> set_refs(*includes).contains(#[trigger] cands[k]),
            decreases candidates@.len() - i,
        {
            let ghost here = cands[i as int];
            if refs_contains(excludes, &candidates[i].0, &candidates[i].1) {
                proof {
                    lemma_picking_skip(found@, picked, cands, i as int, out, meta);
                }
            } else {
                let object = ObjectRef {
                    collection: candidates[i].0.clone(),
                    name: candidates[i].1.clone(),
                };
                let data = match self.get_object_metadata(object.name.as_str()) {
                    Ok(data) => data,
                    Err(e) => {
                        proof {
                            assert(encode_utf8(here.1) == encode_utf8(object.name@));
                            assert(set_refs(*includes).difference(out).contains(here));
                        }
                        return Err(e);
                    },
                };
                let ghost earlier = found@;
                let item = FoundObject::new(object, data);
                found.push(item);
                proof {
                    lemma_picking_push(earlier, picked, cands, i as int, out, meta, found@.last());
                    assert(found@ =~= earlier.push(found@.last()));
                    picked = picked.push(i as int);
                }
            }
            i += 1;
        }
        proof {
            lemma_picking_done(found@, picked, cands, out, meta, set_refs(*includes));
        }
        Ok(found)
    }

    /// Searches the collection: the objects tagged with an included label and
    /// with no excluded one, each with its metadata.
    pub fn search(&self, terms: &Vec<SearchLabel>) -> (r: Result<Vec<FoundObject>, MauveError>)
        ensures
            search_gives(
                r,
                hits(self.index_fwd@, crate::search::term_views(terms@)),
                self.meta@,
            ),
    {
        let (includes, excludes) = self.gather(terms);
        self.answer(&includes, &excludes)
    }
}

impl Backend {
    /// Answers a search. Where the collection does not exist the search fails
    /// at once with `ObjectNotFound`; otherwise it is the search in that
    /// collection.
    pub fn perform_search(&self, req: SearchRequest) -> (r: Result<SearchResponse, MauveError>)
        ensures
            !self@.has(req@.collection) ==> r matches Err(
                MauveError::CollectionError(CollectionError::ObjectNotFound),
            ),
            self@.has(req@.collection) ==> match r {
                Ok(response) => response.req == req && response.result is Ok && answers(
                    response.result->Ok_0@,
                    hits(self@.collection(req@.collection).index_fwd, req@.labels),
                    self@.collection(req@.collection).meta,
                ),
                Err(e) => search_gives(
                    Err(e),
                    hits(self@.collection(req@.collection).index_fwd, req@.labels),
                    self@.collection(req@.collection).meta,
                ),
            },
    {
        let collection = match self.collection(req.collection.as_str()) {
            Some(collection) => collection,
            None => {
                return Err(MauveError::CollectionError(CollectionError::ObjectNotFound));
            },
        };
        let found = match collection.search(&req.labels) {
            Ok(found) => found,
            Err(e) => {
                return Err(e);
            },
        };
        let mut response = SearchResponse::new(req);
        response.set_ok(found);
        Ok(response)
    }
}

} // verus!
