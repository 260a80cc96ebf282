//! What the indexer brings about: after it has dealt with the event of an
//! object, the postings of the object's labels hold the object as they
//! should, every other posting is as it was, and no posting is empty.

use vstd::prelude::*;
use vstd::utf8::*;
use crate::cbor::{short, writable};
use crate::collection::CollectionView;
use crate::indexer::{
    after_change, after_downsert, after_event, after_labels, after_upsert,
    other_than, without, Outcome,
};
use crate::labels::LabelView;
use crate::meta::{as_read, lemma_distinct, parse_metadata, read_metadata};
use crate::objects::{
    lemma_posting_round_trip, parse_posting, posting_bytes, ref_pairs, ObjectRefView,
};
use crate::search::search::{as_pair, hits, lemma_terms, tagged};
use crate::search::SearchLabelView;

verus! {

/// The references of the posting under `key`, none where there is no posting
/// or it cannot be read.
pub open spec fn refs_at(index: Map<Seq<u8>, Seq<u8>>, key: Seq<u8>) -> Seq<ObjectRefView> {
    if index.contains_key(key) {
        match parse_posting(index[key]) {
            Some(refs) => refs,
            None => Seq::empty(),
        }
    } else {
        Seq::empty()
    }
}

/// Whether the posting under `key`, if there is one, can be read, is not
/// empty, and can be written again.
pub open spec fn sound_at(index: Map<Seq<u8>, Seq<u8>>, key: Seq<u8>) -> bool {
    index.contains_key(key) ==> {
        &&& parse_posting(index[key]) is Some
        &&& refs_at(index, key).len() > 0
        &&& writable(ref_pairs(refs_at(index, key)))
    }
}

/// Whether every posting of an index has room for one reference more.
pub open spec fn roomy(index: Map<Seq<u8>, Seq<u8>>) -> bool {
    forall|key: Seq<u8>| (#[trigger] refs_at(index, key)).len() < u64::MAX
}

/// Whether every posting of an index is sound: the index has no empty
/// posting and none that cannot be read.
pub open spec fn sound(index: Map<Seq<u8>, Seq<u8>>) -> bool {
    forall|key: Seq<u8>| #[trigger] sound_at(index, key)
}

/// Whether no posting of an index holds a reference twice.
pub open spec fn tidy(index: Map<Seq<u8>, Seq<u8>>) -> bool {
    forall|key: Seq<u8>| (#[trigger] refs_at(index, key)).no_duplicates()
}

/// How often a reference stands in a posting.
pub open spec fn occurrences(refs: Seq<ObjectRefView>, target: ObjectRefView) -> nat
    decreases refs.len(),
{
    if refs.len() == 0 {
        0
    } else if refs.last() == target {
        occurrences(refs.drop_last(), target) + 1
    } else {
        occurrences(refs.drop_last(), target)
    }
}

/// A reference that is not in a posting stands in it no time.
pub proof fn lemma_absent_occurs_never(refs: Seq<ObjectRefView>, target: ObjectRefView)
    requires
        !refs.contains(target),
    ensures
        occurrences(refs, target) == 0,
    decreases refs.len(),
{
    if refs.len() > 0 {
        assert(refs[refs.len() - 1] != target);
        assert forall|i: int| 0 <= i < refs.drop_last().len() implies refs.drop_last()[i]
            != target by {
            assert(refs[i] != target);
        }
        lemma_absent_occurs_never(refs.drop_last(), target);
    }
}

/// A reference put at the end of a posting stands in it once more.
pub proof fn lemma_push_occurs_once_more(refs: Seq<ObjectRefView>, target: ObjectRefView)
    ensures
        occurrences(refs.push(target), target) == occurrences(refs, target) + 1,
{
    assert(refs.push(target).drop_last() =~= refs);
}

/// The key of a label in the forward index.
pub open spec fn fwd_key(l: LabelView) -> Seq<u8> {
    encode_utf8(l.forward())
}

/// The key of a label in the reverse index.
pub open spec fn rev_key(l: LabelView) -> Seq<u8> {
    encode_utf8(l.reverse())
}

/// Whether the labels have different keys in each of the two indexes.
pub open spec fn keys_apart(labels: Seq<LabelView>) -> bool {
    forall|i: int, j: int|
        0 <= i < j < labels.len() ==> fwd_key(#[trigger] labels[i]) != fwd_key(
            #[trigger] labels[j],
        ) && rev_key(labels[i]) != rev_key(labels[j])
}

/// Different labels whose names hold no `=` have different keys in each of
/// the two indexes.
pub proof fn lemma_keys_apart(a: LabelView, b: LabelView)
    requires
        a != b,
        !a.name.contains('='),
        !b.name.contains('='),
    ensures
        fwd_key(a) != fwd_key(b),
        rev_key(a) != rev_key(b),
{
    encode_utf8_decode_utf8(a.forward());
    encode_utf8_decode_utf8(b.forward());
    encode_utf8_decode_utf8(a.reverse());
    encode_utf8_decode_utf8(b.reverse());
    if a.forward() == b.forward() {
        let x = a.forward();
        let y = b.forward();
        let la = a.name.len() as int;
        let lb = b.name.len() as int;
        if la < lb {
            assert(x[la] == '=');
            assert(y[la] == b.name[la]);
            assert(b.name.contains('='));
        } else if lb < la {
            assert(y[lb] == '=');
            assert(x[lb] == a.name[lb]);
            assert(a.name.contains('='));
        } else {
            assert(a.name =~= x.subrange(0, la));
            assert(b.name =~= y.subrange(0, la));
            assert(a.value =~= x.subrange(la + 1, x.len() as int));
            assert(b.value =~= y.subrange(la + 1, y.len() as int));
        }
    }
    if a.reverse() == b.reverse() {
        let x = a.reverse();
        let y = b.reverse();
        let n = x.len() as int;
        let la = a.name.len() as int;
        let lb = b.name.len() as int;
        if la < lb {
            assert(x[n - la - 1] == '=');
            assert(y[n - la - 1] == b.name[lb - la - 1]);
            assert(b.name.contains('='));
        } else if lb < la {
            assert(y[n - lb - 1] == '=');
            assert(x[n - lb - 1] == a.name[la - lb - 1]);
            assert(a.name.contains('='));
        } else {
            assert(a.name =~= x.subrange(n - la, n));
            assert(b.name =~= y.subrange(n - la, n));
            assert(a.value =~= x.subrange(0, n - la - 1));
            assert(b.value =~= y.subrange(0, n - la - 1));
        }
    }
}

/// Labels of which none stands twice and whose names hold no `=` have
/// different keys in each of the two indexes.
pub proof fn lemma_labels_keys_apart(labels: Seq<LabelView>)
    requires
        labels.no_duplicates(),
        forall|i: int| 0 <= i < labels.len() ==> !(#[trigger] labels[i]).name.contains('='),
    ensures
        keys_apart(labels),
{
    assert forall|i: int, j: int| 0 <= i < j < labels.len() implies fwd_key(#[trigger] labels[i])
        != fwd_key(#[trigger] labels[j]) && rev_key(labels[i]) != rev_key(labels[j]) by {
        lemma_keys_apart(labels[i], labels[j]);
    }
}

/// What adding a reference to one posting does: the posting under the key is
/// the old one with the reference at its end, it is sound, and every other
/// posting is as it was.
pub proof fn lemma_upsert(
    index: Map<Seq<u8>, Seq<u8>>,
    key: Seq<u8>,
    target: ObjectRefView,
)
    requires
        sound_at(index, key),
        refs_at(index, key).len() < u64::MAX,
        short(as_pair(target)),
    ensures
        after_upsert(index, key, target) == Some(
            index.insert(key, posting_bytes(refs_at(index, key).push(target))),
        ),
        parse_posting(posting_bytes(refs_at(index, key).push(target))) == Some(
            refs_at(index, key).push(target),
        ),
        writable(ref_pairs(refs_at(index, key).push(target))),
{
    let refs = refs_at(index, key);
    let more = refs.push(target);
    assert(ref_pairs(more) =~= ref_pairs(refs).push(as_pair(target)));
    assert(writable(ref_pairs(more))) by {
        assert forall|i: int| 0 <= i < ref_pairs(more).len() implies #[trigger] short(
            ref_pairs(more)[i],
        ) by {
            if i < refs.len() {
                assert(ref_pairs(more)[i] == ref_pairs(refs)[i]);
                if index.contains_key(key) {
                    assert(short(ref_pairs(refs)[i]));
                }
            }
        }
    }
    lemma_posting_round_trip(more);
    if !index.contains_key(key) {
        assert(more =~= seq![target]);
    }
}

/// What taking a reference out of one posting does. A posting of one goes; a
/// longer one in which no reference stands twice keeps the others and is
/// sound. Every other posting is as it was.
pub proof fn lemma_downsert(
    index: Map<Seq<u8>, Seq<u8>>,
    key: Seq<u8>,
    target: ObjectRefView,
)
    requires
        sound_at(index, key),
        refs_at(index, key).no_duplicates(),
    ensures
        after_downsert(index, key, target) == Some(
            if !index.contains_key(key) {
                index
            } else if refs_at(index, key).len() == 1 {
                index.remove(key)
            } else {
                index.insert(key, posting_bytes(without(refs_at(index, key), target)))
            },
        ),
        refs_at(index, key).len() > 1 ==> {
            &&& parse_posting(posting_bytes(without(refs_at(index, key), target))) == Some(
                without(refs_at(index, key), target),
            )
            &&& without(refs_at(index, key), target).len() > 0
            &&& without(refs_at(index, key), target).len() <= refs_at(index, key).len()
            &&& writable(ref_pairs(without(refs_at(index, key), target)))
            &&& !without(refs_at(index, key), target).contains(target)
            &&& without(refs_at(index, key), target).no_duplicates()
        },
{
    let refs = refs_at(index, key);
    if index.contains_key(key) && refs.len() > 1 {
        let keep = other_than(target);
        let left = without(refs, target);
        refs.lemma_filter_len(keep);
        assert(!left.contains(target)) by {
            if left.contains(target) {
                let i = choose|i: int| 0 <= i < left.len() && left[i] == target;
                refs.lemma_filter_pred(keep, i);
            }
        }
        assert(left.len() > 0) by {
            let other = if refs[0] == target {
                1int
            } else {
                0int
            };
            assert(refs[0] != refs[1]);
            assert(keep(refs[other]));
            refs.lemma_filter_contains(keep, other);
        }
        assert(writable(ref_pairs(left))) by {
            assert forall|i: int| 0 <= i < ref_pairs(left).len() implies #[trigger] short(
                ref_pairs(left)[i],
            ) by {
                assert(left.contains(left[i]));
                refs.lemma_filter_contains_rev(keep, left[i]);
                let j = choose|j: int| 0 <= j < refs.len() && refs[j] == left[i];
                assert(short(ref_pairs(refs)[j]));
            }
        }
        lemma_posting_round_trip(left);
        assert(left.no_duplicates()) by {
            lemma_filter_keeps_distinct(refs, keep);
        }
    }
}

/// A sequence in which nothing stands twice stays so when it is filtered.
pub proof fn lemma_filter_keeps_distinct<A>(s: Seq<A>, keep: spec_fn(A) -> bool)
    requires
        s.no_duplicates(),
    ensures
        s.filter(keep).no_duplicates(),
    decreases s.len(),
{
    reveal(Seq::filter);
    if s.len() > 0 {
        let front = s.drop_last();
        lemma_filter_keeps_distinct(front, keep);
        if keep(s.last()) {
            let f = front.filter(keep);
            assert forall|i: int| 0 <= i < f.len() implies f[i] != s.last() by {
                assert(f.contains(f[i]));
                front.lemma_filter_contains_rev(keep, f[i]);
                let j = choose|j: int| 0 <= j < front.len() && front[j] == f[i];
                assert(s[j] == f[i]);
                assert(s[j] != s[s.len() - 1]);
            }
        }
    }
}

/// An index after a reference was added under, or taken from under, each of
/// `keys` in turn; `None` where a posting could not be read.
pub open spec fn after_keys(
    index: Map<Seq<u8>, Seq<u8>>,
    keys: Seq<Seq<u8>>,
    target: ObjectRefView,
    add: bool,
) -> Option<Map<Seq<u8>, Seq<u8>>>
    decreases keys.len(),
{
    if keys.len() == 0 {
        Some(index)
    } else {
        match after_keys(index, keys.drop_last(), target, add) {
            Some(before) => after_change(before, keys.last(), target, add),
            None => None,
        }
    }
}

/// The keys of some labels in the forward index.
pub open spec fn fwd_keys(labels: Seq<LabelView>) -> Seq<Seq<u8>> {
    Seq::new(labels.len(), |i: int| fwd_key(labels[i]))
}

/// The keys of some labels in the reverse index.
pub open spec fn rev_keys(labels: Seq<LabelView>) -> Seq<Seq<u8>> {
    Seq::new(labels.len(), |i: int| rev_key(labels[i]))
}

/// Where the work on each of the two indexes comes to its end, the work on
/// the labels does, with the same indexes.
pub proof fn lemma_labels_by_keys(
    fwd: Map<Seq<u8>, Seq<u8>>,
    rev: Map<Seq<u8>, Seq<u8>>,
    labels: Seq<LabelView>,
    target: ObjectRefView,
    add: bool,
)
    requires
        after_keys(fwd, fwd_keys(labels), target, add) is Some,
        after_keys(rev, rev_keys(labels), target, add) is Some,
    ensures
        after_labels(fwd, rev, labels, target, add) == (
            after_keys(fwd, fwd_keys(labels), target, add).unwrap(),
            after_keys(rev, rev_keys(labels), target, add).unwrap(),
            true,
        ),
    decreases labels.len(),
{
    if labels.len() > 0 {
        let front = labels.drop_last();
        assert(fwd_keys(labels).drop_last() =~= fwd_keys(front));
        assert(rev_keys(labels).drop_last() =~= rev_keys(front));
        assert(fwd_keys(labels).last() == fwd_key(labels.last()));
        assert(rev_keys(labels).last() == rev_key(labels.last()));
        lemma_labels_by_keys(fwd, rev, front, target, add);
    }
}

/// Whether `after` is `before` with `target` added at the end of the posting
/// under each of `keys`, and every other posting as it was.
pub open spec fn added_under(
    before: Map<Seq<u8>, Seq<u8>>,
    after: Map<Seq<u8>, Seq<u8>>,
    keys: Seq<Seq<u8>>,
    target: ObjectRefView,
) -> bool {
    &&& forall|k: Seq<u8>|
        #![trigger keys.contains(k)]
        keys.contains(k) ==> after.contains_key(k) && refs_at(after, k) == refs_at(before, k).push(
            target,
        )
    &&& forall|k: Seq<u8>|
        #![trigger keys.contains(k)]
        !keys.contains(k) ==> after.contains_key(k) == before.contains_key(k) && (
        before.contains_key(k) ==> after[k] == before[k])
}

/// What is left of a posting when `target` is taken out of it: nothing of a
/// posting of one, otherwise the references that are not `target`.
pub open spec fn left_of(refs: Seq<ObjectRefView>, target: ObjectRefView) -> Seq<ObjectRefView> {
    if refs.len() <= 1 {
        Seq::empty()
    } else {
        without(refs, target)
    }
}

/// Whether `after` is `before` with `target` taken out of the posting under
/// each of `keys`, and every other posting as it was.
pub open spec fn taken_from_under(
    before: Map<Seq<u8>, Seq<u8>>,
    after: Map<Seq<u8>, Seq<u8>>,
    keys: Seq<Seq<u8>>,
    target: ObjectRefView,
) -> bool {
    &&& forall|k: Seq<u8>|
        #![trigger keys.contains(k)]
        keys.contains(k) ==> !refs_at(after, k).contains(target) && refs_at(after, k) == left_of(
            refs_at(before, k),
            target,
        )
    &&& forall|k: Seq<u8>|
        #![trigger keys.contains(k)]
        !keys.contains(k) ==> after.contains_key(k) == before.contains_key(k) && (
        before.contains_key(k) ==> after[k] == before[k])
}

/// What adding a reference under each of some different keys does: under
/// each of them the posting is the old one with the reference at its end,
/// every other posting is as it was, and the index is sound.
pub proof fn lemma_added_under_keys(
    index: Map<Seq<u8>, Seq<u8>>,
    keys: Seq<Seq<u8>>,
    target: ObjectRefView,
)
    requires
        sound(index),
        roomy(index),
        short(as_pair(target)),
        keys.no_duplicates(),
    ensures
        after_keys(index, keys, target, true) is Some,
        sound(after_keys(index, keys, target, true).unwrap()),
        added_under(index, after_keys(index, keys, target, true).unwrap(), keys, target),
    decreases keys.len(),
{
    if keys.len() > 0 {
        let front = keys.drop_last();
        let last = keys.last();
        lemma_added_under_keys(index, front, target);
        let before = after_keys(index, front, target, true).unwrap();
        assert(!front.contains(last)) by {
            if front.contains(last) {
                let i = choose|i: int| 0 <= i < front.len() && front[i] == last;
                assert(keys[i] == keys[keys.len() - 1]);
            }
        }
        assert(before.contains_key(last) == index.contains_key(last));
        assert(refs_at(before, last) == refs_at(index, last));
        assert(sound_at(before, last));
        lemma_upsert(before, last, target);
        let after = after_keys(index, keys, target, true).unwrap();
        assert(after == before.insert(last, posting_bytes(refs_at(before, last).push(target))));
        assert forall|k: Seq<u8>| #[trigger] sound_at(after, k) by {
            if k != last {
                assert(sound_at(before, k));
            }
        }
        assert forall|k: Seq<u8>| #![trigger keys.contains(k)] keys.contains(k) implies after.contains_key(
            k,
        ) && refs_at(after, k) == refs_at(index, k).push(target) by {
            if k == last {
                assert(after[last] == posting_bytes(refs_at(before, last).push(target)));
                assert(refs_at(after, last) == refs_at(before, last).push(target));
            } else {
                let i = choose|i: int| 0 <= i < keys.len() && keys[i] == k;
                assert(front[i] == k);
                assert(front.contains(k));
                assert(refs_at(before, k) == refs_at(index, k).push(target));
                assert(after[k] == before[k]);
            }
        }
        assert forall|k: Seq<u8>| #![trigger keys.contains(k)] !keys.contains(k) implies after.contains_key(
            k,
        ) == index.contains_key(k) && (index.contains_key(k) ==> after[k] == index[k]) by {
            assert(keys[keys.len() - 1] == last);
            if front.contains(k) {
                let i = choose|i: int| 0 <= i < front.len() && front[i] == k;
                assert(keys[i] == k);
            }
            assert(before.contains_key(k) == index.contains_key(k));
        }
    } else {
        assert forall|k: Seq<u8>| !keys.contains(k) by {
            if keys.contains(k) {
                let i = choose|i: int| 0 <= i < keys.len() && keys[i] == k;
            }
        }
    }
}

/// What taking a reference from under each of some different keys does, in
/// an index where no posting holds a reference twice: under none of the keys
/// a posting holds the reference any more, every other posting is as it was,
/// and the index is sound, with no reference twice in a posting.
pub proof fn lemma_taken_from_under_keys(
    index: Map<Seq<u8>, Seq<u8>>,
    keys: Seq<Seq<u8>>,
    target: ObjectRefView,
)
    requires
        sound(index),
        tidy(index),
        keys.no_duplicates(),
    ensures
        after_keys(index, keys, target, false) is Some,
        sound(after_keys(index, keys, target, false).unwrap()),
        tidy(after_keys(index, keys, target, false).unwrap()),
        taken_from_under(index, after_keys(index, keys, target, false).unwrap(), keys, target),
    decreases keys.len(),
{
    if keys.len() > 0 {
        let front = keys.drop_last();
        let last = keys.last();
        lemma_taken_from_under_keys(index, front, target);
        let before = after_keys(index, front, target, false).unwrap();
        assert(!front.contains(last)) by {
            if front.contains(last) {
                let i = choose|i: int| 0 <= i < front.len() && front[i] == last;
                assert(keys[i] == keys[keys.len() - 1]);
            }
        }
        assert(sound_at(before, last));
        assert(refs_at(before, last).no_duplicates());
        lemma_downsert(before, last, target);
        let after = after_keys(index, keys, target, false).unwrap();
        assert forall|k: Seq<u8>| #[trigger] sound_at(after, k) by {
            assert(sound_at(before, k));
        }
        assert forall|k: Seq<u8>| (#[trigger] refs_at(after, k)).no_duplicates() by {
            assert(refs_at(before, k).no_duplicates());
        }
        assert forall|k: Seq<u8>| #![trigger keys.contains(k)] keys.contains(k) implies !refs_at(
            after,
            k,
        ).contains(target) && refs_at(after, k) == left_of(refs_at(index, k), target) by {
            if k != last {
                let i = choose|i: int| 0 <= i < keys.len() && keys[i] == k;
                assert(front[i] == k);
                assert(front.contains(k));
                assert(!refs_at(before, k).contains(target));
                assert(after.contains_key(k) == before.contains_key(k));
                assert(before.contains_key(k) ==> after[k] == before[k]);
            } else {
                assert(before.contains_key(last) == index.contains_key(last));
                assert(refs_at(before, last) == refs_at(index, last));
                assert(sound_at(index, last));
            }
        }
        assert forall|k: Seq<u8>| #![trigger keys.contains(k)] !keys.contains(k) implies after.contains_key(
            k,
        ) == index.contains_key(k) && (index.contains_key(k) ==> after[k] == index[k]) by {
            assert(keys[keys.len() - 1] == last);
            if front.contains(k) {
                let i = choose|i: int| 0 <= i < front.len() && front[i] == k;
                assert(keys[i] == k);
            }
            assert(before.contains_key(k) == index.contains_key(k));
        }
    } else {
        assert forall|k: Seq<u8>| !keys.contains(k) by {
            if keys.contains(k) {
                let i = choose|i: int| 0 <= i < keys.len() && keys[i] == k;
            }
        }
    }
}

/// The reference under which the worker of a collection files the object
/// with that key.
pub open spec fn filed_as(c: CollectionView, key: Seq<u8>) -> ObjectRefView {
    (ObjectRefView { collection: c.name, name: decode_utf8(key) }).normalized()
}

/// Whether the object under `key` has metadata that can be read and whose
/// label names hold no `=`.
pub open spec fn labelled(c: CollectionView, key: Seq<u8>) -> bool {
    &&& valid_utf8(key)
    &&& c.meta.contains_key(key)
    &&& read_metadata(c.meta[key]) is Some
    &&& forall|i: int|
        0 <= i < read_metadata(c.meta[key]).unwrap().labels.len() ==> !(
        #[trigger] read_metadata(c.meta[key]).unwrap().labels[i]).name.contains('=')
}

/// The labels of metadata that was read have different keys in each index,
/// provided that their names hold no `=`.
proof fn lemma_read_labels_apart(c: CollectionView, key: Seq<u8>)
    requires
        labelled(c, key),
    ensures
        fwd_keys(read_metadata(c.meta[key]).unwrap().labels).no_duplicates(),
        rev_keys(read_metadata(c.meta[key]).unwrap().labels).no_duplicates(),
{
    let labels = read_metadata(c.meta[key]).unwrap().labels;
    reveal(parse_metadata);
    let raw = parse_metadata(c.meta[key]).unwrap();
    assert(labels == as_read(raw).labels);
    lemma_distinct(raw.labels);
    lemma_labels_keys_apart(labels);
    assert forall|i: int, j: int|
        0 <= i < fwd_keys(labels).len() && 0 <= j < fwd_keys(labels).len() && i != j implies fwd_keys(
        labels,
    )[i] != fwd_keys(labels)[j] by {
        if i < j {
            assert(fwd_key(labels[i]) != fwd_key(labels[j]));
        } else {
            assert(fwd_key(labels[j]) != fwd_key(labels[i]));
        }
    }
    assert forall|i: int, j: int|
        0 <= i < rev_keys(labels).len() && 0 <= j < rev_keys(labels).len() && i != j implies rev_keys(
        labels,
    )[i] != rev_keys(labels)[j] by {
        if i < j {
            assert(rev_key(labels[i]) != rev_key(labels[j]));
        } else {
            assert(rev_key(labels[j]) != rev_key(labels[i]));
        }
    }
}

/// What the worker brings about when an object was stored. Where the indexes
/// are sound and the object has metadata, the work comes to its end, and
/// then each posting of a label of the object is the old one with the object
/// at its end, every other posting is as it was, and the indexes are sound
/// again: no posting is empty. Objects and metadata are as they were.
pub proof fn lemma_insert_is_indexed(c: CollectionView, key: Seq<u8>)
    requires
        labelled(c, key),
        sound(c.index_fwd),
        sound(c.index_rev),
        roomy(c.index_fwd),
        roomy(c.index_rev),
        short(as_pair(filed_as(c, key))),
    ensures
        after_event(c, key, true).1 is Done,
        after_event(c, key, true).0.name == c.name,
        after_event(c, key, true).0.data == c.data,
        after_event(c, key, true).0.meta == c.meta,
        sound(after_event(c, key, true).0.index_fwd),
        sound(after_event(c, key, true).0.index_rev),
        added_under(
            c.index_fwd,
            after_event(c, key, true).0.index_fwd,
            fwd_keys(read_metadata(c.meta[key]).unwrap().labels),
            filed_as(c, key),
        ),
        added_under(
            c.index_rev,
            after_event(c, key, true).0.index_rev,
            rev_keys(read_metadata(c.meta[key]).unwrap().labels),
            filed_as(c, key),
        ),
{
    let labels = read_metadata(c.meta[key]).unwrap().labels;
    let target = filed_as(c, key);
    lemma_read_labels_apart(c, key);
    lemma_added_under_keys(c.index_fwd, fwd_keys(labels), target);
    lemma_added_under_keys(c.index_rev, rev_keys(labels), target);
    lemma_labels_by_keys(c.index_fwd, c.index_rev, labels, target, true);
}

/// An object that stood in no posting before it was stored stands exactly
/// once in each posting of its labels after the worker has dealt with it.
pub proof fn lemma_insert_is_indexed_once(c: CollectionView, key: Seq<u8>, label: LabelView)
    requires
        labelled(c, key),
        sound(c.index_fwd),
        sound(c.index_rev),
        roomy(c.index_fwd),
        roomy(c.index_rev),
        short(as_pair(filed_as(c, key))),
        read_metadata(c.meta[key]).unwrap().labels.contains(label),
        !refs_at(c.index_fwd, fwd_key(label)).contains(filed_as(c, key)),
        !refs_at(c.index_rev, rev_key(label)).contains(filed_as(c, key)),
    ensures
        occurrences(
            refs_at(after_event(c, key, true).0.index_fwd, fwd_key(label)),
            filed_as(c, key),
        ) == 1,
        occurrences(
            refs_at(after_event(c, key, true).0.index_rev, rev_key(label)),
            filed_as(c, key),
        ) == 1,
        after_event(c, key, true).0.index_fwd.contains_key(fwd_key(label)),
        after_event(c, key, true).0.index_rev.contains_key(rev_key(label)),
{
    let labels = read_metadata(c.meta[key]).unwrap().labels;
    let target = filed_as(c, key);
    lemma_insert_is_indexed(c, key);
    let i = choose|i: int| 0 <= i < labels.len() && labels[i] == label;
    assert(fwd_keys(labels)[i] == fwd_key(label));
    assert(rev_keys(labels)[i] == rev_key(label));
    assert(fwd_keys(labels).contains(fwd_key(label)));
    assert(rev_keys(labels).contains(rev_key(label)));
    lemma_absent_occurs_never(refs_at(c.index_fwd, fwd_key(label)), target);
    lemma_absent_occurs_never(refs_at(c.index_rev, rev_key(label)), target);
    lemma_push_occurs_once_more(refs_at(c.index_fwd, fwd_key(label)), target);
    lemma_push_occurs_once_more(refs_at(c.index_rev, rev_key(label)), target);
}

/// What the worker brings about when an object was taken out. Where the
/// indexes are sound, with no reference twice in a posting, and the object
/// has metadata, the work comes to its end, and then the metadata is gone,
/// no posting of a label of the object holds the object, every other posting
/// is as it was, and the indexes are sound again: no posting is empty.
pub proof fn lemma_remove_is_unindexed(c: CollectionView, key: Seq<u8>)
    requires
        labelled(c, key),
        sound(c.index_fwd),
        sound(c.index_rev),
        tidy(c.index_fwd),
        tidy(c.index_rev),
    ensures
        after_event(c, key, false).1 is Done,
        after_event(c, key, false).0.name == c.name,
        after_event(c, key, false).0.data == c.data,
        after_event(c, key, false).0.meta == c.meta.remove(key),
        sound(after_event(c, key, false).0.index_fwd),
        sound(after_event(c, key, false).0.index_rev),
        tidy(after_event(c, key, false).0.index_fwd),
        tidy(after_event(c, key, false).0.index_rev),
        taken_from_under(
            c.index_fwd,
            after_event(c, key, false).0.index_fwd,
            fwd_keys(read_metadata(c.meta[key]).unwrap().labels),
            filed_as(c, key),
        ),
        taken_from_under(
            c.index_rev,
            after_event(c, key, false).0.index_rev,
            rev_keys(read_metadata(c.meta[key]).unwrap().labels),
            filed_as(c, key),
        ),
{
    let labels = read_metadata(c.meta[key]).unwrap().labels;
    let target = filed_as(c, key);
    lemma_read_labels_apart(c, key);
    lemma_taken_from_under_keys(c.index_fwd, fwd_keys(labels), target);
    lemma_taken_from_under_keys(c.index_rev, rev_keys(labels), target);
    lemma_labels_by_keys(c.index_fwd, c.index_rev, labels, target, false);
}

/// An event for an object without metadata changes nothing.
pub proof fn lemma_unlabelled_is_passed_over(c: CollectionView, key: Seq<u8>, add: bool)
    requires
        valid_utf8(key),
        !c.meta.contains_key(key),
    ensures
        after_event(c, key, add) == (c, Outcome::Done),
{
}

/// Putting a reference at the end of a posting changes how often another
/// reference stands in it in no way.
pub proof fn lemma_push_keeps_others(
    refs: Seq<ObjectRefView>,
    target: ObjectRefView,
    other: ObjectRefView,
)
    requires
        other != target,
    ensures
        occurrences(refs.push(target), other) == occurrences(refs, other),
{
    assert(refs.push(target).drop_last() =~= refs);
}

/// Taking a reference out of a posting changes how often another reference
/// stands in it in no way.
pub proof fn lemma_without_keeps_others(
    refs: Seq<ObjectRefView>,
    target: ObjectRefView,
    other: ObjectRefView,
)
    requires
        other != target,
    ensures
        occurrences(without(refs, target), other) == occurrences(refs, other),
    decreases refs.len(),
{
    reveal(Seq::filter);
    if refs.len() > 0 {
        lemma_without_keeps_others(refs.drop_last(), target, other);
        if refs.last() != target {
            assert(without(refs, target).drop_last() =~= without(refs.drop_last(), target));
        }
    }
}

/// When the worker has dealt with an object that was stored, every other
/// object stands in every posting as often as before.
pub proof fn lemma_insert_keeps_others(
    c: CollectionView,
    key: Seq<u8>,
    other: ObjectRefView,
    at: Seq<u8>,
)
    requires
        labelled(c, key),
        sound(c.index_fwd),
        sound(c.index_rev),
        roomy(c.index_fwd),
        roomy(c.index_rev),
        short(as_pair(filed_as(c, key))),
        other != filed_as(c, key),
    ensures
        occurrences(refs_at(after_event(c, key, true).0.index_fwd, at), other) == occurrences(
            refs_at(c.index_fwd, at),
            other,
        ),
        occurrences(refs_at(after_event(c, key, true).0.index_rev, at), other) == occurrences(
            refs_at(c.index_rev, at),
            other,
        ),
{
    let labels = read_metadata(c.meta[key]).unwrap().labels;
    let target = filed_as(c, key);
    lemma_insert_is_indexed(c, key);
    lemma_push_keeps_others(refs_at(c.index_fwd, at), target, other);
    lemma_push_keeps_others(refs_at(c.index_rev, at), target, other);
    let after = after_event(c, key, true).0;
    if !fwd_keys(labels).contains(at) {
        assert(after.index_fwd.contains_key(at) == c.index_fwd.contains_key(at));
    }
    if !rev_keys(labels).contains(at) {
        assert(after.index_rev.contains_key(at) == c.index_rev.contains_key(at));
    }
}

/// Whether the object under `key` stands in each posting of its labels.
pub open spec fn indexed(c: CollectionView, key: Seq<u8>) -> bool {
    forall|i: int|
        0 <= i < read_metadata(c.meta[key]).unwrap().labels.len() ==> refs_at(
            c.index_fwd,
            fwd_key(#[trigger] read_metadata(c.meta[key]).unwrap().labels[i]),
        ).contains(filed_as(c, key)) && refs_at(
            c.index_rev,
            rev_key(read_metadata(c.meta[key]).unwrap().labels[i]),
        ).contains(filed_as(c, key))
}

/// When the worker has dealt with an object that was taken out, and the
/// object stood in each posting of its labels, every other object stands in
/// every posting as often as before.
pub proof fn lemma_remove_keeps_others(
    c: CollectionView,
    key: Seq<u8>,
    other: ObjectRefView,
    at: Seq<u8>,
)
    requires
        labelled(c, key),
        indexed(c, key),
        sound(c.index_fwd),
        sound(c.index_rev),
        tidy(c.index_fwd),
        tidy(c.index_rev),
        other != filed_as(c, key),
    ensures
        occurrences(refs_at(after_event(c, key, false).0.index_fwd, at), other) == occurrences(
            refs_at(c.index_fwd, at),
            other,
        ),
        occurrences(refs_at(after_event(c, key, false).0.index_rev, at), other) == occurrences(
            refs_at(c.index_rev, at),
            other,
        ),
{
    let labels = read_metadata(c.meta[key]).unwrap().labels;
    let target = filed_as(c, key);
    lemma_remove_is_unindexed(c, key);
    let after = after_event(c, key, false).0;
    if fwd_keys(labels).contains(at) {
        let i = choose|i: int| 0 <= i < fwd_keys(labels).len() && fwd_keys(labels)[i] == at;
        assert(fwd_key(labels[i]) == at);
        lemma_left_keeps_others(refs_at(c.index_fwd, at), target, other);
    } else {
        assert(after.index_fwd.contains_key(at) == c.index_fwd.contains_key(at));
    }
    if rev_keys(labels).contains(at) {
        let i = choose|i: int| 0 <= i < rev_keys(labels).len() && rev_keys(labels)[i] == at;
        assert(rev_key(labels[i]) == at);
        lemma_left_keeps_others(refs_at(c.index_rev, at), target, other);
    } else {
        assert(after.index_rev.contains_key(at) == c.index_rev.contains_key(at));
    }
}

/// What is left of a posting that held `target` holds every other reference
/// as often as the posting did.
proof fn lemma_left_keeps_others(
    refs: Seq<ObjectRefView>,
    target: ObjectRefView,
    other: ObjectRefView,
)
    requires
        refs.contains(target),
        other != target,
    ensures
        occurrences(left_of(refs, target), other) == occurrences(refs, other),
{
    if refs.len() <= 1 {
        let i = choose|i: int| 0 <= i < refs.len() && refs[i] == target;
        assert(refs[0] == target);
        assert(refs.drop_last() =~= Seq::empty());
    } else {
        lemma_without_keeps_others(refs, target, other);
    }
}

/// What the indexer has filed is found: after the worker has dealt with an
/// object that was stored, a search that includes one of the labels of the
/// object, and excludes no label that tags it, finds the object.
pub proof fn lemma_indexed_is_found(
    c: CollectionView,
    key: Seq<u8>,
    terms: Seq<SearchLabelView>,
    at: int,
)
    requires
        labelled(c, key),
        sound(c.index_fwd),
        sound(c.index_rev),
        roomy(c.index_fwd),
        roomy(c.index_rev),
        short(as_pair(filed_as(c, key))),
        0 <= at < terms.len(),
        terms[at] is Include,
        read_metadata(c.meta[key]).unwrap().labels.contains(terms[at]->Include_0),
        forall|i: int|
            0 <= i < terms.len() && #[trigger] terms[i] is Exclude ==> !tagged(
                after_event(c, key, true).0.index_fwd,
                terms[i]->Exclude_0,
            ).contains(as_pair(filed_as(c, key))),
    ensures
        hits(after_event(c, key, true).0.index_fwd, terms).contains(as_pair(filed_as(c, key))),
{
    let labels = read_metadata(c.meta[key]).unwrap().labels;
    let label = terms[at]->Include_0;
    let target = filed_as(c, key);
    let index = after_event(c, key, true).0.index_fwd;
    lemma_insert_is_indexed(c, key);
    let i = choose|i: int| 0 <= i < labels.len() && labels[i] == label;
    assert(fwd_keys(labels)[i] == fwd_key(label));
    assert(fwd_keys(labels).contains(fwd_key(label)));
    let posting = refs_at(index, fwd_key(label));
    assert(posting == refs_at(c.index_fwd, fwd_key(label)).push(target));
    assert(posting[posting.len() - 1] == target);
    assert(posting.contains(target));
    assert(sound_at(index, fwd_key(label)));
    assert(tagged(index, label).contains(as_pair(target)));
    lemma_terms(index, terms, as_pair(target));
}

} // verus!
