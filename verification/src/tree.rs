//! An ordered key space: byte keys in ascending order, each with a byte
//! value. This is what a collection keeps its objects, its metadata and its
//! two label indexes in.

use vstd::prelude::*;
use crate::text::starts_with;

verus! {

/// The order of keys: byte by byte, a proper prefix first.
pub open spec fn bytes_lt(a: Seq<u8>, b: Seq<u8>) -> bool
    decreases a.len(),
{
    if b.len() == 0 {
        false
    } else if a.len() == 0 {
        true
    } else if a[0] != b[0] {
        a[0] < b[0]
    } else {
        bytes_lt(a.drop_first(), b.drop_first())
    }
}

/// No key comes before itself.
pub proof fn lemma_bytes_lt_irreflexive(a: Seq<u8>)
    ensures
        !bytes_lt(a, a),
    decreases a.len(),
{
    if a.len() > 0 {
        lemma_bytes_lt_irreflexive(a.drop_first());
    }
}

/// The order of keys is transitive.
pub proof fn lemma_bytes_lt_transitive(a: Seq<u8>, b: Seq<u8>, c: Seq<u8>)
    requires
        bytes_lt(a, b),
        bytes_lt(b, c),
    ensures
        bytes_lt(a, c),
    decreases a.len(),
{
    if a.len() > 0 && b.len() > 0 && c.len() > 0 {
        if a[0] == b[0] && b[0] == c[0] {
            lemma_bytes_lt_transitive(a.drop_first(), b.drop_first(), c.drop_first());
        }
    }
}

/// Of two different keys one comes before the other.
pub proof fn lemma_bytes_lt_total(a: Seq<u8>, b: Seq<u8>)
    ensures
        bytes_lt(a, b) || bytes_lt(b, a) || a == b,
    decreases a.len(),
{
    if a.len() == 0 || b.len() == 0 {
        if a.len() == 0 && b.len() == 0 {
            assert(a =~= b);
        }
    } else if a[0] == b[0] {
        lemma_bytes_lt_total(a.drop_first(), b.drop_first());
        if a.drop_first() == b.drop_first() {
            assert(a =~= seq![a[0]] + a.drop_first());
            assert(b =~= seq![b[0]] + b.drop_first());
        }
    }
}

/// How two keys stand to each other.
#[derive(Clone, Copy, Debug, PartialEq, Eq, Structural)]
pub enum KeyOrder {
    Before,
    Same,
    After,
}

/// Compares two keys.
pub fn key_order(a: &[u8], b: &[u8]) -> (r: KeyOrder)
    ensures
        r == KeyOrder::Before <==> bytes_lt(a@, b@),
        r == KeyOrder::Same <==> a@ == b@,
        r == KeyOrder::After <==> bytes_lt(b@, a@),
{
    proof {
        lemma_bytes_lt_irreflexive(a@);
        lemma_bytes_lt_total(a@, b@);
        if bytes_lt(a@, b@) && bytes_lt(b@, a@) {
            lemma_bytes_lt_transitive(a@, b@, a@);
        }
        assert(a@.skip(0) =~= a@);
        assert(b@.skip(0) =~= b@);
    }
    let mut i: usize = 0;
    while i < a.len() && i < b.len()
        invariant
            i <= a@.len(),
            i <= b@.len(),
            bytes_lt(a@, b@) == bytes_lt(a@.skip(i as int), b@.skip(i as int)),
            bytes_lt(b@, a@) == bytes_lt(b@.skip(i as int), a@.skip(i as int)),
        decreases a@.len() - i,
    {
        proof {
            assert(a@.skip(i as int).drop_first() =~= a@.skip(i as int + 1));
            assert(b@.skip(i as int).drop_first() =~= b@.skip(i as int + 1));
            assert(a@.skip(i as int)[0] == a@[i as int]);
            assert(b@.skip(i as int)[0] == b@[i as int]);
        }
        if a[i] < b[i] {
            return KeyOrder::Before;
        }
        if a[i] > b[i] {
            return KeyOrder::After;
        }
        i += 1;
    }
    if i < b.len() {
        KeyOrder::Before
    } else if i < a.len() {
        KeyOrder::After
    } else {
        KeyOrder::Same
    }
}

/// Whether a key starts with the given bytes.
pub fn has_prefix(key: &[u8], prefix: &[u8]) -> (r: bool)
    ensures
        r == starts_with(key@, prefix@),
{
    if prefix.len() > key.len() {
        return false;
    }
    let mut i: usize = 0;
    while i < prefix.len()
        invariant
            i <= prefix@.len(),
            prefix@.len() <= key@.len(),
            forall|j: int| 0 <= j < i ==> key@[j] == prefix@[j],
        decreases prefix@.len() - i,
    {
        if key[i] != prefix[i] {
            proof {
                assert(key@.subrange(0, prefix@.len() as int)[i as int] != prefix@[i as int]);
            }
            return false;
        }
        i += 1;
    }
    proof {
        assert(key@.subrange(0, prefix@.len() as int) =~= prefix@);
    }
    true
}

/// A copy of a byte string.
pub fn copy_bytes(b: &[u8]) -> (r: Vec<u8>)
    ensures
        r@ == b@,
{
    vstd::slice::slice_to_vec(b)
}

/// The entries of a key space as plain values, in the order in which they are
/// kept.
pub open spec fn wire(entries: Seq<(Vec<u8>, Vec<u8>)>) -> Seq<(Seq<u8>, Seq<u8>)> {
    Seq::new(entries.len(), |i: int| (entries[i].0@, entries[i].1@))
}

/// Keys in strictly ascending order.
pub open spec fn ascending(s: Seq<(Seq<u8>, Seq<u8>)>) -> bool {
    forall|i: int, j: int| 0 <= i < j < s.len() ==> bytes_lt(#[trigger] s[i].0, #[trigger] s[j].0)
}

/// The map that a list of entries stands for.
pub open spec fn assoc(s: Seq<(Seq<u8>, Seq<u8>)>) -> Map<Seq<u8>, Seq<u8>> {
    Map::new(
        |k: Seq<u8>| exists|i: int| 0 <= i < s.len() && #[trigger] s[i].0 == k,
        |k: Seq<u8>| s[choose|i: int| 0 <= i < s.len() && #[trigger] s[i].0 == k].1,
    )
}

/// The map that storing some entries one after the other gives.
pub open spec fn stored(entries: Seq<(Seq<u8>, Seq<u8>)>) -> Map<Seq<u8>, Seq<u8>>
    decreases entries.len(),
{
    if entries.len() == 0 {
        Map::empty()
    } else {
        stored(entries.drop_last()).insert(entries.last().0, entries.last().1)
    }
}

/// In an ascending list each key is mapped to the value beside it.
pub proof fn lemma_assoc_at(s: Seq<(Seq<u8>, Seq<u8>)>, i: int)
    requires
        ascending(s),
        0 <= i < s.len(),
    ensures
        assoc(s).contains_key(s[i].0),
        assoc(s)[s[i].0] == s[i].1,
{
    let k = s[i].0;
    let j = choose|j: int| 0 <= j < s.len() && #[trigger] s[j].0 == k;
    lemma_bytes_lt_irreflexive(k);
    if j < i {
        assert(bytes_lt(s[j].0, s[i].0));
    } else if i < j {
        assert(bytes_lt(s[i].0, s[j].0));
    }
}

/// An ascending list stands for a map of as many keys as it has entries.
pub proof fn lemma_assoc_size(s: Seq<(Seq<u8>, Seq<u8>)>)
    requires
        ascending(s),
    ensures
        assoc(s).dom().finite(),
        assoc(s).dom().len() == s.len(),
{
    let keys = Seq::new(s.len(), |i: int| s[i].0);
    assert(keys.no_duplicates()) by {
        assert forall|i: int, j: int| 0 <= i < keys.len() && 0 <= j < keys.len() && i != j implies keys[i]
            != keys[j] by {
            lemma_bytes_lt_irreflexive(keys[i]);
            if i < j {
                assert(bytes_lt(s[i].0, s[j].0));
            } else {
                assert(bytes_lt(s[j].0, s[i].0));
            }
        }
    }
    keys.unique_seq_to_set();
    vstd::seq_lib::seq_to_set_is_finite(keys);
    assert(assoc(s).dom() =~= keys.to_set()) by {
        assert forall|k: Seq<u8>| assoc(s).dom().contains(k) <==> keys.to_set().contains(k) by {
            if assoc(s).dom().contains(k) {
                let i = choose|i: int| 0 <= i < s.len() && #[trigger] s[i].0 == k;
                assert(keys[i] == k);
            }
            if keys.to_set().contains(k) {
                let i = choose|i: int| 0 <= i < keys.len() && keys[i] == k;
                assert(s[i].0 == k);
            }
        }
    }
}

/// A key that falls between two neighbours of an ascending list is not in it.
pub proof fn lemma_assoc_gap(s: Seq<(Seq<u8>, Seq<u8>)>, at: int, key: Seq<u8>)
    requires
        ascending(s),
        0 <= at <= s.len(),
        forall|j: int| 0 <= j < at ==> bytes_lt(#[trigger] s[j].0, key),
        at < s.len() ==> bytes_lt(key, s[at].0),
    ensures
        !assoc(s).contains_key(key),
        forall|j: int| at <= j < s.len() ==> bytes_lt(key, #[trigger] s[j].0),
{
    lemma_bytes_lt_irreflexive(key);
    assert forall|j: int| at <= j < s.len() implies bytes_lt(key, #[trigger] s[j].0) by {
        if j > at {
            assert(bytes_lt(s[at].0, s[j].0));
            lemma_bytes_lt_transitive(key, s[at].0, s[j].0);
        }
    }
    if assoc(s).contains_key(key) {
        let j = choose|j: int| 0 <= j < s.len() && #[trigger] s[j].0 == key;
        if j < at {
            assert(bytes_lt(s[j].0, key));
        } else {
            assert(bytes_lt(key, s[j].0));
        }
    }
}

/// Putting a new key at its place keeps the list ascending and adds the entry
/// to the map.
pub proof fn lemma_assoc_insert(s: Seq<(Seq<u8>, Seq<u8>)>, at: int, key: Seq<u8>, value: Seq<u8>)
    requires
        ascending(s),
        0 <= at <= s.len(),
        forall|j: int| 0 <= j < at ==> bytes_lt(#[trigger] s[j].0, key),
        at < s.len() ==> bytes_lt(key, s[at].0),
    ensures
        ascending(s.insert(at, (key, value))),
        assoc(s.insert(at, (key, value))) == assoc(s).insert(key, value),
{
    let t = s.insert(at, (key, value));
    lemma_assoc_gap(s, at, key);
    assert forall|i: int, j: int| 0 <= i < j < t.len() implies bytes_lt(
        #[trigger] t[i].0,
        #[trigger] t[j].0,
    ) by {
        if i < at && j == at {
            assert(t[i] == s[i]);
        } else if i < at && j > at {
            assert(t[i] == s[i]);
            assert(t[j] == s[j - 1]);
            assert(bytes_lt(s[i].0, s[j - 1].0));
        } else if i < at && j < at {
            assert(bytes_lt(s[i].0, s[j].0));
        } else if i == at {
            assert(t[j] == s[j - 1]);
        } else {
            assert(t[i] == s[i - 1]);
            assert(t[j] == s[j - 1]);
            assert(bytes_lt(s[i - 1].0, s[j - 1].0));
        }
    }
    assert forall|k: Seq<u8>| assoc(t).contains_key(k) <==> assoc(s).insert(key, value).contains_key(
        k,
    ) by {
        if assoc(t).contains_key(k) {
            let i = choose|i: int| 0 <= i < t.len() && #[trigger] t[i].0 == k;
            if i < at {
                assert(s[i].0 == k);
            } else if i > at {
                assert(s[i - 1].0 == k);
            }
        }
        if assoc(s).contains_key(k) {
            let i = choose|i: int| 0 <= i < s.len() && #[trigger] s[i].0 == k;
            if i < at {
                assert(t[i].0 == k);
            } else {
                assert(t[i + 1].0 == k);
            }
        }
        if k == key {
            assert(t[at].0 == k);
        }
    }
    assert forall|k: Seq<u8>| assoc(t).contains_key(k) implies assoc(t)[k] == assoc(s).insert(
        key,
        value,
    )[k] by {
        let i = choose|i: int| 0 <= i < t.len() && #[trigger] t[i].0 == k;
        lemma_assoc_at(t, i);
        if i < at {
            assert(t[i] == s[i]);
            lemma_assoc_at(s, i);
        } else if i > at {
            assert(t[i] == s[i - 1]);
            lemma_assoc_at(s, i - 1);
        }
    }
    assert(assoc(t) =~= assoc(s).insert(key, value));
}

/// Changing the value beside a key keeps the list ascending and changes the
/// map at that key.
pub proof fn lemma_assoc_update(s: Seq<(Seq<u8>, Seq<u8>)>, at: int, value: Seq<u8>)
    requires
        ascending(s),
        0 <= at < s.len(),
    ensures
        ascending(s.update(at, (s[at].0, value))),
        assoc(s.update(at, (s[at].0, value))) == assoc(s).insert(s[at].0, value),
{
    let t = s.update(at, (s[at].0, value));
    assert forall|i: int, j: int| 0 <= i < j < t.len() implies bytes_lt(
        #[trigger] t[i].0,
        #[trigger] t[j].0,
    ) by {
        assert(t[i].0 == s[i].0);
        assert(t[j].0 == s[j].0);
        assert(bytes_lt(s[i].0, s[j].0));
    }
    assert forall|k: Seq<u8>| assoc(t).contains_key(k) <==> assoc(s).insert(
        s[at].0,
        value,
    ).contains_key(k) by {
        if assoc(t).contains_key(k) {
            let i = choose|i: int| 0 <= i < t.len() && #[trigger] t[i].0 == k;
            assert(s[i].0 == k);
        }
        if assoc(s).contains_key(k) {
            let i = choose|i: int| 0 <= i < s.len() && #[trigger] s[i].0 == k;
            assert(t[i].0 == k);
        }
        if k == s[at].0 {
            assert(t[at].0 == k);
        }
    }
    assert forall|k: Seq<u8>| assoc(t).contains_key(k) implies assoc(t)[k] == assoc(s).insert(
        s[at].0,
        value,
    )[k] by {
        let i = choose|i: int| 0 <= i < t.len() && #[trigger] t[i].0 == k;
        lemma_assoc_at(t, i);
        lemma_assoc_at(s, i);
        lemma_assoc_at(s, at);
        lemma_bytes_lt_irreflexive(k);
        if i != at {
            assert(t[i] == s[i]);
            if i < at {
                assert(bytes_lt(s[i].0, s[at].0));
            } else {
                assert(bytes_lt(s[at].0, s[i].0));
            }
        }
    }
    assert(assoc(t) =~= assoc(s).insert(s[at].0, value));
}

/// Taking an entry out keeps the list ascending and takes its key out of the
/// map.
pub proof fn lemma_assoc_remove(s: Seq<(Seq<u8>, Seq<u8>)>, at: int)
    requires
        ascending(s),
        0 <= at < s.len(),
    ensures
        ascending(s.remove(at)),
        assoc(s.remove(at)) == assoc(s).remove(s[at].0),
{
    let t = s.remove(at);
    let key = s[at].0;
    lemma_bytes_lt_irreflexive(key);
    assert forall|i: int, j: int| 0 <= i < j < t.len() implies bytes_lt(
        #[trigger] t[i].0,
        #[trigger] t[j].0,
    ) by {
        let si = if i < at { i } else { i + 1 };
        let sj = if j < at { j } else { j + 1 };
        assert(t[i] == s[si]);
        assert(t[j] == s[sj]);
        assert(bytes_lt(s[si].0, s[sj].0));
    }
    assert forall|k: Seq<u8>| assoc(t).contains_key(k) <==> assoc(s).remove(key).contains_key(
        k,
    ) by {
        if assoc(t).contains_key(k) {
            let i = choose|i: int| 0 <= i < t.len() && #[trigger] t[i].0 == k;
            let si = if i < at { i } else { i + 1 };
            assert(t[i] == s[si]);
            assert(s[si].0 == k);
            if si < at {
                assert(bytes_lt(s[si].0, s[at].0));
            } else {
                assert(bytes_lt(s[at].0, s[si].0));
            }
        }
        if assoc(s).contains_key(k) && k != key {
            let i = choose|i: int| 0 <= i < s.len() && #[trigger] s[i].0 == k;
            if i < at {
                assert(t[i].0 == k);
            } else {
                assert(t[i - 1].0 == k);
            }
        }
    }
    assert forall|k: Seq<u8>| assoc(t).contains_key(k) implies assoc(t)[k] == assoc(s).remove(
        key,
    )[k] by {
        let i = choose|i: int| 0 <= i < t.len() && #[trigger] t[i].0 == k;
        let si = if i < at { i } else { i + 1 };
        lemma_assoc_at(t, i);
        assert(t[i] == s[si]);
        lemma_assoc_at(s, si);
    }
    assert(assoc(t) =~= assoc(s).remove(key));
}

/// An ordered key space.
#[derive(Debug)]
pub struct Tree {
    entries: Vec<(Vec<u8>, Vec<u8>)>,
}

impl View for Tree {
    type V = Map<Seq<u8>, Seq<u8>>;

    closed spec fn view(&self) -> Map<Seq<u8>, Seq<u8>> {
        assoc(wire(self.entries@))
    }
}

impl Clone for Tree {
    fn clone(&self) -> (r: Self)
        ensures
            r@ == self@,
    {
        proof {
            use_type_invariant(self);
        }
        let mut entries: Vec<(Vec<u8>, Vec<u8>)> = Vec::new();
        let mut i: usize = 0;
        while i < self.entries.len()
            invariant
                i <= self.entries@.len(),
                wire(entries@) == wire(self.entries@).take(i as int),
            decreases self.entries@.len() - i,
        {
            let key = copy_bytes(self.entries[i].0.as_slice());
            let value = copy_bytes(self.entries[i].1.as_slice());
            let ghost earlier = wire(entries@);
            entries.push((key, value));
            proof {
                assert(wire(entries@) =~= earlier.push(wire(self.entries@)[i as int]));
                assert(wire(entries@) =~= wire(self.entries@).take(i as int + 1));
            }
            i += 1;
        }
        proof {
            assert(wire(self.entries@).take(i as int) =~= wire(self.entries@));
        }
        Tree { entries }
    }
}

impl Tree {
    #[verifier::type_invariant]
    spec fn in_order(self) -> bool {
        ascending(wire(self.entries@))
    }

    /// The keys of the space with their values, in ascending order of the keys.
    pub closed spec fn entries(&self) -> Seq<(Seq<u8>, Seq<u8>)> {
        wire(self.entries@)
    }

    /// An empty key space.
    pub fn new() -> (r: Self)
        ensures
            r@ == Map::<Seq<u8>, Seq<u8>>::empty(),
            r.entries().len() == 0,
    {
        let r = Tree { entries: Vec::new() };
        proof {
            assert(r@ =~= Map::<Seq<u8>, Seq<u8>>::empty());
        }
        r
    }

    /// The key space that holds the given entries; of entries with the same
    /// key the last counts.
    pub fn from_entries(entries: Vec<(Vec<u8>, Vec<u8>)>) -> (r: Self)
        ensures
            r@ == stored(wire(entries@)),
    {
        let mut tree = Tree::new();
        let mut i: usize = 0;
        proof {
            assert(wire(entries@).take(0) =~= Seq::empty());
        }
        while i < entries.len()
            invariant
                i <= entries@.len(),
                tree@ == stored(wire(entries@).take(i as int)),
            decreases entries@.len() - i,
        {
            proof {
                let all = wire(entries@);
                assert(all.take(i as int + 1).drop_last() =~= all.take(i as int));
                assert(all.take(i as int + 1).last() == all[i as int]);
            }
            let key = copy_bytes(entries[i].0.as_slice());
            let value = copy_bytes(entries[i].1.as_slice());
            let _ = tree.insert(key, value);
            i += 1;
        }
        proof {
            assert(wire(entries@).take(i as int) =~= wire(entries@));
        }
        tree
    }

    /// Where `key` stands, or would stand: the number of keys before it, and
    /// whether it is there.
    fn locate(&self, key: &[u8]) -> (r: (usize, bool))
        ensures
            r.0 <= self.entries@.len(),
            forall|j: int| 0 <= j < r.0 ==> bytes_lt(#[trigger] wire(self.entries@)[j].0, key@),
            r.1 ==> r.0 < self.entries@.len() && wire(self.entries@)[r.0 as int].0 == key@,
            !r.1 && r.0 < self.entries@.len() ==> bytes_lt(key@, wire(self.entries@)[r.0 as int].0),
            r.1 == self@.contains_key(key@),
            ascending(wire(self.entries@)),
    {
        proof {
            use_type_invariant(self);
        }
        let mut i: usize = 0;
        while i < self.entries.len()
            invariant
                i <= self.entries@.len(),
                ascending(wire(self.entries@)),
                forall|j: int| 0 <= j < i ==> bytes_lt(#[trigger] wire(self.entries@)[j].0, key@),
            decreases self.entries@.len() - i,
        {
            match key_order(self.entries[i].0.as_slice(), key) {
                KeyOrder::Before => {},
                KeyOrder::Same => {
                    proof {
                        lemma_assoc_at(wire(self.entries@), i as int);
                    }
                    return (i, true);
                },
                KeyOrder::After => {
                    proof {
                        lemma_assoc_gap(wire(self.entries@), i as int, key@);
                    }
                    return (i, false);
                },
            }
            i += 1;
        }
        proof {
            lemma_assoc_gap(wire(self.entries@), i as int, key@);
        }
        (i, false)
    }

    /// How many keys the space holds.
    pub fn len(&self) -> (r: usize)
        ensures
            r == self.entries().len(),
            self@.dom().finite(),
            r == self@.dom().len(),
    {
        proof {
            use_type_invariant(self);
            lemma_assoc_size(wire(self.entries@));
        }
        self.entries.len()
    }

    /// Whether the space holds `key`.
    pub fn contains_key(&self, key: &[u8]) -> (r: bool)
        ensures
            r == self@.contains_key(key@),
    {
        self.locate(key).1
    }

    /// The value stored under `key`.
    pub fn get(&self, key: &[u8]) -> (r: Option<Vec<u8>>)
        ensures
            r is Some <==> self@.contains_key(key@),
            r matches Some(v) ==> v@ == self@[key@],
    {
        let (at, found) = self.locate(key);
        if found {
            proof {
                lemma_assoc_at(wire(self.entries@), at as int);
            }
            Some(copy_bytes(self.entries[at].1.as_slice()))
        } else {
            None
        }
    }

    /// Stores `value` under `key` and returns what was stored there before.
    pub fn insert(&mut self, key: Vec<u8>, value: Vec<u8>) -> (r: Option<Vec<u8>>)
        ensures
            final(self)@ == old(self)@.insert(key@, value@),
            r is Some <==> old(self)@.contains_key(key@),
            r matches Some(v) ==> v@ == old(self)@[key@],
    {
        let (at, found) = self.locate(key.as_slice());
        let mut entries: Vec<(Vec<u8>, Vec<u8>)> = Vec::new();
        std::mem::swap(&mut self.entries, &mut entries);
        let ghost before = wire(entries@);
        let r = if found {
            proof {
                lemma_assoc_at(before, at as int);
                lemma_assoc_update(before, at as int, value@);
            }
            let mut fresh = (key, value);
            std::mem::swap(&mut entries[at], &mut fresh);
            proof {
                assert(wire(entries@) =~= before.update(at as int, (before[at as int].0, value@)));
            }
            Some(fresh.1)
        } else {
            proof {
                lemma_assoc_insert(before, at as int, key@, value@);
            }
            entries.insert(at, (key, value));
            proof {
                assert(wire(entries@) =~= before.insert(at as int, (key@, value@)));
            }
            None
        };
        self.entries = entries;
        r
    }

    /// Takes `key` out of the space and returns what was stored under it.
    pub fn remove(&mut self, key: &[u8]) -> (r: Option<Vec<u8>>)
        ensures
            final(self)@ == old(self)@.remove(key@),
            r is Some <==> old(self)@.contains_key(key@),
            r matches Some(v) ==> v@ == old(self)@[key@],
    {
        let (at, found) = self.locate(key);
        if found {
            let mut entries: Vec<(Vec<u8>, Vec<u8>)> = Vec::new();
            std::mem::swap(&mut self.entries, &mut entries);
            let ghost before = wire(entries@);
            proof {
                lemma_assoc_at(before, at as int);
                lemma_assoc_remove(before, at as int);
            }
            let gone = entries.remove(at);
            proof {
                assert(wire(entries@) =~= before.remove(at as int));
            }
            self.entries = entries;
            Some(gone.1)
        } else {
            proof {
                assert(old(self)@.remove(key@) =~= old(self)@);
            }
            None
        }
    }

    /// The entry at position `i` in ascending order of the keys.
    pub fn entry(&self, i: usize) -> (r: (Vec<u8>, Vec<u8>))
        requires
            i < self.entries().len(),
        ensures
            (r.0@, r.1@) == self.entries()[i as int],
    {
        (copy_bytes(self.entries[i].0.as_slice()), copy_bytes(self.entries[i].1.as_slice()))
    }

    /// The entries whose key starts with `prefix`, in ascending order of the
    /// keys.
    pub fn scan_prefix(&self, prefix: &[u8]) -> (r: Vec<(Vec<u8>, Vec<u8>)>)
        ensures
            wire(r@) == self.entries().filter(|e: (Seq<u8>, Seq<u8>)| starts_with(e.0, prefix@)),
    {
        let ghost keep = |e: (Seq<u8>, Seq<u8>)| starts_with(e.0, prefix@);
        let mut found: Vec<(Vec<u8>, Vec<u8>)> = Vec::new();
        let mut i: usize = 0;
        proof {
            reveal(Seq::filter);
            assert(wire(self.entries@).take(0) =~= Seq::empty());
            assert(wire(found@) =~= Seq::empty());
        }
        while i < self.entries.len()
            invariant
                i <= self.entries@.len(),
                keep == |e: (Seq<u8>, Seq<u8>)| starts_with(e.0, prefix@),
                wire(found@) == wire(self.entries@).take(i as int).filter(keep),
            decreases self.entries@.len() - i,
        {
            proof {
                let all = wire(self.entries@);
                reveal(Seq::filter);
                assert(all.take(i as int + 1).drop_last() =~= all.take(i as int));
                assert(all.take(i as int + 1).last() == all[i as int]);
            }
            if has_prefix(self.entries[i].0.as_slice(), prefix) {
                let key = copy_bytes(self.entries[i].0.as_slice());
                let value = copy_bytes(self.entries[i].1.as_slice());
                let ghost earlier = wire(found@);
                found.push((key, value));
                proof {
                    assert(wire(found@) =~= earlier.push(wire(self.entries@)[i as int]));
                }
            }
            i += 1;
        }
        proof {
            assert(wire(self.entries@).take(i as int) =~= wire(self.entries@));
        }
        found
    }
}

/// The entries of a key space are in strictly ascending order of their keys,
/// and they are what the space maps.
pub fn check_order(tree: &Tree)
    ensures
        ascending(tree.entries()),
        tree@ == assoc(tree.entries()),
{
    proof {
        use_type_invariant(tree);
    }
}

} // verus!
