//! The backend: the collections of the store, and the signals that it sends
//! to the label indexer when collections come and go.

use vstd::prelude::*;
use vstd::string::*;
use crate::collection::{
    collection_of, lemma_collection_of, lemma_tree_names_apart, tree_names, Collection,
    CollectionView,
};
use crate::errors::MauveError;
use crate::indexer::{IndexerSignal, SignalView};
use crate::text::same_text;

verus! {

/// What a backend holds.
pub struct BackendView {
    /// The collections, in the order in which they came.
    pub collections: Seq<CollectionView>,
    /// The signals that were sent and not yet taken.
    pub signals: Seq<SignalView>,
    /// Whether the indexer no longer takes signals.
    pub closed: bool,
}

/// The views of some collections.
pub open spec fn collection_views(cs: Seq<Collection>) -> Seq<CollectionView> {
    Seq::new(cs.len(), |i: int| cs[i]@)
}

/// The views of some signals.
pub open spec fn signal_views(ss: Seq<IndexerSignal>) -> Seq<SignalView> {
    Seq::new(ss.len(), |i: int| ss[i]@)
}

/// The position of the first collection of that name, or the number of
/// collections if there is none.
pub open spec fn position(cs: Seq<CollectionView>, name: Seq<char>) -> int
    decreases cs.len(),
{
    if cs.len() == 0 {
        0
    } else if cs[0].name == name {
        0
    } else {
        1 + position(cs.drop_first(), name)
    }
}

/// The collections that do not have that name.
pub open spec fn others(cs: Seq<CollectionView>, name: Seq<char>) -> Seq<CollectionView> {
    cs.filter(|c: CollectionView| c.name != name)
}

/// The names of some collections.
pub open spec fn names_of(cs: Seq<CollectionView>) -> Seq<Seq<char>> {
    Seq::new(cs.len(), |i: int| cs[i].name)
}

/// The names of the key spaces of some collections: four for each, in the
/// order of the collections.
pub open spec fn all_tree_names(cs: Seq<CollectionView>) -> Seq<Seq<char>>
    decreases cs.len(),
{
    if cs.len() == 0 {
        Seq::empty()
    } else {
        all_tree_names(cs.drop_last()) + tree_names(cs.last().name)
    }
}

/// The collections that some names of key spaces name: one for each name
/// that is that of a key space with metadata, in the order of the names.
pub open spec fn collections_among(tree_names: Seq<Seq<char>>) -> Seq<Seq<char>>
    decreases tree_names.len(),
{
    if tree_names.len() == 0 {
        Seq::empty()
    } else {
        let front = collections_among(tree_names.drop_last());
        match collection_of(tree_names.last()) {
            Some(c) => front.push(c),
            None => front,
        }
    }
}

/// The collections named by two runs of key-space names are those named by
/// the first run, then those named by the second.
pub proof fn lemma_collections_among_add(a: Seq<Seq<char>>, b: Seq<Seq<char>>)
    ensures
        collections_among(a + b) == collections_among(a) + collections_among(b),
    decreases b.len(),
{
    if b.len() == 0 {
        assert(a + b =~= a);
        assert(collections_among(a) + collections_among(b) =~= collections_among(a));
    } else {
        lemma_collections_among_add(a, b.drop_last());
        assert((a + b).drop_last() =~= a + b.drop_last());
        assert((a + b).last() == b.last());
        assert(collections_among(a + b) =~= collections_among(a) + collections_among(b));
    }
}

/// Scanning the names of all key spaces for those with metadata gives the
/// names of the collections, in their order.
pub proof fn lemma_collections_listed(cs: Seq<CollectionView>)
    ensures
        collections_among(all_tree_names(cs)) == names_of(cs),
    decreases cs.len(),
{
    if cs.len() == 0 {
        assert(names_of(cs) =~= Seq::empty());
    } else {
        let name = cs.last().name;
        lemma_collections_listed(cs.drop_last());
        lemma_collections_among_add(all_tree_names(cs.drop_last()), tree_names(name));
        lemma_collection_of(name);
        let four = tree_names(name);
        assert(four.drop_last().drop_last().drop_last().drop_last() =~= Seq::empty());
        reveal_with_fuel(collections_among, 5);
        assert(collections_among(four) =~= seq![name]);
        assert(names_of(cs) =~= names_of(cs.drop_last()) + seq![name]);
    }
}

/// Whether a key space of that name is among those of the collections.
pub open spec fn has_tree(cs: Seq<CollectionView>, tree_name: Seq<char>) -> bool {
    exists|i: int, k: int|
        0 <= i < cs.len() && 0 <= k < 4 && #[trigger] tree_names(cs[i].name)[k] == tree_name
}

/// What deleting a collection does: none of its four key spaces is left, and
/// every collection of another name is there as it was, in the same order.
pub proof fn lemma_deletion_is_isolated(cs: Seq<CollectionView>, name: Seq<char>)
    ensures
        forall|k: int| 0 <= k < 4 ==> !has_tree(others(cs, name), #[trigger] tree_names(name)[k]),
        forall|i: int| 0 <= i < others(cs, name).len() ==> others(cs, name)[i].name != name,
        others(cs, name) == cs.filter(|c: CollectionView| c.name != name),
        forall|c: CollectionView| c.name != name ==> (cs.contains(c) <==> others(cs, name).contains(c)),
{
    let keep = |c: CollectionView| c.name != name;
    let left = others(cs, name);
    assert forall|i: int| 0 <= i < left.len() implies left[i].name != name by {
        cs.lemma_filter_pred(keep, i);
    }
    assert forall|k: int| 0 <= k < 4 implies !has_tree(left, #[trigger] tree_names(name)[k]) by {
        if has_tree(left, tree_names(name)[k]) {
            let (i, j) = choose|i: int, j: int|
                0 <= i < left.len() && 0 <= j < 4 && #[trigger] tree_names(left[i].name)[j]
                    == tree_names(name)[k];
            lemma_tree_names_apart(left[i].name, name);
        }
    }
    assert forall|c: CollectionView| c.name != name implies (cs.contains(c) <==> left.contains(
        c,
    )) by {
        if cs.contains(c) {
            let i = choose|i: int| 0 <= i < cs.len() && cs[i] == c;
            cs.lemma_filter_contains(keep, i);
        }
        if left.contains(c) {
            cs.lemma_filter_contains_rev(keep, c);
        }
    }
}

impl BackendView {
    /// Whether there is a collection of that name.
    pub open spec fn has(self, name: Seq<char>) -> bool {
        position(self.collections, name) < self.collections.len()
    }

    /// The first collection of that name.
    pub open spec fn collection(self, name: Seq<char>) -> CollectionView {
        self.collections[position(self.collections, name)]
    }
}

/// `position` is in range, points at a collection of that name when inside
/// the sequence, and no collection before it has that name.
pub proof fn lemma_position(cs: Seq<CollectionView>, name: Seq<char>)
    ensures
        0 <= position(cs, name) <= cs.len(),
        position(cs, name) < cs.len() ==> cs[position(cs, name)].name == name,
        forall|i: int| 0 <= i < position(cs, name) ==> cs[i].name != name,
    decreases cs.len(),
{
    if cs.len() > 0 && cs[0].name != name {
        let t = cs.drop_first();
        lemma_position(t, name);
        assert forall|i: int| 0 <= i < position(cs, name) implies cs[i].name != name by {
            if i > 0 {
                assert(cs[i] == t[i - 1]);
            }
        }
        if position(t, name) < t.len() {
            assert(cs[1 + position(t, name)] == t[position(t, name)]);
        }
    }
}

/// A collection of that name with none of that name before it is the first
/// of that name.
pub proof fn lemma_position_is(cs: Seq<CollectionView>, name: Seq<char>, at: int)
    requires
        0 <= at < cs.len(),
        cs[at].name == name,
        forall|i: int| 0 <= i < at ==> cs[i].name != name,
    ensures
        position(cs, name) == at,
{
    lemma_position(cs, name);
    let p = position(cs, name);
    if p < at {
        assert(cs[p].name == name);
    } else if p > at {
        assert(cs[at].name != name);
    }
}

/// The store.
#[derive(Debug)]
pub struct Backend {
    collections: Vec<Collection>,
    signals: Vec<IndexerSignal>,
    closed: bool,
}

impl View for Backend {
    type V = BackendView;

    closed spec fn view(&self) -> BackendView {
        BackendView {
            collections: collection_views(self.collections@),
            signals: signal_views(self.signals@),
            closed: self.closed,
        }
    }
}

impl Backend {
    /// A store with the given collections, no signal sent, and an indexer that
    /// takes signals.
    pub fn open(collections: Vec<Collection>) -> (r: Self)
        ensures
            r@ == (BackendView {
                collections: collection_views(collections@),
                signals: Seq::empty(),
                closed: false,
            }),
    {
        let r = Backend { collections, signals: Vec::new(), closed: false };
        proof {
            assert(r@.signals =~= Seq::empty());
        }
        r
    }

    /// Where the first collection of that name stands.
    fn find(&self, name: &str) -> (r: usize)
        ensures
            r == position(self@.collections, name@),
            r <= self.collections@.len(),
    {
        let ghost all = self@.collections;
        let mut i: usize = 0;
        proof {
            assert(all.skip(0) =~= all);
        }
        while i < self.collections.len()
            invariant
                i <= self.collections@.len(),
                all == self@.collections,
                position(all, name@) == i + position(all.skip(i as int), name@),
            decreases self.collections@.len() - i,
        {
            proof {
                assert(all.skip(i as int)[0] == self.collections@[i as int]@);
                assert(all.skip(i as int).drop_first() =~= all.skip(i as int + 1));
            }
            if same_text(self.collections[i].name.as_str(), name) {
                return i;
            }
            i += 1;
        }
        i
    }

    /// The collection of that name. It is made, empty, if there is none. The
    /// indexer is told to watch it; where the indexer no longer takes
    /// signals that fails with `SignalError`, after the collection was made.
    pub fn get_collection(&mut self, name: &str) -> (r: Result<&mut Collection, MauveError>)
        ensures
            match r {
                Ok(c) => {
                    &&& !old(self)@.closed
                    &&& c@ == if old(self)@.has(name@) {
                        old(self)@.collection(name@)
                    } else {
                        Collection::empty_view(name@)
                    }
                    &&& final(self)@ == (BackendView {
                        collections: if old(self)@.has(name@) {
                            old(self)@.collections.update(
                                position(old(self)@.collections, name@),
                                final(c)@,
                            )
                        } else {
                            old(self)@.collections.push(final(c)@)
                        },
                        signals: old(self)@.signals.push(SignalView::Watch(name@)),
                        closed: false,
                    })
                },
                Err(MauveError::SignalError(_)) => {
                    &&& old(self)@.closed
                    &&& final(self)@ == (BackendView {
                        collections: if old(self)@.has(name@) {
                            old(self)@.collections
                        } else {
                            old(self)@.collections.push(Collection::empty_view(name@))
                        },
                        signals: old(self)@.signals,
                        closed: true,
                    })
                },
                Err(_) => false,
            },
    {
        let at = self.find(name);
        proof {
            lemma_position(old(self)@.collections, name@);
        }
        if at == self.collections.len() {
            self.collections.push(Collection::new(name));
            proof {
                assert(self@.collections =~= old(self)@.collections.push(
                    Collection::empty_view(name@),
                ));
            }
        }
        if self.closed {
            return Err(MauveError::SignalError("the indexer takes no signals".to_owned()));
        }
        self.signals.push(IndexerSignal::Watch(name.to_owned()));
        proof {
            assert(self@.signals =~= old(self)@.signals.push(SignalView::Watch(name@)));
            let cs = self.collections@;
            assert forall|c: Collection| #[trigger]
                collection_views(cs.update(at as int, c)) == collection_views(cs).update(
                    at as int,
                    c@,
                ) by {
                assert(collection_views(cs.update(at as int, c)) =~= collection_views(cs).update(
                    at as int,
                    c@,
                ));
            }
            if !old(self)@.has(name@) {
                assert forall|c: CollectionView|
                    #[trigger] old(self)@.collections.push(Collection::empty_view(name@)).update(
                        at as int,
                        c,
                    ) == old(self)@.collections.push(c) by {
                    assert(old(self)@.collections.push(Collection::empty_view(name@)).update(
                        at as int,
                        c,
                    ) =~= old(self)@.collections.push(c));
                }
            }
        }
        Ok(&mut self.collections[at])
    }

    /// The collection of that name, if there is one. Nothing is made and no
    /// signal is sent.
    pub fn collection(&self, name: &str) -> (r: Option<&Collection>)
        ensures
            match r {
                Some(c) => self@.has(name@) && c@ == self@.collection(name@),
                None => !self@.has(name@),
            },
    {
        let at = self.find(name);
        if at < self.collections.len() {
            Some(&self.collections[at])
        } else {
            None
        }
    }

    /// The collection of that name, to be changed, if there is one. Nothing
    /// is made and no signal is sent.
    pub fn collection_mut(&mut self, name: &str) -> (r: Option<&mut Collection>)
        ensures
            match r {
                Some(c) => {
                    &&& old(self)@.has(name@)
                    &&& c@ == old(self)@.collection(name@)
                    &&& final(self)@ == (BackendView {
                        collections: old(self)@.collections.update(
                            position(old(self)@.collections, name@),
                            final(c)@,
                        ),
                        signals: old(self)@.signals,
                        closed: old(self)@.closed,
                    })
                },
                None => !old(self)@.has(name@) && final(self)@ == old(self)@,
            },
    {
        let at = self.find(name);
        if at < self.collections.len() {
            proof {
                let cs = self.collections@;
                assert forall|c: Collection| #[trigger]
                    collection_views(cs.update(at as int, c)) == collection_views(cs).update(
                        at as int,
                        c@,
                    ) by {
                    assert(collection_views(cs.update(at as int, c)) =~= collection_views(
                        cs,
                    ).update(at as int, c@));
                }
            }
            Some(&mut self.collections[at])
        } else {
            None
        }
    }

    /// The names of all key spaces of the store: four for each collection.
    pub fn tree_names(&self) -> (r: Vec<String>)
        ensures
            Seq::new(r@.len(), |i: int| r@[i]@) == all_tree_names(self@.collections),
    {
        let ghost all = self@.collections;
        let mut found: Vec<String> = Vec::new();
        let mut i: usize = 0;
        proof {
            assert(all.take(0) =~= Seq::empty());
            assert(Seq::new(found@.len(), |i: int| found@[i]@) =~= all_tree_names(all.take(0)));
        }
        while i < self.collections.len()
            invariant
                i <= self.collections@.len(),
                all == self@.collections,
                Seq::new(found@.len(), |i: int| found@[i]@) == all_tree_names(all.take(i as int)),
            decreases self.collections@.len() - i,
        {
            let ghost earlier = Seq::new(found@.len(), |i: int| found@[i]@);
            found.push(self.collections[i].data_tree_name());
            found.push(self.collections[i].meta_tree_name());
            found.push(self.collections[i].fwd_tree_name());
            found.push(self.collections[i].rev_tree_name());
            proof {
                assert(all.take(i as int + 1).drop_last() =~= all.take(i as int));
                assert(all.take(i as int + 1).last() == self.collections@[i as int]@);
                assert(Seq::new(found@.len(), |i: int| found@[i]@) =~= earlier + tree_names(
                    self.collections@[i as int].name@,
                ));
            }
            i += 1;
        }
        proof {
            assert(all.take(i as int) =~= all);
        }
        found
    }

    /// The names of the collections: those that the names of the key spaces
    /// with metadata give, in the order of the key spaces.
    pub fn list_collections(&self) -> (r: Result<Vec<String>, MauveError>)
        ensures
            r matches Ok(found) && Seq::new(found@.len(), |i: int| found@[i]@) == names_of(
                self@.collections,
            ),
    {
        let names = self.tree_names();
        let ghost all = Seq::new(names@.len(), |i: int| names@[i]@);
        let mut found: Vec<String> = Vec::new();
        let mut i: usize = 0;
        proof {
            assert(all.take(0) =~= Seq::empty());
            assert(Seq::new(found@.len(), |i: int| found@[i]@) =~= collections_among(all.take(0)));
        }
        while i < names.len()
            invariant
                i <= names@.len(),
                all == Seq::new(names@.len(), |i: int| names@[i]@),
                Seq::new(found@.len(), |i: int| found@[i]@) == collections_among(
                    all.take(i as int),
                ),
            decreases names@.len() - i,
        {
            proof {
                assert(all.take(i as int + 1).drop_last() =~= all.take(i as int));
                assert(all.take(i as int + 1).last() == names@[i as int]@);
            }
            let ghost earlier = Seq::new(found@.len(), |i: int| found@[i]@);
            match Collection::named_by(names[i].as_str()) {
                Some(c) => {
                    found.push(c);
                    proof {
                        assert(Seq::new(found@.len(), |i: int| found@[i]@) =~= earlier.push(
                            collection_of(names@[i as int]@).unwrap(),
                        ));
                    }
                },
                None => {},
            }
            i += 1;
        }
        proof {
            assert(all.take(i as int) =~= all);
            lemma_collections_listed(self@.collections);
        }
        Ok(found)
    }

    /// Deletes the collections of that name with all that they hold, after
    /// telling the indexer to stop watching. Where the indexer no longer
    /// takes signals nothing is deleted and the error is `SignalError`.
    pub fn delete_collection(&mut self, name: &str) -> (r: Result<String, MauveError>)
        ensures
            match r {
                Ok(s) => {
                    &&& s@ == name@
                    &&& !old(self)@.closed
                    &&& final(self)@ == (BackendView {
                        collections: others(old(self)@.collections, name@),
                        signals: old(self)@.signals.push(SignalView::Unwatch(name@)),
                        closed: false,
                    })
                },
                Err(MauveError::SignalError(_)) => old(self)@.closed && final(self)@ == old(self)@,
                Err(_) => false,
            },
    {
        if let Err(e) = self.send_signal(IndexerSignal::Unwatch(name.to_owned())) {
            return Err(e);
        }
        let ghost all = old(self)@.collections;
        let ghost keep = |c: CollectionView| c.name != name@;
        let mut left: Vec<Collection> = Vec::new();
        std::mem::swap(&mut self.collections, &mut left);
        let mut kept: Vec<Collection> = Vec::new();
        proof {
            reveal(Seq::filter);
            assert(collection_views(kept@) =~= Seq::empty());
            assert(Seq::<CollectionView>::empty() + all.filter(keep) =~= all.filter(keep));
        }
        while left.len() > 0
            invariant
                keep == |c: CollectionView| c.name != name@,
                all.filter(keep) == collection_views(kept@) + collection_views(left@).filter(keep),
            decreases left@.len(),
        {
            let ghost before = collection_views(left@);
            let ghost earlier = collection_views(kept@);
            let c = left.remove(0);
            proof {
                reveal_with_fuel(Seq::filter, 2);
                let rest = collection_views(left@);
                assert(before =~= seq![c@] + rest);
                Seq::filter_distributes_over_add(seq![c@], rest, keep);
                assert(seq![c@].drop_last() =~= Seq::empty());
                assert(seq![c@].filter(keep) =~= if keep(c@) {
                    seq![c@]
                } else {
                    Seq::empty()
                });
            }
            if !same_text(c.name.as_str(), name) {
                kept.push(c);
                proof {
                    assert(collection_views(kept@) =~= earlier + seq![c@]);
                    assert(earlier + (seq![c@] + collection_views(left@).filter(keep)) =~= earlier
                        + seq![c@] + collection_views(left@).filter(keep));
                }
            } else {
                proof {
                    assert(Seq::<CollectionView>::empty() + collection_views(left@).filter(keep)
                        =~= collection_views(left@).filter(keep));
                }
            }
        }
        proof {
            reveal(Seq::filter);
            assert(collection_views(left@) =~= Seq::empty());
            assert(collection_views(kept@) + Seq::<CollectionView>::empty() =~= collection_views(
                kept@,
            ));
        }
        self.collections = kept;
        Ok(name.to_owned())
    }

    /// Sends a signal to the indexer. Where the indexer no longer takes
    /// signals nothing is sent and the error is `SignalError`.
    pub fn send_signal(&mut self, signal: IndexerSignal) -> (r: Result<(), MauveError>)
        ensures
            match r {
                Ok(_) => !old(self)@.closed && final(self)@ == (BackendView {
                    collections: old(self)@.collections,
                    signals: old(self)@.signals.push(signal@),
                    closed: false,
                }),
                Err(MauveError::SignalError(_)) => old(self)@.closed && final(self)@ == old(self)@,
                Err(_) => false,
            },
    {
        if self.closed {
            return Err(MauveError::SignalError("the indexer takes no signals".to_owned()));
        }
        let ghost sent = signal@;
        self.signals.push(signal);
        proof {
            assert(self@.signals =~= old(self)@.signals.push(sent));
        }
        Ok(())
    }

    /// Hands out the signals that were sent and not yet taken, in the order
    /// in which they were sent.
    pub fn take_signals(&mut self) -> (r: Vec<IndexerSignal>)
        ensures
            signal_views(r@) == old(self)@.signals,
            final(self)@ == (BackendView {
                collections: old(self)@.collections,
                signals: Seq::empty(),
                closed: old(self)@.closed,
            }),
    {
        let mut taken: Vec<IndexerSignal> = Vec::new();
        std::mem::swap(&mut self.signals, &mut taken);
        proof {
            assert(self@.signals =~= Seq::empty());
        }
        taken
    }

    /// Notes that the indexer no longer takes signals.
    pub fn close(&mut self)
        ensures
            final(self)@ == (BackendView {
                collections: old(self)@.collections,
                signals: old(self)@.signals,
                closed: true,
            }),
    {
        self.closed = true;
    }

    /// How many collections there are.
    pub fn len(&self) -> (r: usize)
        ensures
            r == self@.collections.len(),
    {
        self.collections.len()
    }
}

} // verus!
