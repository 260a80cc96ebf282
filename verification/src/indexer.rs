//! The label indexer: a supervisor that keeps one worker per watched
//! collection, and the worker that mirrors a collection's objects into its two
//! label indexes.
//!
//! The supervisor is a state machine: it takes one signal at a time and says
//! what has to be done with the workers' control channels. Channels are named
//! by the position at which their worker was registered.

use vstd::prelude::*;
use vstd::utf8::*;
use dashmap::DashMap;
use crate::collection::{Collection, CollectionView};
use crate::errors::MauveError;
use crate::labels::{Label, LabelView};
use crate::meta::{read_metadata, Metadata};
use crate::objects::{
    decode_posting, encode_posting, parse_posting, posting_bytes, ref_views, ObjectRef,
    ObjectRefView,
};
use crate::text::{from_utf8, utf8_bytes};
use crate::tree::Tree;

verus! {

/// `dashmap::DashMap`, taken as it is: nothing is known of a map but what
/// `watch_map` says it holds.
#[verifier::external_type_specification]
#[verifier::external_body]
#[verifier::reject_recursive_types(K)]
#[verifier::reject_recursive_types(V)]
#[verifier::reject_recursive_types(S)]
pub struct ExDashMap<K, V, S>(DashMap<K, V, S>);

/// The entries of a registry of workers: collection name to channel. A
/// registry is changed only through a unique reference to it, so that what
/// it holds goes with its value.
pub uninterp spec fn watch_map(m: DashMap<String, usize>) -> Map<Seq<char>, usize>;

/// `DashMap::new`: a map without entries.
#[verifier::external_body]
fn watch_new() -> (r: DashMap<String, usize>)
    ensures
        watch_map(r) =~= Map::empty(),
{
    DashMap::new()
}

/// `DashMap::contains_key`: whether the map has an entry for the key.
#[verifier::external_body]
fn watch_contains(m: &DashMap<String, usize>, name: &String) -> (r: bool)
    ensures
        r == watch_map(*m).contains_key(name@),
{
    m.contains_key(name)
}

/// `DashMap::insert`: the map gets the entry, in place of an earlier one for
/// the same key, whose value is returned.
#[verifier::external_body]
fn watch_insert(m: &mut DashMap<String, usize>, name: String, worker: usize) -> (r: Option<usize>)
    ensures
        watch_map(*final(m)) == watch_map(*old(m)).insert(name@, worker),
        r == if watch_map(*old(m)).contains_key(name@) {
            Some(watch_map(*old(m))[name@])
        } else {
            None
        },
{
    m.insert(name, worker)
}

/// `DashMap::get`: the value stored for the key, if there is one.
#[verifier::external_body]
fn watch_get(m: &DashMap<String, usize>, name: &String) -> (r: Option<usize>)
    ensures
        r == if watch_map(*m).contains_key(name@) {
            Some(watch_map(*m)[name@])
        } else {
            None
        },
{
    m.get(name).map(|entry| *entry.value())
}

/// `DashMap::iter`, keys only: every key of the map once, in no stated order.
#[verifier::external_body]
fn watch_keys(m: &DashMap<String, usize>) -> (r: Vec<String>)
    ensures
        forall|i: int, j: int| 0 <= i < j < r@.len() ==> r@[i]@ != r@[j]@,
        forall|k: Seq<char>|
            watch_map(*m).contains_key(k) <==> exists|i: int| 0 <= i < r@.len() && r@[i]@ == k,
{
    m.iter().map(|entry| entry.key().clone()).collect()
}

/// What a signal says.
pub enum SignalView {
    Watch(Seq<char>),
    Unwatch(Seq<char>),
    Rebuild(Seq<char>),
    Shutdown,
}

/// A signal to the indexer. Each but `Shutdown` names a collection.
#[derive(Debug)]
pub enum IndexerSignal {
    /// Keep the indexes of this collection up to date.
    Watch(String),
    /// Stop doing so.
    Unwatch(String),
    /// Build the indexes of this collection anew. Reserved: nothing is done.
    Rebuild(String),
    /// Stop every worker, then the supervisor.
    Shutdown,
}

impl View for IndexerSignal {
    type V = SignalView;

    open spec fn view(&self) -> SignalView {
        match self {
            IndexerSignal::Watch(c) => SignalView::Watch(c@),
            IndexerSignal::Unwatch(c) => SignalView::Unwatch(c@),
            IndexerSignal::Rebuild(c) => SignalView::Rebuild(c@),
            IndexerSignal::Shutdown => SignalView::Shutdown,
        }
    }
}

impl Clone for IndexerSignal {
    fn clone(&self) -> (r: Self)
        ensures
            r == *self,
    {
        match self {
            IndexerSignal::Watch(c) => IndexerSignal::Watch(c.clone()),
            IndexerSignal::Unwatch(c) => IndexerSignal::Unwatch(c.clone()),
            IndexerSignal::Rebuild(c) => IndexerSignal::Rebuild(c.clone()),
            IndexerSignal::Shutdown => IndexerSignal::Shutdown,
        }
    }
}

/// What the supervisor asks for.
pub enum ActionView {
    Spawn { collection: Seq<char>, worker: usize },
    Forward { worker: usize, signal: SignalView },
    Stop { workers: nat },
    Nothing,
}

/// What the supervisor asks of whoever runs the workers.
#[derive(Debug)]
pub enum IndexerAction {
    /// Start a worker for `collection`, listening on channel `worker`.
    Spawn { collection: String, worker: usize },
    /// Send `signal` on channel `worker`.
    Forward { worker: usize, signal: IndexerSignal },
    /// Send `Shutdown` on each of the channels `0..workers`, then stop.
    Stop { workers: usize },
    /// Nothing to do.
    Nothing,
}

impl View for IndexerAction {
    type V = ActionView;

    open spec fn view(&self) -> ActionView {
        match self {
            IndexerAction::Spawn { collection, worker } => ActionView::Spawn {
                collection: collection@,
                worker: *worker,
            },
            IndexerAction::Forward { worker, signal } => ActionView::Forward {
                worker: *worker,
                signal: signal@,
            },
            IndexerAction::Stop { workers } => ActionView::Stop { workers: *workers as nat },
            IndexerAction::Nothing => ActionView::Nothing,
        }
    }
}

/// The state of the supervisor: for each watched collection the channel of its
/// worker, and for each channel the collection it serves.
pub struct IndexerView {
    pub watching: Map<Seq<char>, usize>,
    pub workers: Seq<Seq<char>>,
}

impl IndexerView {
    /// One step of the supervisor: the state after the signal, and what it
    /// asks for.
    ///
    /// `Watch` registers a collection that is not yet watched and asks for a
    /// worker on a new channel; on a watched one it does nothing. `Unwatch` is
    /// handed on to the worker of a watched collection and dropped otherwise.
    /// `Rebuild` does nothing. `Shutdown` asks to stop every worker.
    pub open spec fn step(self, signal: SignalView) -> (IndexerView, ActionView) {
        match signal {
            SignalView::Watch(c) => if self.watching.contains_key(c) {
                (self, ActionView::Nothing)
            } else {
                (
                    IndexerView {
                        watching: self.watching.insert(c, self.workers.len() as usize),
                        workers: self.workers.push(c),
                    },
                    ActionView::Spawn { collection: c, worker: self.workers.len() as usize },
                )
            },
            SignalView::Unwatch(c) => if self.watching.contains_key(c) {
                (self, ActionView::Forward { worker: self.watching[c], signal })
            } else {
                (self, ActionView::Nothing)
            },
            SignalView::Rebuild(_) => (self, ActionView::Nothing),
            SignalView::Shutdown => (self, ActionView::Stop { workers: self.workers.len() }),
        }
    }

    /// The supervisor's loop over a queue of signals: one step for each, in
    /// order, up to and including the first `Shutdown`.
    pub open spec fn run(self, signals: Seq<SignalView>) -> (IndexerView, Seq<ActionView>)
        decreases signals.len(),
    {
        if signals.len() == 0 {
            (self, Seq::empty())
        } else {
            let (next, action) = self.step(signals[0]);
            if signals[0] is Shutdown {
                (next, seq![action])
            } else {
                let (last, rest) = next.run(signals.drop_first());
                (last, seq![action] + rest)
            }
        }
    }

    /// Every watched collection has a channel, and that channel serves it.
    pub open spec fn consistent(self) -> bool {
        forall|c: Seq<char>| #[trigger]
            self.watching.contains_key(c) ==> self.watching[c] < self.workers.len()
                && self.workers[self.watching[c] as int] == c
    }
}

/// The supervisor of the collection workers.
pub struct Indexer {
    watching: DashMap<String, usize>,
    mux: Vec<String>,
}

impl View for Indexer {
    type V = IndexerView;

    closed spec fn view(&self) -> IndexerView {
        IndexerView {
            watching: watch_map(self.watching),
            workers: Seq::new(self.mux@.len(), |i: int| self.mux@[i]@),
        }
    }
}

/// A `Watch` for each of some collections, in their order.
pub open spec fn watch_each(names: Seq<Seq<char>>) -> Seq<SignalView> {
    Seq::new(names.len(), |i: int| SignalView::Watch(names[i]))
}

/// The views of some signals.
pub open spec fn signal_seq(signals: Seq<IndexerSignal>) -> Seq<SignalView> {
    Seq::new(signals.len(), |i: int| signals[i]@)
}

/// The views of some actions.
pub open spec fn action_views(actions: Seq<IndexerAction>) -> Seq<ActionView> {
    Seq::new(actions.len(), |i: int| actions[i]@)
}

/// The outcome of a run that goes on after `done` was asked for.
pub open spec fn run_on(done: Seq<ActionView>, rest: (IndexerView, Seq<ActionView>)) -> (
    IndexerView,
    Seq<ActionView>,
) {
    (rest.0, done + rest.1)
}

/// A run that has asked for nothing yet is the run.
proof fn lemma_run_on(state: IndexerView, done: Seq<ActionView>, signals: Seq<SignalView>)
    requires
        done.len() == 0,
    ensures
        run_on(done, state.run(signals)) == state.run(signals),
{
    assert(done + state.run(signals).1 =~= state.run(signals).1);
}

/// A step of the supervisor keeps its registry consistent.
pub proof fn lemma_step_keeps_consistent(state: IndexerView, signal: SignalView)
    requires
        state.consistent(),
        state.workers.len() < usize::MAX,
    ensures
        state.step(signal).0.consistent(),
{
    let next = state.step(signal).0;
    match signal {
        SignalView::Watch(w) => {
            if !state.watching.contains_key(w) {
                assert forall|c: Seq<char>| #[trigger]
                    next.watching.contains_key(c) implies next.watching[c] < next.workers.len()
                    && next.workers[next.watching[c] as int] == c by {
                    if c != w {
                        assert(state.watching.contains_key(c));
                    }
                }
            }
        },
        _ => {},
    }
}

/// A collection that is watched stays watched, on the same channel, whatever
/// signal comes: a second `Watch` starts no second worker.
pub proof fn lemma_watch_is_idempotent(state: IndexerView, collection: Seq<char>)
    ensures
        state.step(SignalView::Watch(collection)).0.watching.contains_key(collection),
        state.step(SignalView::Watch(collection)).0.step(SignalView::Watch(collection)) == (
            state.step(SignalView::Watch(collection)).0,
            ActionView::Nothing,
        ),
{
}

impl Indexer {
    /// A supervisor that watches the collections of a store, with one channel
    /// for each, in their order.
    pub fn initialize(backend: &crate::backend::Backend) -> (r: Result<Self, MauveError>)
        ensures
            r matches Ok(made) && made@.consistent() && made@ == (IndexerView {
                watching: Map::empty(),
                workers: Seq::empty(),
            }).run(watch_each(crate::backend::names_of(backend@.collections))).0,
    {
        match backend.list_collections() {
            Ok(collections) => {
                proof {
                    assert(Seq::new(
                        collections@.len(),
                        |i: int| SignalView::Watch(collections@[i]@),
                    ) =~= watch_each(crate::backend::names_of(backend@.collections)));
                }
                Ok(Self::with_collections(collections))
            },
            Err(e) => Err(e),
        }
    }

    /// A supervisor that watches the given collections, with one channel for
    /// each, in their order: the state after a `Watch` for each of them.
    pub fn with_collections(collections: Vec<String>) -> (r: Self)
        ensures
            r@.consistent(),
            r@ == (IndexerView { watching: Map::empty(), workers: Seq::empty() }).run(
                Seq::new(collections@.len(), |i: int| SignalView::Watch(collections@[i]@)),
            ).0,
    {
        let mut this = Self { watching: watch_new(), mux: Vec::new() };
        let ghost start = IndexerView { watching: Map::empty(), workers: Seq::empty() };
        let ghost signals = Seq::new(collections@.len(), |i: int| SignalView::Watch(collections@[i]@));
        proof {
            assert(this@.workers =~= start.workers);
            assert(this@.watching =~= start.watching);
            assert(signals.skip(0) =~= signals);
        }
        let mut i: usize = 0;
        while i < collections.len()
            invariant
                i <= collections@.len(),
                signals == Seq::new(collections@.len(), |i: int| SignalView::Watch(collections@[i]@)),
                this@.consistent(),
                this@.workers.len() <= i,
                start.run(signals).0 == this@.run(signals.skip(i as int)).0,
            decreases collections@.len() - i,
        {
            proof {
                assert(signals.skip(i as int)[0] == signals[i as int]);
                assert(signals.skip(i as int).drop_first() =~= signals.skip(i as int + 1));
                lemma_step_keeps_consistent(this@, signals[i as int]);
            }
            let _ = this.handle(IndexerSignal::Watch(collections[i].clone()));
            i += 1;
        }
        proof {
            assert(signals.skip(i as int).len() == 0);
        }
        this
    }

    /// Takes one signal and says what has to be done.
    pub fn handle(&mut self, signal: IndexerSignal) -> (r: IndexerAction)
        ensures
            (final(self)@, r@) == old(self)@.step(signal@),
    {
        match signal {
            IndexerSignal::Watch(c) => {
                if watch_contains(&self.watching, &c) {
                    IndexerAction::Nothing
                } else {
                    let worker = self.mux.len();
                    let name = c.clone();
                    let key = c.clone();
                    self.mux.push(c);
                    let _ = watch_insert(&mut self.watching, key, worker);
                    proof {
                        assert(final(self)@.workers =~= old(self)@.workers.push(name@));
                    }
                    IndexerAction::Spawn { collection: name, worker }
                }
            },
            IndexerSignal::Unwatch(c) => {
                match watch_get(&self.watching, &c) {
                    Some(worker) => IndexerAction::Forward {
                        worker,
                        signal: IndexerSignal::Unwatch(c),
                    },
                    None => IndexerAction::Nothing,
                }
            },
            IndexerSignal::Rebuild(_) => IndexerAction::Nothing,
            IndexerSignal::Shutdown => IndexerAction::Stop { workers: self.mux.len() },
        }
    }

    /// Takes the signals of a queue one after the other, up to and including
    /// the first `Shutdown`, and says what has to be done for each.
    pub fn run(&mut self, signals: Vec<IndexerSignal>) -> (r: Vec<IndexerAction>)
        ensures
            (final(self)@, action_views(r@)) == old(self)@.run(signal_seq(signals@)),
    {
        let ghost all = signal_seq(signals@);
        let ghost start = self@;
        let mut actions: Vec<IndexerAction> = Vec::new();
        let mut i: usize = 0;
        proof {
            assert(all.skip(0) =~= all);
            assert(action_views(actions@) =~= Seq::empty());
            lemma_run_on(self@, Seq::empty(), all);
        }
        while i < signals.len()
            invariant
                i <= signals@.len(),
                all == signal_seq(signals@),
                start == old(self)@,
                start.run(all) == run_on(action_views(actions@), self@.run(all.skip(i as int))),
            decreases signals@.len() - i,
        {
            let stop = matches!(signals[i], IndexerSignal::Shutdown);
            let ghost before = self@;
            let ghost earlier = action_views(actions@);
            let action = self.handle(signals[i].clone());
            let ghost done = action@;
            actions.push(action);
            proof {
                assert(all.skip(i as int)[0] == signals@[i as int]@);
                assert(all.skip(i as int).drop_first() =~= all.skip(i as int + 1));
                assert(action_views(actions@) =~= earlier.push(done));
                assert(earlier + seq![done] =~= earlier.push(done));
                assert(stop == (signals@[i as int]@ is Shutdown));
                if !stop {
                    let rest = self@.run(all.skip(i as int + 1));
                    assert(earlier + (seq![done] + rest.1) =~= earlier.push(done) + rest.1);
                } else {
                    assert(before.run(all.skip(i as int)) == (self@, seq![done]));
                }
            }
            if stop {
                return actions;
            }
            i += 1;
        }
        proof {
            assert(all.skip(i as int).len() == 0);
            assert(action_views(actions@) + Seq::<ActionView>::empty() =~= action_views(actions@));
        }
        actions
    }

    /// The collections that are watched, each once, in no stated order.
    pub fn watched(&self) -> (r: Vec<String>)
        ensures
            forall|i: int, j: int| 0 <= i < j < r@.len() ==> r@[i]@ != r@[j]@,
            forall|c: Seq<char>|
                self@.watching.contains_key(c) <==> exists|i: int|
                    0 <= i < r@.len() && r@[i]@ == c,
    {
        watch_keys(&self.watching)
    }

    /// Whether a collection is watched.
    pub fn is_watching(&self, collection: &String) -> (r: bool)
        ensures
            r == self@.watching.contains_key(collection@),
    {
        watch_contains(&self.watching, collection)
    }

    /// How many worker channels there are.
    pub fn workers(&self) -> (r: usize)
        ensures
            r == self@.workers.len(),
    {
        self.mux.len()
    }
}

/// Whether a reference is another than `target`.
pub open spec fn other_than(target: ObjectRefView) -> spec_fn(ObjectRefView) -> bool {
    |r: ObjectRefView| r != target
}

/// The references of a posting that are not `target`, in their order.
pub open spec fn without(refs: Seq<ObjectRefView>, target: ObjectRefView) -> Seq<ObjectRefView> {
    refs.filter(other_than(target))
}

/// An index after `target` was added to the posting under `key`: a posting of
/// its own where there was none, otherwise the posting with `target` at its
/// end. `None` where the posting that is there cannot be read.
pub open spec fn after_upsert(
    index: Map<Seq<u8>, Seq<u8>>,
    key: Seq<u8>,
    target: ObjectRefView,
) -> Option<Map<Seq<u8>, Seq<u8>>> {
    if index.contains_key(key) {
        match parse_posting(index[key]) {
            Some(refs) => Some(index.insert(key, posting_bytes(refs.push(target)))),
            None => None,
        }
    } else {
        Some(index.insert(key, posting_bytes(seq![target])))
    }
}

/// An index after `target` was taken out of the posting under `key`. Where
/// there is no posting nothing changes; a posting of one reference goes as a
/// whole; from a longer one every reference equal to `target` goes. `None`
/// where the posting that is there cannot be read.
pub open spec fn after_downsert(
    index: Map<Seq<u8>, Seq<u8>>,
    key: Seq<u8>,
    target: ObjectRefView,
) -> Option<Map<Seq<u8>, Seq<u8>>> {
    if index.contains_key(key) {
        match parse_posting(index[key]) {
            Some(refs) => if refs.len() == 1 {
                Some(index.remove(key))
            } else {
                Some(index.insert(key, posting_bytes(without(refs, target))))
            },
            None => None,
        }
    } else {
        Some(index)
    }
}

/// One step of bringing an index up to date.
pub open spec fn after_change(
    index: Map<Seq<u8>, Seq<u8>>,
    key: Seq<u8>,
    target: ObjectRefView,
    add: bool,
) -> Option<Map<Seq<u8>, Seq<u8>>> {
    if add {
        after_upsert(index, key, target)
    } else {
        after_downsert(index, key, target)
    }
}

/// The two indexes after `target` was added under, or taken from under, one
/// label: the forward index first, then the reverse one. The third part says
/// whether both postings could be read.
pub open spec fn after_label(
    fwd: Map<Seq<u8>, Seq<u8>>,
    rev: Map<Seq<u8>, Seq<u8>>,
    label: LabelView,
    target: ObjectRefView,
    add: bool,
) -> (Map<Seq<u8>, Seq<u8>>, Map<Seq<u8>, Seq<u8>>, bool) {
    match after_change(fwd, encode_utf8(label.forward()), target, add) {
        None => (fwd, rev, false),
        Some(f) => match after_change(rev, encode_utf8(label.reverse()), target, add) {
            None => (f, rev, false),
            Some(r) => (f, r, true),
        },
    }
}

/// The two indexes after `target` was added under, or taken from under, each
/// of `labels` in turn. The work ends at the first posting that cannot be
/// read; the third part says whether it came to its end.
pub open spec fn after_labels(
    fwd: Map<Seq<u8>, Seq<u8>>,
    rev: Map<Seq<u8>, Seq<u8>>,
    labels: Seq<LabelView>,
    target: ObjectRefView,
    add: bool,
) -> (Map<Seq<u8>, Seq<u8>>, Map<Seq<u8>, Seq<u8>>, bool)
    decreases labels.len(),
{
    if labels.len() == 0 {
        (fwd, rev, true)
    } else {
        let (f, r, done) = after_labels(fwd, rev, labels.drop_last(), target, add);
        if done {
            after_label(f, r, labels.last(), target, add)
        } else {
            (f, r, false)
        }
    }
}

/// A change in the objects of a collection.
#[derive(Debug)]
pub enum Event {
    /// An object was stored under `key`.
    Insert { key: Vec<u8> },
    /// The object under `key` was taken out.
    Remove { key: Vec<u8> },
}

/// How the work on an event ended.
pub enum Outcome {
    /// The indexes are up to date with the event.
    Done,
    /// The key of the event is no UTF-8 text.
    NotText,
    /// The metadata of the object cannot be read.
    BadMetadata,
    /// A posting cannot be read.
    BadPosting,
}

/// How the work on an event ended, as the caller sees it.
pub open spec fn outcome(r: Result<(), MauveError>) -> Outcome {
    match r {
        Ok(_) => Outcome::Done,
        Err(MauveError::Utf8Error(_)) => Outcome::NotText,
        Err(MauveError::CborError(_)) => Outcome::BadMetadata,
        Err(_) => Outcome::BadPosting,
    }
}

/// A collection after its worker has dealt with an event, and how that ended.
///
/// The key names the object. Where no metadata is stored for it, nothing is
/// done. On `Insert` the object is added to the postings of each of its
/// labels. On `Remove` its metadata is taken out of the collection and the
/// object is taken out of the postings of each of its labels.
pub open spec fn after_event(c: CollectionView, key: Seq<u8>, add: bool) -> (
    CollectionView,
    Outcome,
) {
    if !valid_utf8(key) {
        (c, Outcome::NotText)
    } else if !c.meta.contains_key(key) {
        (c, Outcome::Done)
    } else {
        let kept = if add {
            c.meta
        } else {
            c.meta.remove(key)
        };
        let target = (ObjectRefView { collection: c.name, name: decode_utf8(key) }).normalized();
        match read_metadata(c.meta[key]) {
            None => (
                CollectionView {
                    name: c.name,
                    data: c.data,
                    meta: kept,
                    index_fwd: c.index_fwd,
                    index_rev: c.index_rev,
                },
                Outcome::BadMetadata,
            ),
            Some(m) => {
                let (f, r, done) = after_labels(c.index_fwd, c.index_rev, m.labels, target, add);
                (
                    CollectionView { name: c.name, data: c.data, meta: kept, index_fwd: f, index_rev: r },
                    if done {
                        Outcome::Done
                    } else {
                        Outcome::BadPosting
                    },
                )
            },
        }
    }
}

/// What comes to a worker: a change in its collection, a signal on its
/// control channel, or the news that the channel is closed.
#[derive(Debug)]
pub enum WorkerInput {
    Change(Event),
    Control(IndexerSignal),
    Closed,
}

/// Whether a worker goes on after an input: it stops on `Unwatch`, on
/// `Shutdown` and when its channel is closed.
pub open spec fn goes_on(input: WorkerInput) -> bool {
    match input {
        WorkerInput::Change(_) => true,
        WorkerInput::Control(IndexerSignal::Unwatch(_)) => false,
        WorkerInput::Control(IndexerSignal::Shutdown) => false,
        WorkerInput::Control(_) => true,
        WorkerInput::Closed => false,
    }
}

/// The worker that keeps the label indexes of one collection up to date.
#[derive(Debug)]
pub struct CollectionIndexer {
    /// The name of the collection that the worker serves.
    pub collection: String,
}

impl CollectionIndexer {
    /// A worker for the collection of that name.
    pub fn new(collection: &str) -> (r: Self)
        ensures
            r.collection@ == collection@,
    {
        CollectionIndexer { collection: collection.to_owned() }
    }

    /// One turn of the worker's loop. A change is worked into the indexes of
    /// `collection`; if that fails, the worker goes on all the same. The
    /// result says whether the worker goes on.
    pub fn run(&self, collection: &mut Collection, input: WorkerInput) -> (r: bool)
        ensures
            r == goes_on(input),
            match input {
                WorkerInput::Change(Event::Insert { key }) => final(collection)@ == after_event(
                    old(collection)@,
                    key@,
                    true,
                ).0,
                WorkerInput::Change(Event::Remove { key }) => final(collection)@ == after_event(
                    old(collection)@,
                    key@,
                    false,
                ).0,
                _ => *final(collection) == *old(collection),
            },
    {
        match input {
            WorkerInput::Change(event) => {
                let _ = self.process_event(collection, event);
                true
            },
            WorkerInput::Control(IndexerSignal::Unwatch(_)) => false,
            WorkerInput::Control(IndexerSignal::Shutdown) => false,
            WorkerInput::Control(_) => true,
            WorkerInput::Closed => false,
        }
    }

    /// Works one change of the objects into the indexes of `collection`.
    pub fn process_event(&self, collection: &mut Collection, event: Event) -> (r: Result<
        (),
        MauveError,
    >)
        ensures
            match event {
                Event::Insert { key } => (final(collection)@, outcome(r)) == after_event(
                    old(collection)@,
                    key@,
                    true,
                ),
                Event::Remove { key } => (final(collection)@, outcome(r)) == after_event(
                    old(collection)@,
                    key@,
                    false,
                ),
            },
    {
        let (key, add) = match event {
            Event::Insert { key } => (key, true),
            Event::Remove { key } => (key, false),
        };
        let object = match from_utf8(crate::tree::copy_bytes(key.as_slice())) {
            Ok(object) => object,
            Err(message) => {
                return Err(MauveError::Utf8Error(message));
            },
        };
        let target = ObjectRef::new(collection.name.as_str(), object.as_str());
        let stored = if add {
            collection.meta.get(key.as_slice())
        } else {
            collection.meta.remove(key.as_slice())
        };
        let bytes = match stored {
            Some(bytes) => bytes,
            None => {
                proof {
                    assert(old(collection).meta@.remove(key@) =~= old(collection).meta@);
                }
                return Ok(());
            },
        };
        let meta = match Metadata::read(bytes.as_slice()) {
            Some(meta) => meta,
            None => {
                return Err(MauveError::CborError("not the binary form of metadata".to_owned()));
            },
        };
        let labels = meta.labels();
        let ghost all = meta@.labels;
        let ghost fwd = old(collection).index_fwd@;
        let ghost rev = old(collection).index_rev@;
        let mut i: usize = 0;
        proof {
            assert(all.take(0) =~= Seq::empty());
        }
        while i < labels.len()
            invariant
                i <= labels@.len(),
                all == crate::meta::label_views(labels@),
                all == meta@.labels,
                match event {
                    Event::Insert { key: k } => add && k == key,
                    Event::Remove { key: k } => !add && k == key,
                },
                valid_utf8(key@),
                old(collection).meta@.contains_key(key@),
                read_metadata(old(collection).meta@[key@]) == Some(meta@),
                target@ == (ObjectRefView {
                    collection: old(collection).name@,
                    name: decode_utf8(key@),
                }).normalized(),
                collection.name == old(collection).name,
                collection.data == old(collection).data,
                collection.meta@ == if add {
                    old(collection).meta@
                } else {
                    old(collection).meta@.remove(key@)
                },
                fwd == old(collection).index_fwd@,
                rev == old(collection).index_rev@,
                after_labels(fwd, rev, all.take(i as int), target@, add) == (
                    collection.index_fwd@,
                    collection.index_rev@,
                    true,
                ),
            decreases labels@.len() - i,
        {
            proof {
                assert(all.take(i as int + 1).drop_last() =~= all.take(i as int));
                assert(all.take(i as int + 1).last() == labels@[i as int]@);
                lemma_after_labels_failure_stays(fwd, rev, all, i as int + 1, target@, add);
            }
            let ghost f = collection.index_fwd@;
            let ghost r = collection.index_rev@;
            if !Self::index_label(collection, &labels[i], &target, add) {
                proof {
                    assert(after_labels(fwd, rev, all.take(i as int + 1), target@, add)
                        == after_label(f, r, all[i as int], target@, add));
                    assert(!after_labels(fwd, rev, all.take(i as int + 1), target@, add).2);
                    assert(after_labels(fwd, rev, all, target@, add) == (
                        collection.index_fwd@,
                        collection.index_rev@,
                        false,
                    ));
                    assert(all == meta@.labels);
                    assert(read_metadata(old(collection).meta@[key@]) == Some(meta@));
                    assert(valid_utf8(key@));
                    assert(target@ == (ObjectRefView {
                        collection: old(collection).name@,
                        name: decode_utf8(key@),
                    }).normalized());
                }
                return Err(MauveError::SledTxError("a posting cannot be read".to_owned()));
            }
            proof {
                assert(after_labels(fwd, rev, all.take(i as int + 1), target@, add) == after_label(
                    f,
                    r,
                    all[i as int],
                    target@,
                    add,
                ));
            }
            i += 1;
        }
        proof {
            assert(all.take(i as int) =~= all);
        }
        Ok(())
    }

    /// Adds `target` under one label in both indexes, or takes it out, and
    /// says whether both postings could be read.
    fn index_label(collection: &mut Collection, label: &Label, target: &ObjectRef, add: bool) -> (r:
        bool)
        ensures
            final(collection).name == old(collection).name,
            final(collection).data == old(collection).data,
            final(collection).meta == old(collection).meta,
            (final(collection).index_fwd@, final(collection).index_rev@, r) == after_label(
                old(collection).index_fwd@,
                old(collection).index_rev@,
                label@,
                target@,
                add,
            ),
    {
        let changed = if add {
            Self::upsert(&mut collection.index_fwd, label.to_fwd(), target.clone())
        } else {
            Self::downsert(&mut collection.index_fwd, label.to_fwd(), target.clone())
        };
        if changed.is_err() {
            return false;
        }
        let changed = if add {
            Self::upsert(&mut collection.index_rev, label.to_rev(), target.clone())
        } else {
            Self::downsert(&mut collection.index_rev, label.to_rev(), target.clone())
        };
        changed.is_ok()
    }

    /// Adds `target` to the posting under the key `labelstr` of `index`. A
    /// posting that cannot be read is left as it is and reported as
    /// `SledTxError`.
    pub fn upsert(index: &mut Tree, labelstr: String, target: ObjectRef) -> (r: Result<
        (),
        MauveError,
    >)
        ensures
            match after_upsert(old(index)@, encode_utf8(labelstr@), target@) {
                Some(next) => r is Ok && final(index)@ == next,
                None => r matches Err(MauveError::SledTxError(_)) && final(index)@ == old(index)@,
            },
    {
        let key = utf8_bytes(labelstr.as_str());
        let mut refs = match index.get(key.as_slice()) {
            Some(bytes) => match decode_posting(bytes.as_slice()) {
                Some(refs) => refs,
                None => {
                    return Err(MauveError::SledTxError("a posting cannot be read".to_owned()));
                },
            },
            None => Vec::new(),
        };
        let ghost earlier = ref_views(refs@);
        let ghost added = target@;
        refs.push(target);
        proof {
            assert(ref_views(refs@) =~= earlier.push(added));
            if !old(index)@.contains_key(key@) {
                assert(earlier =~= Seq::empty());
                assert(earlier.push(added) =~= seq![added]);
            }
        }
        let _ = index.insert(key, encode_posting(&refs));
        Ok(())
    }

    /// Takes `target` out of the posting under the key `labelstr` of `index`.
    /// A posting that cannot be read is left as it is and reported as
    /// `SledTxError`.
    pub fn downsert(index: &mut Tree, labelstr: String, target: ObjectRef) -> (r: Result<
        (),
        MauveError,
    >)
        ensures
            match after_downsert(old(index)@, encode_utf8(labelstr@), target@) {
                Some(next) => r is Ok && final(index)@ == next,
                None => r matches Err(MauveError::SledTxError(_)) && final(index)@ == old(index)@,
            },
    {
        let key = utf8_bytes(labelstr.as_str());
        let refs = match index.get(key.as_slice()) {
            Some(bytes) => match decode_posting(bytes.as_slice()) {
                Some(refs) => refs,
                None => {
                    return Err(MauveError::SledTxError("a posting cannot be read".to_owned()));
                },
            },
            None => {
                return Ok(());
            },
        };
        if refs.len() == 1 {
            let _ = index.remove(key.as_slice());
            return Ok(());
        }
        let ghost all = ref_views(refs@);
        let ghost keep = other_than(target@);
        let mut kept: Vec<ObjectRef> = Vec::new();
        let mut i: usize = 0;
        proof {
            reveal(Seq::filter);
            assert(all.take(0) =~= Seq::empty());
            assert(ref_views(kept@) =~= Seq::empty());
        }
        while i < refs.len()
            invariant
                i <= refs@.len(),
                all == ref_views(refs@),
                keep == other_than(target@),
                ref_views(kept@) == all.take(i as int).filter(keep),
            decreases refs@.len() - i,
        {
            proof {
                reveal(Seq::filter);
                assert(all.take(i as int + 1).drop_last() =~= all.take(i as int));
                assert(all.take(i as int + 1).last() == refs@[i as int]@);
            }
            if !refs[i].same(&target) {
                let ghost earlier = ref_views(kept@);
                kept.push(refs[i].clone());
                proof {
                    assert(ref_views(kept@) =~= earlier.push(refs@[i as int]@));
                }
            }
            i += 1;
        }
        proof {
            assert(all.take(i as int) =~= all);
        }
        let _ = index.insert(key, encode_posting(&kept));
        Ok(())
    }
}

/// Once the work on the first `n` labels has ended early, the work on all
/// labels ends there too.
pub proof fn lemma_after_labels_failure_stays(
    fwd: Map<Seq<u8>, Seq<u8>>,
    rev: Map<Seq<u8>, Seq<u8>>,
    labels: Seq<LabelView>,
    n: int,
    target: ObjectRefView,
    add: bool,
)
    requires
        0 <= n <= labels.len(),
    ensures
        !after_labels(fwd, rev, labels.take(n), target, add).2 ==> after_labels(
            fwd,
            rev,
            labels,
            target,
            add,
        ) == after_labels(fwd, rev, labels.take(n), target, add),
    decreases labels.len() - n,
{
    if n < labels.len() {
        lemma_after_labels_failure_stays(fwd, rev, labels, n + 1, target, add);
        assert(labels.take(n + 1).drop_last() =~= labels.take(n));
    } else {
        assert(labels.take(n) =~= labels);
    }
}

} // verus!
