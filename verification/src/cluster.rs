//! The store as a replicated state machine: the requests that are replicated,
//! and what applying one to the store does.

use vstd::prelude::*;
use vstd::string::*;
use vstd::utf8::*;
use crate::backend::{lemma_position, others, position, Backend, BackendView};
use crate::collection::{Collection, CollectionView};
use crate::indexer::SignalView;
use crate::errors::MauveError;
use crate::text::concat3;

verus! {

/// A change of the store that is replicated.
#[derive(Debug)]
pub enum Request {
    /// Delete a collection.
    DeleteCollection { name: String },
    /// Store an object, in place of one of the same name.
    PutObject { collection: String, name: String, object: Vec<u8> },
    /// Delete an object.
    DeleteObject { collection: String, name: String },
}

/// The answer to a replicated change.
#[derive(Debug)]
pub enum Response {
    /// Nothing was to be done.
    Empty,
    /// The collection of that name was deleted.
    DeleteCollection { path: String },
    /// The object at `collection/name` was stored.
    PutObject { path: String },
    /// The object at `collection/name` was deleted.
    DeleteObject { path: String },
}

/// The path `collection/name`.
pub open spec fn object_path(collection: Seq<char>, name: Seq<char>) -> Seq<char> {
    collection + "/"@ + name
}

/// The collection of that name as a change finds it: the first of that name,
/// or an empty one where there is none.
pub open spec fn found_or_made(b: BackendView, name: Seq<char>) -> CollectionView {
    if b.has(name) {
        b.collection(name)
    } else {
        Collection::empty_view(name)
    }
}

/// The collections with `changed` in place of the first collection of that
/// name, or at the end where there is none.
pub open spec fn with_collection(
    b: BackendView,
    name: Seq<char>,
    changed: CollectionView,
) -> Seq<CollectionView> {
    if b.has(name) {
        b.collections.update(position(b.collections, name), changed)
    } else {
        b.collections.push(changed)
    }
}

/// A collection with other objects.
pub open spec fn with_data(c: CollectionView, data: Map<Seq<u8>, Seq<u8>>) -> CollectionView {
    CollectionView {
        name: c.name,
        data,
        meta: c.meta,
        index_fwd: c.index_fwd,
        index_rev: c.index_rev,
    }
}

/// The store after a change was applied while the indexer takes signals, and
/// the path that the answer carries. The collection of an object is made if
/// it is not there, and the indexer is told to watch it; a deleted
/// collection is unwatched.
pub open spec fn applied(b: BackendView, request: Request) -> (BackendView, Seq<char>) {
    match request {
        Request::PutObject { collection, name, object } => (
            BackendView {
                collections: with_collection(
                    b,
                    collection@,
                    with_data(
                        found_or_made(b, collection@),
                        found_or_made(b, collection@).data.insert(encode_utf8(name@), object@),
                    ),
                ),
                signals: b.signals.push(SignalView::Watch(collection@)),
                closed: false,
            },
            object_path(collection@, name@),
        ),
        Request::DeleteObject { collection, name } => (
            BackendView {
                collections: with_collection(
                    b,
                    collection@,
                    with_data(
                        found_or_made(b, collection@),
                        found_or_made(b, collection@).data.remove(encode_utf8(name@)),
                    ),
                ),
                signals: b.signals.push(SignalView::Watch(collection@)),
                closed: false,
            },
            object_path(collection@, name@),
        ),
        Request::DeleteCollection { name } => (
            BackendView {
                collections: others(b.collections, name@),
                signals: b.signals.push(SignalView::Unwatch(name@)),
                closed: false,
            },
            name@,
        ),
    }
}

/// The store after a change was refused because the indexer takes no
/// signals: the collection of an object is made all the same.
pub open spec fn refused(b: BackendView, request: Request) -> BackendView {
    match request {
        Request::PutObject { collection, .. } => BackendView {
            collections: with_collection(b, collection@, found_or_made(b, collection@)),
            signals: b.signals,
            closed: true,
        },
        Request::DeleteObject { collection, .. } => BackendView {
            collections: with_collection(b, collection@, found_or_made(b, collection@)),
            signals: b.signals,
            closed: true,
        },
        Request::DeleteCollection { .. } => b,
    }
}

/// The path that an answer carries, and whether the answer is of the kind
/// that goes with the request.
pub open spec fn answers_to(response: Response, request: Request, path: Seq<char>) -> bool {
    match (request, response) {
        (Request::PutObject { .. }, Response::PutObject { path: p }) => p@ == path,
        (Request::DeleteObject { .. }, Response::DeleteObject { path: p }) => p@ == path,
        (Request::DeleteCollection { .. }, Response::DeleteCollection { path: p }) => p@ == path,
        _ => false,
    }
}

impl Backend {
    /// Applies a replicated change. Where the indexer no longer takes signals
    /// the change fails with `SignalError`.
    pub fn apply(&mut self, request: Request) -> (r: Result<Response, MauveError>)
        ensures
            match r {
                Ok(response) => !old(self)@.closed && final(self)@ == applied(
                    old(self)@,
                    request,
                ).0 && answers_to(response, request, applied(old(self)@, request).1),
                Err(MauveError::SignalError(_)) => old(self)@.closed && final(self)@ == refused(
                    old(self)@,
                    request,
                ),
                Err(_) => false,
            },
    {
        match request {
            Request::PutObject { collection, name, object } => {
                let path = concat3(collection.as_str(), "/", name.as_str());
                let target = match self.get_collection(collection.as_str()) {
                    Ok(target) => target,
                    Err(e) => {
                        proof {
                            lemma_position(old(self)@.collections, collection@);
                            if old(self)@.has(collection@) {
                                assert(old(self)@.collections.update(
                                    position(old(self)@.collections, collection@),
                                    old(self)@.collection(collection@),
                                ) =~= old(self)@.collections);
                            }
                        }
                        return Err(e);
                    },
                };
                let _ = target.put_object(name.as_str(), object, true);
                Ok(Response::PutObject { path })
            },
            Request::DeleteObject { collection, name } => {
                let path = concat3(collection.as_str(), "/", name.as_str());
                let target = match self.get_collection(collection.as_str()) {
                    Ok(target) => target,
                    Err(e) => {
                        proof {
                            lemma_position(old(self)@.collections, collection@);
                            if old(self)@.has(collection@) {
                                assert(old(self)@.collections.update(
                                    position(old(self)@.collections, collection@),
                                    old(self)@.collection(collection@),
                                ) =~= old(self)@.collections);
                            }
                        }
                        return Err(e);
                    },
                };
                let _ = target.delete_object(name.as_str());
                Ok(Response::DeleteObject { path })
            },
            Request::DeleteCollection { name } => {
                match self.delete_collection(name.as_str()) {
                    Ok(path) => Ok(Response::DeleteCollection { path }),
                    Err(e) => Err(e),
                }
            },
        }
    }
}

} // verus!
