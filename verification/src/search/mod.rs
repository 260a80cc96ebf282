//! Label search: what is asked, and what is answered.

pub mod search;

use vstd::prelude::*;
use crate::labels::{Label, LabelView};
use crate::meta::{label_views, Metadata};
use crate::objects::ObjectRef;

verus! {

/// Why a search has no result.
#[derive(Clone, Copy, Debug, PartialEq, Eq, Structural)]
pub enum SearchError {
    /// The search was not run yet.
    NotYetExecuted,
    /// The search ran past its deadline.
    Timeout,
}

/// What one term of a search says.
pub enum SearchLabelView {
    Include(LabelView),
    Exclude(LabelView),
}

/// One term of a search: objects with this label are asked for, or are left
/// out.
#[derive(Debug)]
pub enum SearchLabel {
    Include(Label),
    Exclude(Label),
}

impl View for SearchLabel {
    type V = SearchLabelView;

    open spec fn view(&self) -> SearchLabelView {
        match self {
            SearchLabel::Include(l) => SearchLabelView::Include(l@),
            SearchLabel::Exclude(l) => SearchLabelView::Exclude(l@),
        }
    }
}

impl Clone for SearchLabel {
    fn clone(&self) -> (r: Self)
        ensures
            r == *self,
    {
        match self {
            SearchLabel::Include(l) => SearchLabel::Include(l.clone()),
            SearchLabel::Exclude(l) => SearchLabel::Exclude(l.clone()),
        }
    }
}

/// The views of some terms.
pub open spec fn term_views(ts: Seq<SearchLabel>) -> Seq<SearchLabelView> {
    Seq::new(ts.len(), |i: int| ts[i]@)
}

/// What a search asks.
pub struct SearchRequestView {
    pub collection: Seq<char>,
    pub labels: Seq<SearchLabelView>,
}

/// A search: the collection to look in, and the terms.
#[derive(Debug)]
pub struct SearchRequest {
    /// Name of the collection to search.
    pub collection: String,
    /// Terms of the search, in the order in which they were added.
    pub labels: Vec<SearchLabel>,
}

impl View for SearchRequest {
    type V = SearchRequestView;

    open spec fn view(&self) -> SearchRequestView {
        SearchRequestView { collection: self.collection@, labels: term_views(self.labels@) }
    }
}

/// The terms that ask for each of `labels`, in their order.
pub open spec fn including(labels: Seq<LabelView>) -> Seq<SearchLabelView> {
    Seq::new(labels.len(), |i: int| SearchLabelView::Include(labels[i]))
}

/// The terms that leave out each of `labels`, in their order.
pub open spec fn excluding(labels: Seq<LabelView>) -> Seq<SearchLabelView> {
    Seq::new(labels.len(), |i: int| SearchLabelView::Exclude(labels[i]))
}

impl SearchRequest {
    /// A search in the collection `c`, without terms.
    pub fn new(c: &str) -> (r: Self)
        ensures
            r@ == (SearchRequestView { collection: c@, labels: Seq::empty() }),
    {
        let r = Self { collection: c.to_owned(), labels: Vec::new() };
        proof {
            assert(r@.labels =~= Seq::empty());
        }
        r
    }

    /// Asks for the objects with `label`.
    pub fn include_label(&mut self, label: Label)
        ensures
            final(self)@ == (SearchRequestView {
                collection: old(self)@.collection,
                labels: old(self)@.labels.push(SearchLabelView::Include(label@)),
            }),
    {
        let ghost added = SearchLabelView::Include(label@);
        self.labels.push(SearchLabel::Include(label));
        proof {
            assert(self@.labels =~= old(self)@.labels.push(added));
        }
    }

    /// Leaves out the objects with `label`.
    pub fn exclude(&mut self, label: Label)
        ensures
            final(self)@ == (SearchRequestView {
                collection: old(self)@.collection,
                labels: old(self)@.labels.push(SearchLabelView::Exclude(label@)),
            }),
    {
        let ghost added = SearchLabelView::Exclude(label@);
        self.labels.push(SearchLabel::Exclude(label));
        proof {
            assert(self@.labels =~= old(self)@.labels.push(added));
        }
    }

    /// Asks for the objects with any of `labels`.
    pub fn includes(&mut self, labels: Vec<Label>)
        ensures
            final(self)@ == (SearchRequestView {
                collection: old(self)@.collection,
                labels: old(self)@.labels + including(label_views(labels@)),
            }),
    {
        let ghost all = including(label_views(labels@));
        let mut i: usize = 0;
        proof {
            assert(old(self)@.labels + all.take(0) =~= old(self)@.labels);
        }
        while i < labels.len()
            invariant
                i <= labels@.len(),
                all == including(label_views(labels@)),
                self@.collection == old(self)@.collection,
                self@.labels == old(self)@.labels + all.take(i as int),
            decreases labels@.len() - i,
        {
            let ghost before = self@.labels;
            self.include_label(labels[i].clone());
            proof {
                assert(self@.labels =~= old(self)@.labels + all.take(i as int + 1));
            }
            i += 1;
        }
        proof {
            assert(all.take(i as int) =~= all);
        }
    }

    /// Leaves out the objects with any of `labels`.
    pub fn excludes(&mut self, labels: Vec<Label>)
        ensures
            final(self)@ == (SearchRequestView {
                collection: old(self)@.collection,
                labels: old(self)@.labels + excluding(label_views(labels@)),
            }),
    {
        let ghost all = excluding(label_views(labels@));
        let mut i: usize = 0;
        proof {
            assert(old(self)@.labels + all.take(0) =~= old(self)@.labels);
        }
        while i < labels.len()
            invariant
                i <= labels@.len(),
                all == excluding(label_views(labels@)),
                self@.collection == old(self)@.collection,
                self@.labels == old(self)@.labels + all.take(i as int),
            decreases labels@.len() - i,
        {
            self.exclude(labels[i].clone());
            proof {
                assert(self@.labels =~= old(self)@.labels + all.take(i as int + 1));
            }
            i += 1;
        }
        proof {
            assert(all.take(i as int) =~= all);
        }
    }
}

/// An object that a search found, with its metadata.
#[derive(Debug)]
pub struct FoundObject {
    pub object: ObjectRef,
    pub meta: Metadata,
}

impl FoundObject {
    /// An object beside its metadata.
    pub fn new(object: ObjectRef, meta: Metadata) -> (r: Self)
        ensures
            r.object == object,
            r.meta == meta,
    {
        Self { object, meta }
    }
}

/// The answer to a search.
#[derive(Debug)]
pub struct SearchResponse {
    /// The search that was asked.
    pub req: SearchRequest,
    /// What was found, or why nothing was.
    pub result: Result<Vec<FoundObject>, SearchError>,
}

impl SearchResponse {
    /// The answer to a search that was not run yet.
    pub fn new(req: SearchRequest) -> (r: Self)
        ensures
            r.req == req,
            r.result == Err::<Vec<FoundObject>, SearchError>(SearchError::NotYetExecuted),
    {
        Self { req, result: Err(SearchError::NotYetExecuted) }
    }

    /// Sets what was found.
    pub fn set_ok(&mut self, objects: Vec<FoundObject>)
        ensures
            final(self).req == old(self).req,
            final(self).result == Ok::<Vec<FoundObject>, SearchError>(objects),
    {
        self.result = Ok(objects)
    }

    /// Sets why nothing was found.
    pub fn set_err(&mut self, e: SearchError)
        ensures
            final(self).req == old(self).req,
            final(self).result == Err::<Vec<FoundObject>, SearchError>(e),
    {
        self.result = Err(e)
    }

    /// Holds the answer to its deadline: an answer that took more than
    /// `timeout_secs` seconds becomes `Timeout`, any other stays as it is.
    pub fn within(self, elapsed_secs: u64, timeout_secs: u64) -> (r: Self)
        ensures
            r.req == self.req,
            r.result == if elapsed_secs > timeout_secs {
                Err::<Vec<FoundObject>, SearchError>(SearchError::Timeout)
            } else {
                self.result
            },
    {
        if elapsed_secs > timeout_secs {
            Self { req: self.req, result: Err(SearchError::Timeout) }
        } else {
            self
        }
    }
}

} // verus!
