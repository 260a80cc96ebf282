//! A query: fields that each include or exclude objects, looked up with at
//! most so many lookups at a time, under a deadline.

use vstd::prelude::*;
use vstd::string::*;
use crate::config::MauveConfig;

verus! {

/// Why a query or one of its fields has no result.
#[derive(Clone, Copy, Debug, PartialEq, Eq, Structural)]
pub enum QueryError {
    /// The query ran past its deadline, given in seconds.
    Timeout(u64),
    /// The field names neither a label name nor a label value.
    Derp,
}

/// Whether a field asks for objects or leaves them out.
#[derive(Clone, Copy, Debug, PartialEq, Eq, PartialOrd, Ord, Structural)]
pub enum QueryOp {
    Include,
    Exclude,
}

/// How a field is looked up.
#[derive(Clone, Copy, Debug, PartialEq, Eq, Structural)]
pub enum QueryKind {
    /// By name and value: the forward index at `name=value`.
    Lookup,
    /// By name alone: the forward index at the keys that start with `name=`.
    Prefix,
    /// By value alone: the reverse index at the keys that start with `value=`.
    Suffix,
}

/// The text of an optional string.
pub open spec fn opt_view(s: Option<String>) -> Option<Seq<char>> {
    match s {
        Some(t) => Some(t@),
        None => None,
    }
}

/// The text, or none if it is empty.
pub open spec fn non_empty(s: Seq<char>) -> Option<Seq<char>> {
    if s.len() == 0 {
        None
    } else {
        Some(s)
    }
}

/// What a field of a query says.
pub struct QueryFieldView {
    pub op: QueryOp,
    pub collection: Seq<char>,
    pub name: Option<Seq<char>>,
    pub value: Option<Seq<char>>,
}

impl QueryFieldView {
    /// How the field is looked up, or `Derp` where it names nothing.
    pub open spec fn kind(self) -> Result<QueryKind, QueryError> {
        match (self.name, self.value) {
            (Some(_), Some(_)) => Ok(QueryKind::Lookup),
            (Some(_), None) => Ok(QueryKind::Prefix),
            (None, Some(_)) => Ok(QueryKind::Suffix),
            (None, None) => Err(QueryError::Derp),
        }
    }
}

/// One field of a query.
#[derive(Debug)]
pub struct QueryField {
    op: QueryOp,
    collection: String,
    name: Option<String>,
    value: Option<String>,
}

impl View for QueryField {
    type V = QueryFieldView;

    closed spec fn view(&self) -> QueryFieldView {
        QueryFieldView {
            op: self.op,
            collection: self.collection@,
            name: opt_view(self.name),
            value: opt_view(self.value),
        }
    }
}

impl Clone for QueryField {
    fn clone(&self) -> (r: Self)
        ensures
            r@ == self@,
    {
        QueryField {
            op: self.op,
            collection: self.collection.clone(),
            name: match &self.name {
                Some(n) => Some(n.clone()),
                None => None,
            },
            value: match &self.value {
                Some(v) => Some(v.clone()),
                None => None,
            },
        }
    }
}

impl QueryField {
    /// A field from its parts.
    pub fn new(op: QueryOp, collection: String, name: Option<String>, value: Option<String>) -> (r:
        Self)
        ensures
            r@ == (QueryFieldView {
                op,
                collection: collection@,
                name: opt_view(name),
                value: opt_view(value),
            }),
    {
        Self { op, collection, name, value }
    }

    /// A field that asks for objects. An empty `name` or `value` stands for
    /// none.
    pub fn include_field(collection: &str, name: &str, value: &str) -> (r: Self)
        ensures
            r@ == (QueryFieldView {
                op: QueryOp::Include,
                collection: collection@,
                name: non_empty(name@),
                value: non_empty(value@),
            }),
    {
        let name = if name.is_empty() {
            None
        } else {
            Some(name.to_owned())
        };
        let value = if value.is_empty() {
            None
        } else {
            Some(value.to_owned())
        };
        Self::new(QueryOp::Include, collection.to_owned(), name, value)
    }

    /// A field that leaves objects out. An empty `name` or `value` stands
    /// for none.
    pub fn exclude(collection: &str, name: &str, value: &str) -> (r: Self)
        ensures
            r@ == (QueryFieldView {
                op: QueryOp::Exclude,
                collection: collection@,
                name: non_empty(name@),
                value: non_empty(value@),
            }),
    {
        let name = if name.is_empty() {
            None
        } else {
            Some(name.to_owned())
        };
        let value = if value.is_empty() {
            None
        } else {
            Some(value.to_owned())
        };
        Self::new(QueryOp::Exclude, collection.to_owned(), name, value)
    }

    /// Whether the field asks for objects or leaves them out.
    pub fn op(&self) -> (r: QueryOp)
        ensures
            r == self@.op,
    {
        self.op
    }

    /// The collection that the field looks in.
    pub fn collection(&self) -> (r: &String)
        ensures
            r@ == self@.collection,
    {
        &self.collection
    }

    /// The label name that the field names, if any.
    pub fn name(&self) -> (r: &Option<String>)
        ensures
            opt_view(*r) == self@.name,
    {
        &self.name
    }

    /// The label value that the field names, if any.
    pub fn value(&self) -> (r: &Option<String>)
        ensures
            opt_view(*r) == self@.value,
    {
        &self.value
    }

    /// How the field is looked up: by name and value, by name alone, or by
    /// value alone. A field that names neither is refused as `Derp`.
    pub fn kind(&self) -> (r: Result<QueryKind, QueryError>)
        ensures
            r == self@.kind(),
    {
        match (&self.name, &self.value) {
            (Some(_), Some(_)) => Ok(QueryKind::Lookup),
            (Some(_), None) => Ok(QueryKind::Prefix),
            (None, Some(_)) => Ok(QueryKind::Suffix),
            (None, None) => Err(QueryError::Derp),
        }
    }
}

/// A query: its fields and its deadline.
#[derive(Debug)]
pub struct QueryRequest {
    /// The fields, in the order in which they were added.
    pub fields: Vec<QueryField>,
    /// After how many seconds the query is given up.
    pub timeout_secs: u64,
}

impl QueryRequest {
    /// A query without fields, with the deadline of the settings.
    pub fn new(config: &MauveConfig) -> (r: Self)
        ensures
            r.fields@.len() == 0,
            r.timeout_secs == config.query_timeout_secs,
    {
        Self { fields: Vec::new(), timeout_secs: config.query_timeout_secs }
    }

    /// A query without fields, with the given deadline.
    pub fn new_with_timeout(timeout_secs: u64) -> (r: Self)
        ensures
            r.fields@.len() == 0,
            r.timeout_secs == timeout_secs,
    {
        Self { fields: Vec::new(), timeout_secs }
    }

    /// Adds a field at the end.
    pub fn append_field(&mut self, f: QueryField)
        ensures
            final(self).timeout_secs == old(self).timeout_secs,
            final(self).fields@ == old(self).fields@.push(f),
    {
        self.fields.push(f)
    }

    /// Holds an outcome to the deadline of the query: one that took more than
    /// `timeout_secs` seconds becomes `Timeout` with that number, any other
    /// stays as it is.
    pub fn run<T>(&self, outcome: Result<T, QueryError>, elapsed_secs: u64) -> (r: Result<
        T,
        QueryError,
    >)
        ensures
            r == if elapsed_secs > self.timeout_secs {
                Err::<T, QueryError>(QueryError::Timeout(self.timeout_secs))
            } else {
                outcome
            },
    {
        if elapsed_secs > self.timeout_secs {
            Err(QueryError::Timeout(self.timeout_secs))
        } else {
            outcome
        }
    }

    /// The plan for looking the fields up with at most `concurrency` lookups
    /// at a time.
    pub fn plan(&self, concurrency: u16) -> (r: QueryRun)
        ensures
            r@ == (QueryRunView {
                total: self.fields@.len(),
                next: 0,
                running: 0,
                limit: concurrency as nat,
            }),
    {
        QueryRun::start(self.fields.len(), concurrency)
    }
}

/// Where a run of lookups stands.
pub struct QueryRunView {
    /// How many lookups there are.
    pub total: nat,
    /// How many of them were started: those at the positions below `next`.
    pub next: nat,
    /// How many of those started have not ended.
    pub running: nat,
    /// How many may run at a time.
    pub limit: nat,
}

impl QueryRunView {
    /// More lookups were not started than there are, no more run than may,
    /// and no more run than were started.
    pub open spec fn sound(self) -> bool {
        self.next <= self.total && self.running <= self.limit && self.running <= self.next
    }

    /// Whether a lookup can be started: one is left and a place is free.
    pub open spec fn can_launch(self) -> bool {
        self.next < self.total && self.running < self.limit
    }

    /// Whether all lookups were started and have ended.
    pub open spec fn drained(self) -> bool {
        self.next == self.total && self.running == 0
    }
}

/// Lookups that are started in their order, at most so many at a time.
#[derive(Debug)]
pub struct QueryRun {
    total: usize,
    next: usize,
    running: usize,
    limit: usize,
}

impl View for QueryRun {
    type V = QueryRunView;

    closed spec fn view(&self) -> QueryRunView {
        QueryRunView {
            total: self.total as nat,
            next: self.next as nat,
            running: self.running as nat,
            limit: self.limit as nat,
        }
    }
}

impl QueryRun {
    #[verifier::type_invariant]
    spec fn within_bounds(self) -> bool {
        self@.sound()
    }

    /// A run of `total` lookups of which none was started.
    pub fn start(total: usize, concurrency: u16) -> (r: Self)
        ensures
            r@ == (QueryRunView { total: total as nat, next: 0, running: 0, limit: concurrency as nat }),
    {
        Self { total, next: 0, running: 0, limit: concurrency as usize }
    }

    /// Starts the next lookup, if one is left and a place is free, and gives
    /// its position.
    pub fn launch(&mut self) -> (r: Option<usize>)
        ensures
            old(self)@.sound(),
            final(self)@.sound(),
            match r {
                Some(at) => old(self)@.can_launch() && at == old(self)@.next && final(self)@ == (
                QueryRunView {
                    total: old(self)@.total,
                    next: old(self)@.next + 1,
                    running: old(self)@.running + 1,
                    limit: old(self)@.limit,
                }),
                None => !old(self)@.can_launch() && final(self)@ == old(self)@,
            },
    {
        proof {
            use_type_invariant(&*self);
        }
        if self.next < self.total && self.running < self.limit {
            let at = self.next;
            self.next = at + 1;
            self.running = self.running + 1;
            Some(at)
        } else {
            None
        }
    }

    /// Notes that a lookup has ended. The result says whether one was
    /// running.
    pub fn complete(&mut self) -> (r: bool)
        ensures
            old(self)@.sound(),
            final(self)@.sound(),
            r == (old(self)@.running > 0),
            final(self)@ == (QueryRunView {
                total: old(self)@.total,
                next: old(self)@.next,
                running: if r {
                    (old(self)@.running - 1) as nat
                } else {
                    0
                },
                limit: old(self)@.limit,
            }),
    {
        proof {
            use_type_invariant(&*self);
        }
        if self.running > 0 {
            self.running = self.running - 1;
            true
        } else {
            false
        }
    }

    /// Whether all lookups were started and have ended.
    pub fn drained(&self) -> (r: bool)
        ensures
            r == self@.drained(),
    {
        self.next == self.total && self.running == 0
    }

    /// How many lookups run.
    pub fn running(&self) -> (r: usize)
        ensures
            r == self@.running,
            self@.running <= self@.limit,
    {
        proof {
            use_type_invariant(self);
        }
        self.running
    }
}

/// While lookups are left and at least one may run at a time, the run goes
/// on: a lookup can be started, or one that runs can end.
pub proof fn lemma_run_goes_on(run: QueryRunView)
    requires
        run.sound(),
        run.limit > 0,
        !run.drained(),
    ensures
        run.can_launch() || run.running > 0,
{
}

} // verus!
