//! Labels: `(name, value)` tags, kept in lower case, with their text form and
//! the two index keys derived from them.

use vstd::prelude::*;
use vstd::string::*;
use crate::errors::MauveError;
use crate::text::{concat3, first_index_of, lemma_first_index_of, lemma_first_index_unique, lemma_lower_idempotent, lower, split_once, to_lower};

verus! {

/// What a label is: two texts.
pub struct LabelView {
    pub name: Seq<char>,
    pub value: Seq<char>,
}

impl LabelView {
    /// The label with both fields in lower case.
    pub open spec fn normalized(self) -> LabelView {
        LabelView { name: lower(self.name), value: lower(self.value) }
    }

    /// The text form `name=value`, which is also the key of the label in the
    /// forward index.
    pub open spec fn forward(self) -> Seq<char> {
        self.name + seq!['='] + self.value
    }

    /// The key of the label in the reverse index, `value=name`.
    pub open spec fn reverse(self) -> Seq<char> {
        self.value + seq!['='] + self.name
    }
}

/// What parsing a label text gives: nothing without `=`, otherwise the text
/// before the first `=` as name and the text after it as value, both in lower
/// case.
pub open spec fn parse_label(s: Seq<char>) -> Option<LabelView> {
    if s.contains('=') {
        let k = first_index_of(s, '=');
        Some(
            LabelView {
                name: lower(s.subrange(0, k)),
                value: lower(s.subrange(k + 1, s.len() as int)),
            },
        )
    } else {
        None
    }
}

/// A `(name, value)` tag of an object.
#[derive(Debug, Eq, PartialOrd, Ord, Hash)]
pub struct Label {
    pub name: String,
    pub value: String,
}

impl View for Label {
    type V = LabelView;

    open spec fn view(&self) -> LabelView {
        LabelView { name: self.name@, value: self.value@ }
    }
}

impl Clone for Label {
    fn clone(&self) -> (r: Self)
        ensures
            r == *self,
    {
        Label { name: self.name.clone(), value: self.value.clone() }
    }
}

impl PartialEq for Label {
    fn eq(&self, other: &Self) -> (r: bool) {
        self.name == other.name && self.value == other.value
    }
}

impl vstd::std_specs::cmp::PartialEqSpecImpl for Label {
    open spec fn obeys_eq_spec() -> bool {
        true
    }

    open spec fn eq_spec(&self, other: &Self) -> bool {
        self.name@ == other.name@ && self.value@ == other.value@
    }
}

impl Default for Label {
    fn default() -> (r: Self)
        ensures
            r@ == (LabelView { name: Seq::<char>::empty(), value: Seq::<char>::empty() }),
    {
        Label { name: String::new(), value: String::new() }
    }
}

impl Label {
    /// A label from a name and a value, both taken to lower case.
    pub fn new(name: &str, value: &str) -> (r: Self)
        ensures
            r@ == (LabelView { name: name@, value: value@ }).normalized(),
    {
        Self { name: to_lower(name), value: to_lower(value) }
    }

    /// The key of this label in the forward index: `name=value`.
    pub fn to_fwd(&self) -> (r: String)
        ensures
            r@ == self@.forward(),
    {
        proof {
            reveal_strlit("=");
            assert("="@ =~= seq!['=']);
        }
        concat3(self.name.as_str(), "=", self.value.as_str())
    }

    /// The key of this label in the reverse index: `value=name`.
    pub fn to_rev(&self) -> (r: String)
        ensures
            r@ == self@.reverse(),
    {
        proof {
            reveal_strlit("=");
            assert("="@ =~= seq!['=']);
        }
        concat3(self.value.as_str(), "=", self.name.as_str())
    }

    /// The text form of this label: `name=value`.
    pub fn to_string(&self) -> (r: String)
        ensures
            r@ == self@.forward(),
    {
        self.to_fwd()
    }

    /// Parses `name=value`, splitting at the first `=`. A text without `=` is
    /// refused as `InvalidLabel`, which carries the text.
    pub fn from_str(s: &str) -> (r: Result<Self, MauveError>)
        ensures
            match r {
                Ok(l) => parse_label(s@) == Some(l@),
                Err(MauveError::InvalidLabel(t)) => parse_label(s@) is None && t@ == s@,
                Err(_) => false,
            },
    {
        match split_once(s, '=') {
            Some((name, value)) => Ok(Self::new(name, value)),
            None => Err(MauveError::InvalidLabel(s.to_owned())),
        }
    }
}

/// Parsing fails exactly on the texts that hold no `=`.
pub proof fn lemma_parse_fails_iff_no_separator(s: Seq<char>)
    ensures
        parse_label(s) is None <==> !s.contains('='),
{
}

/// The text form of a label parses back to the label in lower case, provided
/// that its name holds no `=` (the text is split at the first one).
pub proof fn lemma_label_round_trip(l: LabelView)
    requires
        !l.name.contains('='),
    ensures
        parse_label(l.forward()) == Some(l.normalized()),
{
    let s = l.forward();
    let k = l.name.len() as int;
    assert(s[k] == '=');
    assert forall|i: int| 0 <= i < k implies s[i] != '=' by {
        assert(s[i] == l.name[i]);
        if l.name[i] == '=' {
            assert(l.name.contains('='));
        }
    }
    lemma_first_index_unique(s, '=', k);
    lemma_first_index_of(s, '=');
    assert(s.subrange(0, k) =~= l.name);
    assert(s.subrange(k + 1, s.len() as int) =~= l.value);
}

/// Parsing the text form of a label that `Label::new` made gives the same
/// label back, provided that its name holds no `=`.
pub proof fn lemma_new_label_round_trip(name: Seq<char>, value: Seq<char>)
    requires
        !lower(name).contains('='),
    ensures
        parse_label((LabelView { name, value }).normalized().forward()) == Some(
            (LabelView { name, value }).normalized(),
        ),
{
    let l = (LabelView { name, value }).normalized();
    lemma_label_round_trip(l);
    lemma_lower_idempotent(name);
    lemma_lower_idempotent(value);
}

} // verus!
