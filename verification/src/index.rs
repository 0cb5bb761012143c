//! What a database asks of an index over its records.

use crate::posting::Queryable;
use crate::query::{invert_if, posting_ok, posting_val, Query};
use vstd::prelude::*;

verus! {

/// Why a query could not be answered.
#[derive(Clone, Copy, Debug, PartialEq, Eq, Structural)]
pub enum QueryError {
    /// A term names an index that is not registered.
    UnknownIdentifier,
}

/// A term of a query: a text for the index that `ident` names, or for the
/// default index.
pub struct Term {
    pub ident: Option<String>,
    pub text: String,
}

/// What a term stands for in contracts.
pub struct TermModel {
    pub ident: Option<Seq<char>>,
    pub text: Seq<char>,
}

impl View for Term {
    type V = TermModel;

    open spec fn view(&self) -> TermModel {
        TermModel {
            ident: match self.ident {
                Some(s) => Some(s@),
                None => None,
            },
            text: self.text@,
        }
    }
}

/// The characters of an optional name.
pub open spec fn name_view(ident: Option<&str>) -> Option<Seq<char>> {
    match ident {
        Some(s) => Some(s@),
        None => None,
    }
}

/// An index over records of one type. It knows which records it holds, and
/// says what each term denotes among them.
pub trait Index: Sized {
    /// The records the index is about.
    type Record: View;

    /// The representation invariant.
    spec fn wf(&self) -> bool;

    /// The records the index holds, by id.
    spec fn records(&self) -> Map<u32, <Self::Record as View>::V>;

    /// What a term denotes: a set of ids, nothing (the term puts no
    /// constraint), or an error.
    spec fn lookup(&self, term: TermModel) -> Result<Option<Set<u32>>, QueryError>;

    /// Whether the index has room to take `record` in: false only where an
    /// id space of 32 bits would run out.
    spec fn room_for(&self, record: <Self::Record as View>::V) -> bool;

    /// How the index `after` a change stands to this index before it, beyond
    /// the records that the two hold, where the record `gone` has left and the
    /// record `come` has come in. Every change of the index keeps to it.
    spec fn follows(
        &self,
        after: Self,
        gone: Option<<Self::Record as View>::V>,
        come: Option<<Self::Record as View>::V>,
    ) -> bool;

    /// Whether the index has room to take `record` in.
    fn has_room(&self, record: &Self::Record) -> (b: bool)
        requires
            self.wf(),
        ensures
            b == self.room_for(record@),
    ;

    /// What a term denotes are ids of records of the index.
    proof fn lemma_lookup_within(&self, term: TermModel)
        requires
            self.wf(),
        ensures
            self.lookup(term) matches Ok(Some(s)) ==> s.subset_of(self.records().dom()),
    ;

    /// The query that stands for a term, inverted within the records if
    /// `inverse` is set.
    fn query<'s>(&'s self, ident: Option<&str>, text: &str, inverse: bool) -> (r: Result<
        Option<Query<Queryable<'s>>>,
        QueryError,
    >)
        requires
            self.wf(),
        ensures
            match r {
                Ok(Some(q)) => {
                    &&& self.lookup(TermModel { ident: name_view(ident), text: text@ }) matches Ok(
                        Some(s),
                    )
                    &&& q.inverse == inverse
                    &&& q.all_atoms(posting_ok(self.records().dom()))
                    &&& q.denote(posting_val(), self.records().dom()) == Some(
                        invert_if(inverse, s, self.records().dom()),
                    )
                },
                Ok(None) => self.lookup(TermModel { ident: name_view(ident), text: text@ }) == Ok::<
                    Option<Set<u32>>,
                    QueryError,
                >(None),
                Err(e) => self.lookup(TermModel { ident: name_view(ident), text: text@ }) == Err::<
                    Option<Set<u32>>,
                    QueryError,
                >(e),
            },
    ;

    /// Takes in the record `record` under the id `id`.
    fn insert(&mut self, id: u32, record: &Self::Record)
        requires
            old(self).wf(),
            !old(self).records().contains_key(id),
            old(self).room_for(record@),
        ensures
            final(self).wf(),
            final(self).records() == old(self).records().insert(id, record@),
            old(self).follows(*final(self), None, Some(record@)),
    ;

    /// Gives up the record of `id`, which is `record`.
    fn remove(&mut self, id: u32, record: &Self::Record)
        requires
            old(self).wf(),
            old(self).records().contains_pair(id, record@),
        ensures
            final(self).wf(),
            final(self).records() == old(self).records().remove(id),
            old(self).follows(*final(self), Some(record@), None),
    ;

    /// Takes `after` in place of `before`, the record of `id`.
    fn update(&mut self, id: u32, before: &Self::Record, after: &Self::Record)
        requires
            old(self).wf(),
            old(self).records().contains_pair(id, before@),
            old(self).room_for(after@),
        ensures
            final(self).wf(),
            final(self).records() == old(self).records().insert(id, after@),
            old(self).follows(*final(self), Some(before@), Some(after@)),
    ;
}

} // verus!
