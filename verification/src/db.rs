//! The database: which ids are live, and an index that follows the records.

use crate::bitset::Bitset;
use crate::index::{Index, QueryError, Term, TermModel};
use crate::posting::Queryable;
use crate::query::{all_of, and_fold, evaluate, or_fold, posting_ok, posting_val, Item, Query};
use crate::result::EvalResult;
use vstd::prelude::*;

verus! {

/// A request that does not fit the corpus.
#[derive(Clone, Copy, Debug, PartialEq, Eq, Structural)]
pub enum CorpusError {
    /// An insert under an id that is live.
    Occupied,
    /// An update or a removal under an id that is not live.
    Vacant,
    /// An insert or an update for which the index has no room.
    Full,
}

/// How an insert ends: refused where the id is live, else where there is no room.
pub open spec fn insert_outcome(live: bool, room: bool) -> Result<(), CorpusError> {
    if live {
        Err(CorpusError::Occupied)
    } else if !room {
        Err(CorpusError::Full)
    } else {
        Ok(())
    }
}

/// How an update ends: refused where the id is not live, else where there is no room.
pub open spec fn update_outcome(live: bool, room: bool) -> Result<(), CorpusError> {
    if !live {
        Err(CorpusError::Vacant)
    } else if !room {
        Err(CorpusError::Full)
    } else {
        Ok(())
    }
}

/// A corpus of records behind one index.
pub struct Db<I: Index> {
    occupied: Bitset,
    index: I,
}

impl<I: Index> Db<I> {
    /// The index of the database.
    pub closed spec fn index_view(&self) -> I {
        self.index
    }

    /// The records of the database, by id.
    pub open spec fn records(&self) -> Map<u32, <I::Record as View>::V> {
        self.index_view().records()
    }

    /// The ids that are live.
    pub closed spec fn live(&self) -> Set<u32> {
        self.occupied@
    }

    /// The invariant: the index is sound, and the live ids are those of its records.
    pub closed spec fn wf(&self) -> bool {
        &&& self.occupied.wf()
        &&& self.index.wf()
        &&& self.occupied@ == self.index.records().dom()
    }

    /// The live ids are the ids of the records, and there are finitely many.
    pub proof fn lemma_live(&self)
        requires
            self.wf(),
        ensures
            self.live() == self.records().dom(),
            self.live().finite(),
            self.index_view().wf(),
    {
        self.occupied.lemma_view();
    }

    /// What each term denotes in this database: what the index says, and
    /// nothing for a term it refuses.
    pub open spec fn val(&self) -> spec_fn(TermModel) -> Option<Set<u32>> {
        |t: TermModel|
            match self.index_view().lookup(t) {
                Ok(o) => o,
                Err(_) => None,
            }
    }

    /// Whether the index accepts the term.
    pub open spec fn accepts(&self) -> spec_fn(TermModel) -> bool {
        |t: TermModel| self.index_view().lookup(t) is Ok
    }

    /// What each term of a query tree denotes in this database.
    pub open spec fn term_val(&self) -> spec_fn(Term) -> Option<Set<u32>> {
        crate::parser::by_model(self.val())
    }

    /// Whether the index accepts the term of a query tree.
    pub open spec fn resolvable(&self) -> spec_fn(Term) -> bool {
        crate::parser::when_model(self.accepts())
    }

    /// A database without records over the empty index `index`.
    pub fn new(index: I) -> (db: Db<I>)
        requires
            index.wf(),
            index.records() == Map::<u32, <I::Record as View>::V>::empty(),
        ensures
            db.wf(),
            db.index_view() == index,
    {
        let db = Db { occupied: Bitset::new(), index };
        assert(db.occupied@ =~= db.index.records().dom());
        db
    }

    /// A database over `index`, which holds records under the ids below
    /// `n` and no others.
    pub fn with_index(index: I, n: u32) -> (db: Db<I>)
        requires
            index.wf(),
            index.records().dom() == Set::new(|id: u32| id < n),
        ensures
            db.wf(),
            db.index_view() == index,
    {
        let occupied = Bitset::new().complement_within(n);
        let db = Db { occupied, index };
        assert(db.occupied@ =~= db.index.records().dom());
        db
    }

    /// The index.
    pub fn index(&self) -> (i: &I)
        ensures
            *i == self.index_view(),
    {
        &self.index
    }

    /// The set of live ids.
    pub fn occupied(&self) -> (b: &Bitset)
        ensures
            b@ == self.live(),
            self.wf() ==> b.wf(),
    {
        &self.occupied
    }

    /// The lowest id that is not live; `None` where every id is.
    pub fn next_id(&self) -> (r: Option<u32>)
        requires
            self.wf(),
        ensures
            match r {
                Some(id) => !self.records().contains_key(id) && forall|x: u32|
                    x < id ==> self.records().contains_key(x),
                None => forall|x: u32| self.records().contains_key(x),
            },
    {
        self.occupied.first_clear()
    }

    /// Takes in `record` under `id`. Refused, with nothing changed, where
    /// `id` is live, and else where the index has no room for the record.
    pub fn insert(&mut self, id: u32, record: &I::Record) -> (r: Result<(), CorpusError>)
        requires
            old(self).wf(),
        ensures
            final(self).wf(),
            r == insert_outcome(
                old(self).records().contains_key(id),
                old(self).index_view().room_for(record@),
            ),
            r is Err ==> final(self).index_view() == old(self).index_view(),
            r is Ok ==> final(self).records() == old(self).records().insert(id, record@),
            r is Ok ==> old(self).index_view().follows(
                final(self).index_view(),
                None,
                Some(record@),
            ),
    {
        if self.occupied.get(id) {
            return Err(CorpusError::Occupied);
        }
        if !self.index.has_room(record) {
            return Err(CorpusError::Full);
        }
        self.occupied.set(id);
        self.index.insert(id, record);
        assert(self.occupied@ =~= self.index.records().dom());
        Ok(())
    }

    /// Gives up the record of `id`, which the caller hands over as `record`.
    /// Refused, with nothing changed, where `id` is not live.
    pub fn remove(&mut self, id: u32, record: &I::Record) -> (r: Result<(), CorpusError>)
        requires
            old(self).wf(),
            old(self).records().contains_key(id) ==> old(self).records()[id] == record@,
        ensures
            final(self).wf(),
            !old(self).records().contains_key(id) ==> r == Err::<(), CorpusError>(
                CorpusError::Vacant,
            ) && final(self).index_view() == old(self).index_view(),
            old(self).records().contains_key(id) ==> r == Ok::<(), CorpusError>(()) && final(self).records() == old(self).records().remove(id),
            r is Ok ==> old(self).index_view().follows(
                final(self).index_view(),
                Some(record@),
                None,
            ),
    {
        if !self.occupied.get(id) {
            return Err(CorpusError::Vacant);
        }
        self.occupied.clear(id);
        self.index.remove(id, record);
        assert(self.occupied@ =~= self.index.records().dom());
        Ok(())
    }

    /// Takes `after` in place of `before`, the record of `id`. Refused, with
    /// nothing changed, where `id` is not live, and else where the index has
    /// no room for the new record.
    pub fn update(&mut self, id: u32, before: &I::Record, after: &I::Record) -> (r: Result<
        (),
        CorpusError,
    >)
        requires
            old(self).wf(),
            old(self).records().contains_key(id) ==> old(self).records()[id] == before@,
        ensures
            final(self).wf(),
            r == update_outcome(
                old(self).records().contains_key(id),
                old(self).index_view().room_for(after@),
            ),
            r is Err ==> final(self).index_view() == old(self).index_view(),
            r is Ok ==> final(self).records() == old(self).records().insert(id, after@),
            r is Ok ==> old(self).index_view().follows(
                final(self).index_view(),
                Some(before@),
                Some(after@),
            ),
    {
        if !self.occupied.get(id) {
            return Err(CorpusError::Vacant);
        }
        if !self.index.has_room(after) {
            return Err(CorpusError::Full);
        }
        self.index.update(id, before, after);
        assert(self.occupied@ =~= self.index.records().dom());
        Ok(())
    }

    /// The ids that match `q`: what `q` denotes among the live ids, each
    /// term standing for what the index says. A query that comes down to a
    /// term without constraint matches every live id. Refused where the
    /// index refuses a term.
    pub fn query<'s>(&'s self, q: &Query<Term>) -> (r: Result<EvalResult<'s>, QueryError>)
        requires
            self.wf(),
        ensures
            match r {
                Ok(e) => {
                    &&& e.wf()
                    &&& q.all_atoms(self.resolvable())
                    &&& e@ == match q.denote(self.term_val(), self.live()) {
                        Some(s) => s,
                        None => self.live(),
                    }
                    &&& e@.subset_of(self.live())
                },
                Err(e) => !q.all_atoms(self.resolvable()),
            },
    {
        match self.resolve(q) {
            Ok(Some(found)) => Ok(evaluate(&found, &self.occupied)),
            Ok(None) => Ok(EvalResult::Borrowed(&self.occupied)),
            Err(e) => Err(e),
        }
    }

    /// The query over postings that `q` comes to when the index is asked
    /// for each of its terms: the terms that denote nothing are left out of
    /// their chains.
    #[verifier::loop_isolation(false)]
    fn resolve<'s>(&'s self, q: &Query<Term>) -> (r: Result<
        Option<Query<Queryable<'s>>>,
        QueryError,
    >)
        requires
            self.wf(),
        ensures
            match r {
                Ok(Some(found)) => {
                    &&& q.all_atoms(self.resolvable())
                    &&& found.all_atoms(posting_ok(self.live()))
                    &&& found.denote(posting_val(), self.live()) == q.denote(
                        self.term_val(),
                        self.live(),
                    )
                },
                Ok(None) => q.all_atoms(self.resolvable()) && q.denote(self.term_val(), self.live())
                    is None,
                Err(e) => !q.all_atoms(self.resolvable()),
            },
        decreases q,
    {
        let ghost val = self.term_val();
        let ghost u = self.occupied@;
        match &q.item {
            Item::Single(t) => {
                let ident: Option<&str> = match &t.ident {
                    Some(s) => Some(s.as_str()),
                    None => None,
                };
                proof {
                    assert(crate::index::name_view(ident) == t@.ident);
                }
                self.index.query(ident, t.text.as_str(), q.inverse)
            },
            Item::AndChain(cs) => {
                let mut found: Vec<Query<Queryable<'s>>> = Vec::new();
                let mut i: usize = 0;
                while i < cs.len()
                    invariant
                        i <= cs@.len(),
                        all_of(found@, posting_ok(u)),
                        and_fold(found@, posting_val(), u) == and_fold(cs@.take(i as int), val, u),
                        forall|j: int| 0 <= j < i ==> (#[trigger] cs@[j]).all_atoms(self.resolvable()),
                    decreases cs@.len() - i,
                {
                    let ghost before = found@;
                    proof {
                        assert(cs@.take(i + 1).drop_last() == cs@.take(i as int));
                        assert(cs@.take(i + 1).last() == cs@[i as int]);
                    }
                    match self.resolve(&cs[i]) {
                        Err(e) => {
                            return Err(e);
                        },
                        Ok(None) => {},
                        Ok(Some(child)) => {
                            found.push(child);
                            proof {
                                assert(found@.drop_last() == before);
                                crate::query::lemma_all_of_push(before, child, posting_ok(u));
                            }
                        },
                    }
                    i += 1;
                }
                let ghost items = found@;
                let r = Query { item: Item::AndChain(found), inverse: q.inverse };
                proof {
                    assert(cs@.take(i as int) == cs@);
                    assert(r.item matches Item::AndChain(v) && v@ == items);
                }
                Ok(Some(r))
            },
            Item::OrChain(cs) => {
                let mut found: Vec<Query<Queryable<'s>>> = Vec::new();
                let mut i: usize = 0;
                while i < cs.len()
                    invariant
                        i <= cs@.len(),
                        all_of(found@, posting_ok(u)),
                        or_fold(found@, posting_val(), u) == or_fold(cs@.take(i as int), val, u),
                        forall|j: int| 0 <= j < i ==> (#[trigger] cs@[j]).all_atoms(self.resolvable()),
                    decreases cs@.len() - i,
                {
                    let ghost before = found@;
                    proof {
                        assert(cs@.take(i + 1).drop_last() == cs@.take(i as int));
                        assert(cs@.take(i + 1).last() == cs@[i as int]);
                    }
                    match self.resolve(&cs[i]) {
                        Err(e) => {
                            return Err(e);
                        },
                        Ok(None) => {},
                        Ok(Some(child)) => {
                            found.push(child);
                            proof {
                                assert(found@.drop_last() == before);
                                crate::query::lemma_all_of_push(before, child, posting_ok(u));
                            }
                        },
                    }
                    i += 1;
                }
                let ghost items = found@;
                let r = Query { item: Item::OrChain(found), inverse: q.inverse };
                proof {
                    assert(cs@.take(i as int) == cs@);
                    assert(r.item matches Item::OrChain(v) && v@ == items);
                }
                Ok(Some(r))
            },
        }
    }
}

} // verus!
