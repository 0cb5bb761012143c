//! The query tree, what it denotes, and its evaluation over posting lists.

use crate::bitset::Bitset;
use crate::posting::Queryable;
use crate::result::EvalResult;
use vstd::prelude::*;

verus! {

/// A node of a query: an item, taken as it is or inverted within the universe.
pub struct Query<T> {
    pub item: Item<T>,
    pub inverse: bool,
}

/// What a query node holds: one atom, or a conjunction or a disjunction of queries.
pub enum Item<T> {
    Single(T),
    AndChain(Vec<Query<T>>),
    OrChain(Vec<Query<T>>),
}

/// `s` itself, or what the universe `u` holds beyond `s`.
pub open spec fn invert_if(inverse: bool, s: Set<u32>, u: Set<u32>) -> Set<u32> {
    if inverse {
        u.difference(s)
    } else {
        s
    }
}

/// What the conjunction of `cs` denotes: the universe cut down by every
/// child that denotes a set. A child that denotes nothing puts no constraint.
pub open spec fn and_fold<T>(
    cs: Seq<Query<T>>,
    val: spec_fn(T) -> Option<Set<u32>>,
    u: Set<u32>,
) -> Set<u32>
    decreases cs,
{
    if cs.len() == 0 {
        u
    } else {
        let rest = and_fold(cs.drop_last(), val, u);
        match cs.last().denote(val, u) {
            Some(s) => rest.intersect(s),
            None => rest,
        }
    }
}

/// What the disjunction of `cs` denotes: the union of what its children denote.
pub open spec fn or_fold<T>(
    cs: Seq<Query<T>>,
    val: spec_fn(T) -> Option<Set<u32>>,
    u: Set<u32>,
) -> Set<u32>
    decreases cs,
{
    if cs.len() == 0 {
        Set::empty()
    } else {
        let rest = or_fold(cs.drop_last(), val, u);
        match cs.last().denote(val, u) {
            Some(s) => rest.union(s),
            None => rest,
        }
    }
}

/// The valuation of posting handles: each denotes its ids.
pub open spec fn posting_val<'a>() -> spec_fn(Queryable<'a>) -> Option<Set<u32>> {
    |p: Queryable<'a>| Some(p@)
}

/// Whether `p` is well formed and lies within `u`.
pub open spec fn posting_ok<'a>(u: Set<u32>) -> spec_fn(Queryable<'a>) -> bool {
    |p: Queryable<'a>| p.wf() && p@.subset_of(u)
}

/// Whether each atom that `val` gives a set gets one within `u`.
pub open spec fn val_within<T>(val: spec_fn(T) -> Option<Set<u32>>, u: Set<u32>) -> spec_fn(
    T,
) -> bool {
    |t: T| val(t) matches Some(s) ==> s.subset_of(u)
}

impl<T> Query<T> {
    /// The set the query denotes in the universe `u`, where `val` says what
    /// each atom denotes. An atom without a set denotes nothing, inverted or
    /// not; a chain always denotes a set.
    pub open spec fn denote(self, val: spec_fn(T) -> Option<Set<u32>>, u: Set<u32>) -> Option<
        Set<u32>,
    >
        decreases self,
    {
        match self.item {
            Item::Single(t) => match val(t) {
                Some(s) => Some(invert_if(self.inverse, s, u)),
                None => None,
            },
            Item::AndChain(cs) => Some(invert_if(self.inverse, and_fold(cs@, val, u), u)),
            Item::OrChain(cs) => Some(invert_if(self.inverse, or_fold(cs@, val, u), u)),
        }
    }

    /// Whether `pred` holds of every atom of the query.
    pub open spec fn all_atoms(self, pred: spec_fn(T) -> bool) -> bool
        decreases self,
    {
        match self.item {
            Item::Single(t) => pred(t),
            Item::AndChain(cs) => forall|i: int|
                0 <= i < cs@.len() ==> (#[trigger] cs@[i]).all_atoms(pred),
            Item::OrChain(cs) => forall|i: int|
                0 <= i < cs@.len() ==> (#[trigger] cs@[i]).all_atoms(pred),
        }
    }

    /// A query node.
    pub fn new(item: Item<T>, inverse: bool) -> (q: Query<T>)
        ensures
            q.item == item,
            q.inverse == inverse,
    {
        Query { item, inverse }
    }

    /// The negation of the query: the same item with the flag toggled.
    pub open spec fn negated(self) -> Query<T> {
        Query { item: self.item, inverse: !self.inverse }
    }

    /// The negation of the query.
    pub fn not(self) -> (q: Query<T>)
        ensures
            q == self.negated(),
    {
        Query { item: self.item, inverse: !self.inverse }
    }
}

/// A conjunction lies within the universe.
pub proof fn lemma_and_fold_within<T>(
    cs: Seq<Query<T>>,
    val: spec_fn(T) -> Option<Set<u32>>,
    u: Set<u32>,
)
    ensures
        and_fold(cs, val, u).subset_of(u),
    decreases cs.len(),
{
    if cs.len() > 0 {
        lemma_and_fold_within(cs.drop_last(), val, u);
    }
}

/// Where every atom lies within the universe, so does what a query denotes.
pub proof fn lemma_denote_within<T>(q: Query<T>, val: spec_fn(T) -> Option<Set<u32>>, u: Set<u32>)
    requires
        q.all_atoms(val_within(val, u)),
    ensures
        q.denote(val, u) matches Some(s) ==> s.subset_of(u),
    decreases q,
{
    match q.item {
        Item::Single(t) => {},
        Item::AndChain(cs) => {
            lemma_and_fold_within(cs@, val, u);
        },
        Item::OrChain(cs) => {
            lemma_or_fold_within(cs@, val, u);
        },
    }
}

/// Where every atom lies within the universe, so does a disjunction.
pub proof fn lemma_or_fold_within<T>(
    cs: Seq<Query<T>>,
    val: spec_fn(T) -> Option<Set<u32>>,
    u: Set<u32>,
)
    requires
        forall|i: int| 0 <= i < cs.len() ==> (#[trigger] cs[i]).all_atoms(val_within(val, u)),
    ensures
        or_fold(cs, val, u).subset_of(u),
    decreases cs,
{
    if cs.len() > 0 {
        let rest = cs.drop_last();
        assert forall|i: int| 0 <= i < rest.len() implies (#[trigger] rest[i]).all_atoms(
            val_within(val, u),
        ) by {
            assert(rest[i] == cs[i]);
        }
        lemma_or_fold_within(rest, val, u);
        lemma_denote_within(cs.last(), val, u);
    }
}

/// A conjunction of two lists is the intersection of their conjunctions.
pub proof fn lemma_and_fold_concat<T>(
    a: Seq<Query<T>>,
    b: Seq<Query<T>>,
    val: spec_fn(T) -> Option<Set<u32>>,
    u: Set<u32>,
)
    ensures
        and_fold(a + b, val, u) == and_fold(a, val, u).intersect(and_fold(b, val, u)),
    decreases b.len(),
{
    lemma_and_fold_within(a, val, u);
    if b.len() == 0 {
        assert(a + b == a);
        assert(and_fold(a, val, u).intersect(u) =~= and_fold(a, val, u));
    } else {
        assert((a + b).drop_last() == a + b.drop_last());
        assert((a + b).last() == b.last());
        lemma_and_fold_concat(a, b.drop_last(), val, u);
        let x = and_fold(a, val, u);
        let y = and_fold(b.drop_last(), val, u);
        match b.last().denote(val, u) {
            Some(s) => {
                assert(x.intersect(y).intersect(s) =~= x.intersect(y.intersect(s)));
            },
            None => {},
        }
    }
}

/// A disjunction of two lists is the union of their disjunctions.
pub proof fn lemma_or_fold_concat<T>(
    a: Seq<Query<T>>,
    b: Seq<Query<T>>,
    val: spec_fn(T) -> Option<Set<u32>>,
    u: Set<u32>,
)
    ensures
        or_fold(a + b, val, u) == or_fold(a, val, u).union(or_fold(b, val, u)),
    decreases b.len(),
{
    if b.len() == 0 {
        assert(a + b == a);
        assert(or_fold(a, val, u).union(Set::empty()) =~= or_fold(a, val, u));
    } else {
        assert((a + b).drop_last() == a + b.drop_last());
        assert((a + b).last() == b.last());
        lemma_or_fold_concat(a, b.drop_last(), val, u);
        let x = or_fold(a, val, u);
        let y = or_fold(b.drop_last(), val, u);
        match b.last().denote(val, u) {
            Some(s) => {
                assert(x.union(y).union(s) =~= x.union(y.union(s)));
            },
            None => {},
        }
    }
}

/// Whether the query `c` lets the id `x` through: `x` is in what `c`
/// denotes, or `c` denotes nothing.
pub open spec fn passes<T>(c: Query<T>, val: spec_fn(T) -> Option<Set<u32>>, u: Set<u32>, x: u32) -> bool {
    match c.denote(val, u) {
        Some(s) => s.contains(x),
        None => true,
    }
}

/// The ids of `u` that each of the queries of `cs` at a place in `done` lets through.
pub open spec fn and_members<T>(
    cs: Seq<Query<T>>,
    done: Set<int>,
    val: spec_fn(T) -> Option<Set<u32>>,
    u: Set<u32>,
) -> Set<u32> {
    Set::new(
        |x: u32|
            u.contains(x) && forall|i: int|
                0 <= i < cs.len() && done.contains(i) ==> passes(#[trigger] cs[i], val, u, x),
    )
}

/// A conjunction denotes the ids of the universe that all its queries let
/// through, in whatever order they are asked.
pub proof fn lemma_and_fold_members<T>(
    cs: Seq<Query<T>>,
    done: Set<int>,
    val: spec_fn(T) -> Option<Set<u32>>,
    u: Set<u32>,
)
    requires
        forall|i: int| 0 <= i < cs.len() ==> done.contains(i),
    ensures
        and_fold(cs, val, u) == and_members(cs, done, val, u),
    decreases cs.len(),
{
    if cs.len() == 0 {
        assert(and_fold(cs, val, u) =~= and_members(cs, done, val, u));
    } else {
        let rest = cs.drop_last();
        lemma_and_fold_members(rest, done, val, u);
        assert forall|x: u32|
            and_fold(cs, val, u).contains(x) <==> and_members(cs, done, val, u).contains(x) by {
            if and_members(cs, done, val, u).contains(x) {
                assert forall|i: int| 0 <= i < rest.len() && done.contains(i) implies passes(
                    #[trigger] rest[i],
                    val,
                    u,
                    x,
                ) by {
                    assert(rest[i] == cs[i]);
                }
                assert(passes(cs[cs.len() - 1], val, u, x));
            }
            if and_fold(cs, val, u).contains(x) {
                assert(and_members(rest, done, val, u).contains(x));
                assert forall|i: int| 0 <= i < cs.len() && done.contains(i) implies passes(
                    #[trigger] cs[i],
                    val,
                    u,
                    x,
                ) by {
                    if i < rest.len() {
                        assert(rest[i] == cs[i]);
                    }
                }
            }
        }
        assert(and_fold(cs, val, u) =~= and_members(cs, done, val, u));
    }
}

impl<T> Query<T> {
    /// The query without its inversion.
    pub open spec fn unsigned(self) -> Query<T> {
        Query { item: self.item, inverse: false }
    }
}

/// Evaluates a query over posting handles in the universe `u`. A stored
/// posting that is not inverted is lent as it stands.
pub fn evaluate<'a>(q: &Query<Queryable<'a>>, u: &'a Bitset) -> (r: EvalResult<'a>)
    requires
        q.all_atoms(posting_ok(u@)),
        u.wf(),
    ensures
        r.wf(),
        Some(r@) == q.denote(posting_val(), u@),
        r@.subset_of(u@),
        !q.inverse ==> (q.item matches Item::Single(Queryable::Borrowed(b)) ==> r
            == EvalResult::Borrowed(b)),
    decreases q, 1nat,
{
    let base = eval_item(q, u);
    if q.inverse {
        EvalResult::Owned(u.difference(base.bits()))
    } else {
        base
    }
}

/// Takes the ids that the positive child `part` does not hold out of `acc`.
fn narrow<'a>(
    acc: EvalResult<'a>,
    part: &EvalResult<'a>,
    Ghost(cs): Ghost<Seq<Query<Queryable<'a>>>>,
    Ghost(done): Ghost<Set<int>>,
    Ghost(i): Ghost<int>,
    Ghost(u): Ghost<Set<u32>>,
) -> (r: EvalResult<'a>)
    requires
        acc.wf(),
        part.wf(),
        0 <= i < cs.len(),
        Some(part@) == cs[i].denote(posting_val(), u),
        acc@ == and_members(cs, done, posting_val(), u),
    ensures
        r.wf(),
        r@ == and_members(cs, done.insert(i), posting_val(), u),
{
    let r = EvalResult::Owned(acc.bits().intersect(part.bits()));
    proof {
        let val = posting_val();
        let want = and_members(cs, done.insert(i), val, u);
        assert forall|x: u32| r@.contains(x) <==> want.contains(x) by {
            if want.contains(x) {
                assert(passes(cs[i], val, u, x));
                assert forall|j: int| 0 <= j < cs.len() && done.contains(j) implies passes(
                    #[trigger] cs[j],
                    val,
                    u,
                    x,
                ) by {
                    assert(done.insert(i).contains(j));
                }
            }
            if r@.contains(x) {
                assert forall|j: int| 0 <= j < cs.len() && done.insert(i).contains(j) implies passes(
                    #[trigger] cs[j],
                    val,
                    u,
                    x,
                ) by {
                    if j != i {
                        assert(done.contains(j));
                    }
                }
            }
        }
        assert(r@ =~= want);
    }
    r
}

/// What the item of a query denotes, before any inversion. A conjunction
/// takes its positive children first, those with the fewest ids before the
/// others, and then takes out what its negated children hold.
#[verifier::loop_isolation(false)]
fn eval_item<'a>(q: &Query<Queryable<'a>>, u: &'a Bitset) -> (r: EvalResult<'a>)
    requires
        q.all_atoms(posting_ok(u@)),
        u.wf(),
    ensures
        r.wf(),
        Some(r@) == q.unsigned().denote(posting_val(), u@),
        r@.subset_of(u@),
        q.item matches Item::Single(Queryable::Borrowed(b)) ==> r == EvalResult::Borrowed(b),
    decreases q, 0nat,
{
    let ghost val = posting_val();
    match &q.item {
        Item::Single(p) => match p {
            Queryable::Borrowed(b) => EvalResult::Borrowed(*b),
            _ => EvalResult::Owned(p.to_bitset()),
        },
        Item::AndChain(cs) => {
            let n = cs.len();
            if n == 1 && !cs[0].inverse {
                let r = eval_item(&cs[0], u);
                proof {
                    assert(cs@[0].unsigned() == cs@[0]);
                    assert(cs@.drop_last() == Seq::<Query<Queryable<'a>>>::empty());
                    assert(cs@.last() == cs@[0]);
                    assert(and_fold(cs@.drop_last(), val, u@) == u@);
                    assert(and_fold(cs@, val, u@) == u@.intersect(r@));
                    assert(u@.intersect(r@) =~= r@);
                }
                return r;
            }
            // the positive children, with the number of ids of each
            let mut parts: Vec<EvalResult<'a>> = Vec::new();
            let mut counts: Vec<u64> = Vec::new();
            let mut at: Vec<usize> = Vec::new();
            let mut i: usize = 0;
            while i < n
                invariant
                    i <= n,
                    parts@.len() == counts@.len(),
                    parts@.len() == at@.len(),
                    forall|j: int|
                        0 <= j < at@.len() ==> (#[trigger] at@[j]) < i && !cs@[at@[j] as int].inverse
                            && parts@[j].wf() && Some(parts@[j]@) == cs@[at@[j] as int].denote(
                            val,
                            u@,
                        ),
                    forall|k: int|
                        0 <= k < i && !(#[trigger] cs@[k]).inverse ==> exists|j: int|
                            0 <= j < at@.len() && at@[j] == k,
                decreases n - i,
            {
                if !cs[i].inverse {
                    let r = eval_item(&cs[i], u);
                    let ghost at0 = at@;
                    let ghost parts0 = parts@;
                    proof {
                        assert(cs@[i as int].unsigned() == cs@[i as int]);
                    }
                    counts.push(r.matched());
                    at.push(i);
                    parts.push(r);
                    proof {
                        assert forall|j: int| 0 <= j < at@.len() implies (#[trigger] at@[j]) < i + 1
                            && !cs@[at@[j] as int].inverse && parts@[j].wf() && Some(parts@[j]@)
                            == cs@[at@[j] as int].denote(val, u@) by {
                            if j < at0.len() {
                                assert(at@[j] == at0[j]);
                                assert(parts@[j] == parts0[j]);
                            }
                        }
                        assert forall|k: int|
                            0 <= k < i + 1 && !(#[trigger] cs@[k]).inverse implies exists|j: int|
                            0 <= j < at@.len() && at@[j] == k by {
                            if k < i {
                                let j = choose|j: int| 0 <= j < at0.len() && at0[j] == k;
                                assert(at@[j] == k);
                            } else {
                                assert(at@[at0.len() as int] == k);
                            }
                        }
                    }
                }
                i += 1;
            }
            let count = parts.len();
            let mut used: Vec<bool> = Vec::new();
            let mut j: usize = 0;
            while j < count
                invariant
                    j <= count,
                    used@.len() == j,
                    forall|k: int| 0 <= k < j ==> !used@[k],
                decreases count - j,
            {
                used.push(false);
                j += 1;
            }
            let ghost mut done: Set<int> = Set::empty();
            let mut acc: EvalResult<'a> = EvalResult::Borrowed(u);
            proof {
                assert(acc@ =~= and_members(cs@, done, val, u@));
            }
            // the positive children, those with the fewest ids first
            let mut rounds: usize = count;
            while rounds > 0
                invariant
                    used@.len() == count,
                    count == parts@.len(),
                    acc.wf(),
                    acc@ == and_members(cs@, done, val, u@),
                    forall|k: int| 0 <= k < count && used@[k] ==> done.contains(at@[k] as int),
                decreases rounds,
            {
                let mut least: usize = count;
                let mut k: usize = 0;
                while k < count
                    invariant
                        k <= count,
                        least <= count,
                        least < count ==> !used@[least as int],
                    decreases count - k,
                {
                    if !used[k] && (least == count || counts[k] < counts[least]) {
                        least = k;
                    }
                    k += 1;
                }
                if least == count {
                    break ;
                }
                acc = narrow(
                    acc,
                    &parts[least],
                    Ghost(cs@),
                    Ghost(done),
                    Ghost(at@[least as int] as int),
                    Ghost(u@),
                );
                proof {
                    done = done.insert(at@[least as int] as int);
                }
                used[least] = true;
                rounds -= 1;
            }
            // whatever is left of them, to be sure of each
            let mut k: usize = 0;
            while k < count
                invariant
                    k <= count,
                    used@.len() == count,
                    count == parts@.len(),
                    acc.wf(),
                    acc@ == and_members(cs@, done, val, u@),
                    forall|m: int| 0 <= m < k ==> done.contains(at@[m] as int),
                    forall|m: int| 0 <= m < count && used@[m] ==> done.contains(at@[m] as int),
                decreases count - k,
            {
                if !used[k] {
                    acc = narrow(
                        acc,
                        &parts[k],
                        Ghost(cs@),
                        Ghost(done),
                        Ghost(at@[k as int] as int),
                        Ghost(u@),
                    );
                    proof {
                        done = done.insert(at@[k as int] as int);
                    }
                }
                k += 1;
            }
            // the negated children
            let mut i: usize = 0;
            while i < n
                invariant
                    i <= n,
                    acc.wf(),
                    acc@ == and_members(cs@, done, val, u@),
                    forall|m: int| 0 <= m < n && !(#[trigger] cs@[m]).inverse ==> done.contains(m),
                    forall|m: int| 0 <= m < i && (#[trigger] cs@[m]).inverse ==> done.contains(m),
                decreases n - i,
            {
                if cs[i].inverse {
                    let held = eval_item(&cs[i], u);
                    let ghost before = acc@;
                    let ghost done0 = done;
                    acc = EvalResult::Owned(acc.bits().difference(held.bits()));
                    proof {
                        let c = cs@[i as int];
                        assert(c.denote(val, u@) == Some(u@.difference(held@)));
                        done = done.insert(i as int);
                        let want = and_members(cs@, done, val, u@);
                        assert forall|x: u32| acc@.contains(x) <==> want.contains(x) by {
                            if want.contains(x) {
                                assert(passes(cs@[i as int], val, u@, x));
                                assert forall|m: int|
                                    0 <= m < cs@.len() && done0.contains(m) implies passes(
                                    #[trigger] cs@[m],
                                    val,
                                    u@,
                                    x,
                                ) by {
                                    assert(done.contains(m));
                                }
                            }
                            if acc@.contains(x) {
                                assert(before.contains(x));
                                assert forall|m: int|
                                    0 <= m < cs@.len() && done.contains(m) implies passes(
                                    #[trigger] cs@[m],
                                    val,
                                    u@,
                                    x,
                                ) by {
                                    if m != i {
                                        assert(done0.contains(m));
                                    }
                                }
                            }
                        }
                        assert(acc@ =~= want);
                    }
                }
                i += 1;
            }
            proof {
                assert forall|m: int| 0 <= m < cs@.len() implies done.contains(m) by {
                    if cs@[m].inverse {
                    } else {
                    }
                }
                lemma_and_fold_members(cs@, done, val, u@);
            }
            acc
        },
        Item::OrChain(cs) => {
            let mut acc: EvalResult<'a> = EvalResult::Owned(Bitset::new());
            let mut i: usize = 0;
            while i < cs.len()
                invariant
                    i <= cs@.len(),
                    acc.wf(),
                    acc@ == or_fold(cs@.take(i as int), val, u@),
                    acc@.subset_of(u@),
                decreases cs@.len() - i,
            {
                let r = evaluate(&cs[i], u);
                proof {
                    assert(cs@.take(i + 1).drop_last() == cs@.take(i as int));
                    assert(cs@.take(i + 1).last() == cs@[i as int]);
                }
                if i == 0 {
                    assert(Set::<u32>::empty().union(r@) =~= r@);
                    acc = r;
                } else {
                    acc = EvalResult::Owned(acc.bits().union(r.bits()));
                }
                i += 1;
            }
            proof {
                assert(cs@.take(i as int) == cs@);
            }
            acc
        },
    }
}

/// What a chain of `cs` denotes before any inversion: a conjunction or a disjunction.
pub open spec fn chain_fold<T>(
    conj: bool,
    cs: Seq<Query<T>>,
    val: spec_fn(T) -> Option<Set<u32>>,
    u: Set<u32>,
) -> Set<u32> {
    if conj {
        and_fold(cs, val, u)
    } else {
        or_fold(cs, val, u)
    }
}

/// Whether `pred` holds of every atom of every query of `cs`.
pub open spec fn all_of<T>(cs: Seq<Query<T>>, pred: spec_fn(T) -> bool) -> bool {
    forall|i: int| 0 <= i < cs.len() ==> (#[trigger] cs[i]).all_atoms(pred)
}

/// A predicate holds of a list with one more query where it holds of the
/// list and of the query.
pub proof fn lemma_all_of_push<T>(cs: Seq<Query<T>>, q: Query<T>, pred: spec_fn(T) -> bool)
    ensures
        all_of(cs.push(q), pred) == (all_of(cs, pred) && q.all_atoms(pred)),
{
    let more = cs.push(q);
    if all_of(more, pred) {
        assert forall|i: int| 0 <= i < cs.len() implies (#[trigger] cs[i]).all_atoms(pred) by {
            assert(more[i] == cs[i]);
        }
        assert(more[cs.len() as int] == q);
    }
    if all_of(cs, pred) && q.all_atoms(pred) {
        assert forall|i: int| 0 <= i < more.len() implies (#[trigger] more[i]).all_atoms(pred) by {
            if i < cs.len() {
                assert(more[i] == cs[i]);
            }
        }
    }
}

/// A predicate holds of two lists put together where it holds of both.
pub proof fn lemma_all_of_concat<T>(a: Seq<Query<T>>, b: Seq<Query<T>>, pred: spec_fn(T) -> bool)
    ensures
        all_of(a + b, pred) == (all_of(a, pred) && all_of(b, pred)),
{
    let both = a + b;
    if all_of(both, pred) {
        assert forall|i: int| 0 <= i < a.len() implies (#[trigger] a[i]).all_atoms(pred) by {
            assert(both[i] == a[i]);
        }
        assert forall|i: int| 0 <= i < b.len() implies (#[trigger] b[i]).all_atoms(pred) by {
            assert(both[a.len() + i] == b[i]);
        }
    }
    if all_of(a, pred) && all_of(b, pred) {
        assert forall|i: int| 0 <= i < both.len() implies (#[trigger] both[i]).all_atoms(pred) by {
            if i < a.len() {
                assert(both[i] == a[i]);
            } else {
                assert(both[i] == b[i - a.len()]);
            }
        }
    }
}

/// Whether `q` is a chain of the given kind that is not inverted.
pub open spec fn plain_chain<T>(conj: bool, q: Query<T>) -> bool {
    !q.inverse && if conj {
        q.item is AndChain
    } else {
        q.item is OrChain
    }
}

/// Whether `q` is an inverted chain without children that changes nothing
/// in a chain of the given kind: the inverted empty disjunction, which
/// denotes the universe, in a conjunction, and the inverted empty
/// conjunction, which denotes nothing, in a disjunction.
pub open spec fn neutral_chain<T>(conj: bool, q: Query<T>) -> bool {
    q.inverse && match q.item {
        Item::Single(t) => false,
        Item::AndChain(cs) => !conj && cs@.len() == 0,
        Item::OrChain(cs) => conj && cs@.len() == 0,
    }
}

/// Whether a chain of the given kind takes `q` in: its children in its
/// place, or nothing at all.
pub open spec fn taken_in<T>(conj: bool, q: Query<T>) -> bool {
    plain_chain(conj, q) || neutral_chain(conj, q)
}

impl<T> Query<T> {
    /// Whether no chain holds, as a direct child, a chain of its own kind
    /// that is not inverted, or an empty chain that changes nothing in it.
    pub open spec fn is_flat(self) -> bool
        decreases self,
    {
        match self.item {
            Item::Single(t) => true,
            Item::AndChain(cs) => forall|i: int|
                0 <= i < cs@.len() ==> (#[trigger] cs@[i]).is_flat() && !taken_in(true, cs@[i]),
            Item::OrChain(cs) => forall|i: int|
                0 <= i < cs@.len() ==> (#[trigger] cs@[i]).is_flat() && !taken_in(false, cs@[i]),
        }
    }

    /// The query with nested chains of the same kind merged into their
    /// parents. It denotes what the query denotes, whatever the atoms stand for.
    pub fn simplified(self) -> (r: Query<T>)
        ensures
            r.is_flat(),
            r.inverse == self.inverse,
            forall|val: spec_fn(T) -> Option<Set<u32>>, u: Set<u32>| #[trigger]
                r.denote(val, u) == self.denote(val, u),
            forall|pred: spec_fn(T) -> bool| #[trigger] r.all_atoms(pred) == self.all_atoms(pred),
        decreases self,
    {
        let inverse = self.inverse;
        match self.item {
            Item::Single(t) => Query { item: Item::Single(t), inverse },
            Item::AndChain(cs) => {
                let out = flatten_chain(cs, true);
                let ghost items = out@;
                let r = Query { item: Item::AndChain(out), inverse };
                proof {
                    assert(r.item matches Item::AndChain(v) && v@ == items);
                    assert forall|val: spec_fn(T) -> Option<Set<u32>>, u: Set<u32>| #[trigger]
                        r.denote(val, u) == self.denote(val, u) by {
                        assert(chain_fold(true, items, val, u) == chain_fold(true, cs@, val, u));
                    }
                    assert forall|pred: spec_fn(T) -> bool| #[trigger]
                        r.all_atoms(pred) == self.all_atoms(pred) by {
                        assert(all_of(items, pred) == all_of(cs@, pred));
                        if self.all_atoms(pred) {
                            assert(all_of(cs@, pred));
                        }
                        if all_of(cs@, pred) {
                            assert(self.all_atoms(pred));
                        }
                        assert(r.all_atoms(pred) == all_of(items, pred));
                    }
                }
                r
            },
            Item::OrChain(cs) => {
                let out = flatten_chain(cs, false);
                let ghost items = out@;
                let r = Query { item: Item::OrChain(out), inverse };
                proof {
                    assert(r.item matches Item::OrChain(v) && v@ == items);
                    assert forall|val: spec_fn(T) -> Option<Set<u32>>, u: Set<u32>| #[trigger]
                        r.denote(val, u) == self.denote(val, u) by {
                        assert(chain_fold(false, items, val, u) == chain_fold(false, cs@, val, u));
                    }
                    assert forall|pred: spec_fn(T) -> bool| #[trigger]
                        r.all_atoms(pred) == self.all_atoms(pred) by {
                        assert(all_of(items, pred) == all_of(cs@, pred));
                        if self.all_atoms(pred) {
                            assert(all_of(cs@, pred));
                        }
                        if all_of(cs@, pred) {
                            assert(self.all_atoms(pred));
                        }
                        assert(r.all_atoms(pred) == all_of(items, pred));
                    }
                }
                r
            },
        }
    }
}

/// The items of `v`, last first.
fn reversed<T>(v: Vec<T>) -> (r: Vec<T>)
    ensures
        r@ == v@.reverse(),
{
    let ghost orig = v@;
    let mut v = v;
    let mut r: Vec<T> = Vec::new();
    while v.len() > 0
        invariant
            v@.len() + r@.len() == orig.len(),
            v@ == orig.take(v@.len() as int),
            forall|j: int| 0 <= j < r@.len() ==> r@[j] == orig[orig.len() - 1 - j],
        decreases v@.len(),
    {
        let x = v.pop().unwrap();
        r.push(x);
    }
    assert(r@ =~= orig.reverse());
    r
}

/// The simplified children of a chain, those of plain chains of the same
/// kind taken in place of their parents.
#[verifier::loop_isolation(false)]
fn flatten_chain<T>(cs: Vec<Query<T>>, conj: bool) -> (out: Vec<Query<T>>)
    ensures
        forall|val: spec_fn(T) -> Option<Set<u32>>, u: Set<u32>| #[trigger]
            chain_fold(conj, out@, val, u) == chain_fold(conj, cs@, val, u),
        forall|pred: spec_fn(T) -> bool| #[trigger] all_of(out@, pred) == all_of(cs@, pred),
        forall|j: int|
            0 <= j < out@.len() ==> (#[trigger] out@[j]).is_flat() && !taken_in(conj, out@[j]),
    decreases cs,
{
    let ghost cs0 = cs;
    let ghost orig = cs@;
    let n = cs.len();
    let mut rev = reversed(cs);
    let mut out: Vec<Query<T>> = Vec::new();
    while rev.len() > 0
        invariant
            rev@.len() <= n,
            orig.len() == n,
            orig == cs0@,
            rev@ == orig.skip(n - rev@.len()).reverse(),
            forall|val: spec_fn(T) -> Option<Set<u32>>, u: Set<u32>| #[trigger]
                chain_fold(conj, out@, val, u) == chain_fold(
                    conj,
                    orig.take(n - rev@.len()),
                    val,
                    u,
                ),
            forall|pred: spec_fn(T) -> bool| #[trigger]
                all_of(out@, pred) == all_of(orig.take(n - rev@.len()), pred),
            forall|j: int|
                0 <= j < out@.len() ==> (#[trigger] out@[j]).is_flat() && !taken_in(
                    conj,
                    out@[j],
                ),
        decreases rev@.len(),
    {
        let ghost k = (n - rev@.len()) as int;
        let ghost before = out@;
        let c = rev.pop().unwrap();
        proof {
            assert(c == orig[k]);
            assert(rev@ =~= orig.skip(k + 1).reverse());
            assert(orig.take(k + 1).drop_last() == orig.take(k));
            assert(orig.take(k + 1).last() == c);
            assert(c == cs0@[k]);
        }
        let s = c.simplified();
        let merge = match &s.item {
            Item::Single(_) => false,
            Item::AndChain(gs) => if s.inverse {
                !conj && gs.len() == 0
            } else {
                conj
            },
            Item::OrChain(gs) => if s.inverse {
                conj && gs.len() == 0
            } else {
                !conj
            },
        };
        if merge {
            let ghost whole = s;
            let mut gs = match s.item {
                Item::Single(t) => Vec::new(),
                Item::AndChain(gs) => gs,
                Item::OrChain(gs) => gs,
            };
            let ghost inner = gs@;
            proof {
                assert forall|val: spec_fn(T) -> Option<Set<u32>>, u: Set<u32>| #[trigger]
                    whole.denote(val, u) == Some(chain_fold(conj, inner, val, u)) by {
                    if neutral_chain(conj, whole) {
                        assert(and_fold(inner, val, u) == u);
                        assert(or_fold(inner, val, u) == Set::<u32>::empty());
                        assert(u.difference(u) =~= Set::<u32>::empty());
                        assert(u.difference(Set::<u32>::empty()) =~= u);
                    }
                }
                assert forall|pred: spec_fn(T) -> bool| #[trigger]
                    whole.all_atoms(pred) == all_of(inner, pred) by {}
            }
            out.append(&mut gs);
            proof {
                assert(out@ == before + inner);
                assert forall|val: spec_fn(T) -> Option<Set<u32>>, u: Set<u32>| #[trigger]
                    chain_fold(conj, out@, val, u) == chain_fold(
                        conj,
                        orig.take(k + 1),
                        val,
                        u,
                    ) by {
                    assert(s.denote(val, u) == c.denote(val, u));
                    assert(chain_fold(conj, before, val, u) == chain_fold(
                        conj,
                        orig.take(k),
                        val,
                        u,
                    ));
                    if conj {
                        lemma_and_fold_concat(before, inner, val, u);
                    } else {
                        lemma_or_fold_concat(before, inner, val, u);
                    }
                }
                assert forall|pred: spec_fn(T) -> bool| #[trigger]
                    all_of(out@, pred) == all_of(orig.take(k + 1), pred) by {
                    assert(all_of(before, pred) == all_of(orig.take(k), pred));
                    assert(s.all_atoms(pred) == c.all_atoms(pred));
                    assert(s.all_atoms(pred) == all_of(inner, pred));
                    lemma_all_of_concat(before, inner, pred);
                    lemma_all_of_push(orig.take(k), c, pred);
                    assert(orig.take(k + 1) == orig.take(k).push(c));
                }
                assert forall|j: int| 0 <= j < out@.len() implies (#[trigger] out@[j]).is_flat()
                    && !taken_in(conj, out@[j]) by {
                    if j >= before.len() {
                        assert(out@[j] == inner[j - before.len()]);
                    } else {
                        assert(out@[j] == before[j]);
                    }
                }
            }
        } else {
            out.push(s);
            proof {
                assert(out@.drop_last() == before);
                assert forall|val: spec_fn(T) -> Option<Set<u32>>, u: Set<u32>| #[trigger]
                    chain_fold(conj, out@, val, u) == chain_fold(
                        conj,
                        orig.take(k + 1),
                        val,
                        u,
                    ) by {
                    assert(s.denote(val, u) == c.denote(val, u));
                    assert(chain_fold(conj, before, val, u) == chain_fold(
                        conj,
                        orig.take(k),
                        val,
                        u,
                    ));
                }
                assert forall|pred: spec_fn(T) -> bool| #[trigger]
                    all_of(out@, pred) == all_of(orig.take(k + 1), pred) by {
                    assert(all_of(before, pred) == all_of(orig.take(k), pred));
                    assert(s.all_atoms(pred) == c.all_atoms(pred));
                    lemma_all_of_push(before, s, pred);
                    lemma_all_of_push(orig.take(k), c, pred);
                    assert(out@ == before.push(s));
                    assert(orig.take(k + 1) == orig.take(k).push(c));
                }
                assert forall|j: int| 0 <= j < out@.len() implies (#[trigger] out@[j]).is_flat()
                    && !taken_in(conj, out@[j]) by {
                    if j < before.len() {
                        assert(out@[j] == before[j]);
                    }
                }
            }
        }
    }
    proof {
        assert(orig.take(n as int) == orig);
    }
    out
}

/// What `s` is cut down to by a child: unchanged where the child denotes nothing.
pub open spec fn cut(s: Set<u32>, d: Option<Set<u32>>) -> Set<u32> {
    match d {
        Some(t) => s.intersect(t),
        None => s,
    }
}

/// What a child adds to `s`: nothing where the child denotes nothing.
pub open spec fn join(s: Set<u32>, d: Option<Set<u32>>) -> Set<u32> {
    match d {
        Some(t) => s.union(t),
        None => s,
    }
}

proof fn lemma_fold_pair<T>(
    a: Query<T>,
    b: Query<T>,
    val: spec_fn(T) -> Option<Set<u32>>,
    u: Set<u32>,
)
    ensures
        and_fold(seq![a, b], val, u) == cut(cut(u, a.denote(val, u)), b.denote(val, u)),
        or_fold(seq![a, b], val, u) == join(join(Set::empty(), a.denote(val, u)), b.denote(val, u)),
{
    let cs = seq![a, b];
    assert(cs.drop_last() == seq![a]);
    assert(seq![a].drop_last() == Seq::<Query<T>>::empty());
    assert(cs.last() == b);
    assert(seq![a].last() == a);
    assert(and_fold(Seq::<Query<T>>::empty(), val, u) == u);
    assert(and_fold(seq![a], val, u) == cut(u, a.denote(val, u)));
    assert(or_fold(Seq::<Query<T>>::empty(), val, u) == Set::<u32>::empty());
    assert(or_fold(seq![a], val, u) == join(Set::empty(), a.denote(val, u)));
}

/// Negating a query twice gives the query back.
pub proof fn lemma_double_negation<T>(q: Query<T>)
    ensures
        q.negated().negated() == q,
{
}

/// A negated query denotes what the universe holds beyond the query, where
/// the atoms lie within the universe.
pub proof fn lemma_negation<T>(q: Query<T>, val: spec_fn(T) -> Option<Set<u32>>, u: Set<u32>)
    requires
        q.all_atoms(val_within(val, u)),
    ensures
        q.negated().denote(val, u) == match q.denote(val, u) {
            Some(s) => Some(u.difference(s)),
            None => None,
        },
{
    lemma_denote_within(q, val, u);
    let base = match q.item {
        Item::Single(t) => match val(t) {
            Some(s) => s,
            None => Set::empty(),
        },
        Item::AndChain(cs) => and_fold(cs@, val, u),
        Item::OrChain(cs) => or_fold(cs@, val, u),
    };
    match q.item {
        Item::Single(t) => {},
        Item::AndChain(cs) => {
            lemma_and_fold_within(cs@, val, u);
        },
        Item::OrChain(cs) => {
            lemma_or_fold_within(cs@, val, u);
        },
    }
    if q.denote(val, u) is Some {
        assert(base.subset_of(u));
        assert(u.difference(u.difference(base)) =~= base);
    }
}

/// A conjunction with a query that denotes the whole universe denotes what
/// the other query denotes.
pub proof fn lemma_and_universe<T>(
    both: Query<T>,
    q: Query<T>,
    top: Query<T>,
    val: spec_fn(T) -> Option<Set<u32>>,
    u: Set<u32>,
)
    requires
        both.item matches Item::AndChain(cs) && cs@ == seq![q, top],
        !both.inverse,
        top.denote(val, u) == Some(u),
        q.denote(val, u) is Some,
        q.all_atoms(val_within(val, u)),
    ensures
        both.denote(val, u) == q.denote(val, u),
{
    lemma_denote_within(q, val, u);
    lemma_fold_pair(q, top, val, u);
    let s = q.denote(val, u)->0;
    assert(u.intersect(s).intersect(u) =~= s);
}

/// A disjunction with a query that denotes the empty set denotes what the
/// other query denotes.
pub proof fn lemma_or_empty<T>(
    both: Query<T>,
    q: Query<T>,
    bottom: Query<T>,
    val: spec_fn(T) -> Option<Set<u32>>,
    u: Set<u32>,
)
    requires
        both.item matches Item::OrChain(cs) && cs@ == seq![q, bottom],
        !both.inverse,
        bottom.denote(val, u) == Some(Set::<u32>::empty()),
        q.denote(val, u) is Some,
    ensures
        both.denote(val, u) == q.denote(val, u),
{
    lemma_fold_pair(q, bottom, val, u);
    let s = q.denote(val, u)->0;
    assert(Set::<u32>::empty().union(s).union(Set::empty()) =~= s);
}

/// De Morgan: the negation of a conjunction denotes what the disjunction of
/// the negations denotes.
pub proof fn lemma_de_morgan_and<T>(
    conj: Query<T>,
    disj: Query<T>,
    a: Query<T>,
    b: Query<T>,
    val: spec_fn(T) -> Option<Set<u32>>,
    u: Set<u32>,
)
    requires
        conj.item matches Item::AndChain(cs) && cs@ == seq![a, b],
        disj.item matches Item::OrChain(cs) && cs@ == seq![a.negated(), b.negated()],
        conj.inverse,
        !disj.inverse,
        a.all_atoms(val_within(val, u)),
        b.all_atoms(val_within(val, u)),
    ensures
        conj.denote(val, u) == disj.denote(val, u),
{
    lemma_negation(a, val, u);
    lemma_negation(b, val, u);
    lemma_denote_within(a, val, u);
    lemma_denote_within(b, val, u);
    let cs = seq![a, b];
    let ns = seq![a.negated(), b.negated()];
    lemma_fold_pair(a, b, val, u);
    lemma_fold_pair(a.negated(), b.negated(), val, u);
    assert(u.difference(and_fold(cs, val, u)) =~= or_fold(ns, val, u));
}

/// De Morgan: the negation of a disjunction denotes what the conjunction of
/// the negations denotes.
pub proof fn lemma_de_morgan_or<T>(
    disj: Query<T>,
    conj: Query<T>,
    a: Query<T>,
    b: Query<T>,
    val: spec_fn(T) -> Option<Set<u32>>,
    u: Set<u32>,
)
    requires
        disj.item matches Item::OrChain(cs) && cs@ == seq![a, b],
        conj.item matches Item::AndChain(cs) && cs@ == seq![a.negated(), b.negated()],
        disj.inverse,
        !conj.inverse,
        a.all_atoms(val_within(val, u)),
        b.all_atoms(val_within(val, u)),
    ensures
        disj.denote(val, u) == conj.denote(val, u),
{
    lemma_negation(a, val, u);
    lemma_negation(b, val, u);
    lemma_denote_within(a, val, u);
    lemma_denote_within(b, val, u);
    let cs = seq![a, b];
    let ns = seq![a.negated(), b.negated()];
    lemma_fold_pair(a, b, val, u);
    lemma_fold_pair(a.negated(), b.negated(), val, u);
    assert(u.difference(or_fold(cs, val, u)) =~= and_fold(ns, val, u));
}

/// The ids that one of the postings of `ps` stands for.
pub open spec fn union_views<'a>(ps: Seq<Queryable<'a>>) -> Set<u32>
    decreases ps.len(),
{
    if ps.len() == 0 {
        Set::empty()
    } else {
        union_views(ps.drop_last()).union(ps.last()@)
    }
}

/// Whether each of the postings `ps` is well formed and lies within `u`.
pub open spec fn all_ok<'a>(ps: Seq<Queryable<'a>>, u: Set<u32>) -> bool {
    forall|i: int| 0 <= i < ps.len() ==> (#[trigger] ps[i]).wf() && ps[i]@.subset_of(u)
}

/// The sets of ids that the postings `ps` stand for, in their order.
pub open spec fn views_of<'a>(ps: Seq<Queryable<'a>>) -> Seq<Set<u32>> {
    Seq::new(ps.len(), |i: int| ps[i]@)
}

/// Whether `q` is a disjunction of single postings, none of them inverted.
pub open spec fn is_posting_chain<'a>(q: Query<Queryable<'a>>) -> bool {
    q.item matches Item::OrChain(cs) && forall|i: int|
        0 <= i < cs@.len() ==> (#[trigger] cs@[i]).item is Single && !cs@[i].inverse
}

/// The number of children of a chain.
pub open spec fn chain_len<T>(q: Query<T>) -> nat {
    match q.item {
        Item::Single(t) => 0,
        Item::AndChain(cs) => cs@.len(),
        Item::OrChain(cs) => cs@.len(),
    }
}

/// The posting of the child at the place `i` of a chain of single
/// postings, and the posting of a single posting itself.
pub open spec fn chain_posting<'a>(q: Query<Queryable<'a>>, i: int) -> Queryable<'a> {
    match q.item {
        Item::Single(p) => p,
        Item::AndChain(cs) => match cs@[i].item {
            Item::Single(p) => p,
            _ => arbitrary(),
        },
        Item::OrChain(cs) => match cs@[i].item {
            Item::Single(p) => p,
            _ => arbitrary(),
        },
    }
}

/// Whether `q` is the disjunction of stored postings that stand for `sets`,
/// one child for each set and in their order, no child inverted.
pub open spec fn stored_chain<'a>(q: Query<Queryable<'a>>, sets: Seq<Set<u32>>) -> bool {
    &&& is_posting_chain(q)
    &&& chain_len(q) == sets.len()
    &&& forall|i: int|
        0 <= i < sets.len() ==> (#[trigger] chain_posting(q, i)) is Borrowed && chain_posting(q, i)@
            == sets[i]
}

/// The disjunction of `postings`, each as a query of its own, in their order.
pub fn or_chain<'a>(postings: Vec<Queryable<'a>>, inverse: bool) -> (q: Query<Queryable<'a>>)
    ensures
        q.inverse == inverse,
        is_posting_chain(q),
        chain_len(q) == postings@.len(),
        forall|i: int| 0 <= i < postings@.len() ==> #[trigger] chain_posting(q, i) == postings@[i],
        forall|u: Set<u32>| #[trigger]
            q.denote(posting_val(), u) == Some(invert_if(inverse, union_views(postings@), u)),
        forall|u: Set<u32>| all_ok(postings@, u) ==> #[trigger] q.all_atoms(posting_ok(u)),
{
    let ghost orig = postings@;
    let n = postings.len();
    let mut rev = reversed(postings);
    let mut singles: Vec<Query<Queryable<'a>>> = Vec::new();
    while rev.len() > 0
        invariant
            rev@.len() + singles@.len() == n,
            orig.len() == n,
            rev@ == orig.skip(singles@.len() as int).reverse(),
            forall|j: int|
                0 <= j < singles@.len() ==> (#[trigger] singles@[j]).item == Item::Single(orig[j])
                    && !singles@[j].inverse,
            forall|u: Set<u32>| #[trigger]
                or_fold(singles@, posting_val(), u) == union_views(orig.take(singles@.len() as int)),
        decreases rev@.len(),
    {
        let ghost k = singles@.len() as int;
        let ghost before = singles@;
        let p = rev.pop().unwrap();
        proof {
            assert(p == orig[k]);
            assert(rev@ =~= orig.skip(k + 1).reverse());
        }
        singles.push(Query { item: Item::Single(p), inverse: false });
        proof {
            assert(singles@.drop_last() == before);
            assert(orig.take(k + 1).drop_last() == orig.take(k));
            assert(orig.take(k + 1).last() == p);
            assert forall|j: int| 0 <= j < singles@.len() implies (#[trigger] singles@[j]).item
                == Item::Single(orig[j]) && !singles@[j].inverse by {
                if j < k {
                    assert(singles@[j] == before[j]);
                }
            }
            assert forall|u: Set<u32>| #[trigger]
                or_fold(singles@, posting_val(), u) == union_views(orig.take(k + 1)) by {
                assert(or_fold(before, posting_val(), u) == union_views(orig.take(k)));
                let last = singles@.last();
                assert(last.item == Item::Single(p) && !last.inverse);
                assert(posting_val()(p) == Some(p@));
                assert(last.denote(posting_val(), u) == Some(p@));
                assert(union_views(orig.take(k + 1)) == union_views(orig.take(k)).union(p@));
            }
        }
    }
    let ghost items = singles@;
    let q = Query { item: Item::OrChain(singles), inverse };
    proof {
        assert(orig.take(n as int) == orig);
        assert(q.item matches Item::OrChain(v) && v@ == items);
        assert forall|u: Set<u32>| #[trigger]
            q.denote(posting_val(), u) == Some(invert_if(inverse, union_views(orig), u)) by {
            assert(or_fold(items, posting_val(), u) == union_views(orig));
        }
        assert forall|u: Set<u32>| all_ok(orig, u) implies #[trigger] q.all_atoms(posting_ok(u)) by {
            assert forall|j: int| 0 <= j < items.len() implies (#[trigger] items[j]).all_atoms(
                posting_ok(u),
            ) by {
                assert(items[j].item == Item::Single(orig[j]));
                assert(orig[j].wf() && orig[j]@.subset_of(u));
            }
        }
    }
    q
}

/// Whether the posting `p` is well formed, lies within `u`, and holds
/// some ids of `u` but not all.
pub open spec fn posting_varies<'a>(u: Set<u32>) -> spec_fn(Queryable<'a>) -> bool {
    |p: Queryable<'a>| p.wf() && p@.subset_of(u) && p@ != Set::<u32>::empty() && p@ != u
}

impl<'a> Query<Queryable<'a>> {
    /// The query with each posting that holds no id, or every id of the
    /// universe, replaced by the empty chain that denotes the same.
    pub fn fold_constants(self, u: &Bitset) -> (r: Query<Queryable<'a>>)
        requires
            self.all_atoms(posting_ok(u@)),
            u.wf(),
        ensures
            r.inverse == self.inverse,
            r.all_atoms(posting_varies(u@)),
            r.denote(posting_val(), u@) == self.denote(posting_val(), u@),
        decreases self,
    {
        let inverse = self.inverse;
        let ghost val = posting_val();
        match self.item {
            Item::Single(p) => {
                let n = p.popcount();
                proof {
                    u.lemma_view();
                    vstd::set_lib::lemma_len_subset(p@, u@);
                }
                if n == 0 {
                    let r = Query { item: Item::OrChain(Vec::new()), inverse };
                    proof {
                        assert(p@.len() == 0);
                        assert(p@ =~= Set::<u32>::empty());
                        assert(r.item matches Item::OrChain(v) && v@.len() == 0);
                    }
                    r
                } else if n == u.popcount() {
                    let r = Query { item: Item::AndChain(Vec::new()), inverse };
                    proof {
                        vstd::set_lib::lemma_subset_equality(p@, u@);
                        assert(r.item matches Item::AndChain(v) && v@.len() == 0);
                    }
                    r
                } else {
                    proof {
                        assert(p@.len() != 0);
                    }
                    Query { item: Item::Single(p), inverse }
                }
            },
            Item::AndChain(cs) => {
                let out = fold_children(cs, u);
                let ghost items = out@;
                let r = Query { item: Item::AndChain(out), inverse };
                proof {
                    assert(r.item matches Item::AndChain(v) && v@ == items);
                    lemma_same_denotes(items, cs@, val, u@);
                }
                r
            },
            Item::OrChain(cs) => {
                let out = fold_children(cs, u);
                let ghost items = out@;
                let r = Query { item: Item::OrChain(out), inverse };
                proof {
                    assert(r.item matches Item::OrChain(v) && v@ == items);
                    lemma_same_denotes(items, cs@, val, u@);
                }
                r
            },
        }
    }
}

/// Chains whose queries denote the same, one by one, denote the same.
proof fn lemma_same_denotes<T>(
    a: Seq<Query<T>>,
    b: Seq<Query<T>>,
    val: spec_fn(T) -> Option<Set<u32>>,
    u: Set<u32>,
)
    requires
        a.len() == b.len(),
        forall|i: int| 0 <= i < a.len() ==> (#[trigger] a[i]).denote(val, u) == b[i].denote(val, u),
    ensures
        and_fold(a, val, u) == and_fold(b, val, u),
        or_fold(a, val, u) == or_fold(b, val, u),
    decreases a.len(),
{
    if a.len() > 0 {
        assert forall|i: int| 0 <= i < a.drop_last().len() implies (#[trigger] a.drop_last()[i]).denote(
            val,
            u,
        ) == b.drop_last()[i].denote(val, u) by {
            assert(a.drop_last()[i] == a[i]);
            assert(b.drop_last()[i] == b[i]);
        }
        lemma_same_denotes(a.drop_last(), b.drop_last(), val, u);
        assert(a[a.len() - 1].denote(val, u) == b[a.len() - 1].denote(val, u));
    }
}

/// The queries of `cs`, each with its constant postings replaced.
#[verifier::loop_isolation(false)]
fn fold_children<'a>(cs: Vec<Query<Queryable<'a>>>, u: &Bitset) -> (out: Vec<Query<Queryable<'a>>>)
    requires
        all_of(cs@, posting_ok(u@)),
        u.wf(),
    ensures
        out@.len() == cs@.len(),
        all_of(out@, posting_varies(u@)),
        forall|i: int|
            0 <= i < out@.len() ==> (#[trigger] out@[i]).denote(posting_val(), u@) == cs@[i].denote(
                posting_val(),
                u@,
            ),
    decreases cs,
{
    let ghost cs0 = cs;
    let ghost orig = cs@;
    let n = cs.len();
    let mut rev = reversed(cs);
    let mut out: Vec<Query<Queryable<'a>>> = Vec::new();
    while rev.len() > 0
        invariant
            rev@.len() + out@.len() == n,
            orig.len() == n,
            orig == cs0@,
            rev@ == orig.skip(out@.len() as int).reverse(),
            all_of(out@, posting_varies(u@)),
            forall|i: int|
                0 <= i < out@.len() ==> (#[trigger] out@[i]).denote(posting_val(), u@)
                    == orig[i].denote(posting_val(), u@),
        decreases rev@.len(),
    {
        let ghost k = out@.len() as int;
        let ghost before = out@;
        let c = rev.pop().unwrap();
        proof {
            assert(c == orig[k]);
            assert(rev@ =~= orig.skip(k + 1).reverse());
            assert(c == cs0@[k]);
            assert(orig[k].all_atoms(posting_ok(u@)));
        }
        let folded = c.fold_constants(u);
        out.push(folded);
        proof {
            lemma_all_of_push(before, folded, posting_varies(u@));
            assert(out@ == before.push(folded));
            assert forall|i: int| 0 <= i < out@.len() implies (#[trigger] out@[i]).denote(
                posting_val(),
                u@,
            ) == orig[i].denote(posting_val(), u@) by {
                if i < k {
                    assert(out@[i] == before[i]);
                }
            }
        }
    }
    out
}

} // verus!
