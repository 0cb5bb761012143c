//! The ordered index: record ids sorted by a scalar value.

use crate::posting::Queryable;
use std::collections::HashMap;
use vstd::prelude::*;

verus! {

/// A range of values to look up.
#[derive(Clone, Copy, Debug, PartialEq, Eq, Structural)]
pub enum RangeQuery {
    /// `lo..hi` and `lo..=hi`: both ends belong to the range.
    Between(i64, i64),
    /// `lo..`
    AtLeast(i64),
    /// `..hi`
    AtMost(i64),
    /// `v` and `=v`
    Exactly(i64),
    /// `<v`
    Below(i64),
    /// `>v`
    Above(i64),
}

impl RangeQuery {
    /// Whether `x` lies in the range.
    pub open spec fn matches(self, x: i64) -> bool {
        match self {
            RangeQuery::Between(lo, hi) => lo <= x <= hi,
            RangeQuery::AtLeast(lo) => lo <= x,
            RangeQuery::AtMost(hi) => x <= hi,
            RangeQuery::Exactly(v) => x == v,
            RangeQuery::Below(v) => x < v,
            RangeQuery::Above(v) => x > v,
        }
    }

    /// The range as a pair of inclusive bounds; `None` where nothing lies in it.
    pub fn bounds(&self) -> (r: Option<(i64, i64)>)
        ensures
            match r {
                Some((lo, hi)) => lo <= hi && forall|x: i64| self.matches(x) <==> lo <= x <= hi,
                None => forall|x: i64| !self.matches(x),
            },
    {
        let (lo, hi) = match *self {
            RangeQuery::Between(lo, hi) => (lo, hi),
            RangeQuery::AtLeast(lo) => (lo, i64::MAX),
            RangeQuery::AtMost(hi) => (i64::MIN, hi),
            RangeQuery::Exactly(v) => (v, v),
            RangeQuery::Below(v) => {
                if v == i64::MIN {
                    return None;
                }
                (i64::MIN, v - 1)
            },
            RangeQuery::Above(v) => {
                if v == i64::MAX {
                    return None;
                }
                (v + 1, i64::MAX)
            },
        };
        if lo <= hi {
            Some((lo, hi))
        } else {
            None
        }
    }
}

/// Whether the entry `(v1, id1)` comes before `(v2, id2)`: by value, then by id.
pub open spec fn entry_lt(v1: i64, id1: u32, v2: i64, id2: u32) -> bool {
    v1 < v2 || (v1 == v2 && id1 < id2)
}

/// Whether the entries are in strictly rising order.
pub open spec fn entries_sorted(values: Seq<i64>, ids: Seq<u32>) -> bool {
    &&& values.len() == ids.len()
    &&& forall|i: int, j: int|
        0 <= i < j < ids.len() ==> entry_lt(values[i], #[trigger] ids[i], values[j], #[trigger] ids[j])
}

/// An index of record ids by a value, kept in the order of the values.
pub struct RangeIndex {
    values: Vec<i64>,
    ids: Vec<u32>,
    by_id: HashMap<u32, i64>,
}

impl RangeIndex {
    /// The value of each id the index holds.
    pub closed spec fn value_of(&self) -> Map<u32, i64> {
        self.by_id@
    }

    /// The ids in the order of their values; ids of equal value ascend.
    pub closed spec fn order(&self) -> Seq<u32> {
        self.ids@
    }

    /// The values in rising order, each at the position of its id in `order`.
    pub closed spec fn values(&self) -> Seq<i64> {
        self.values@
    }

    /// The representation invariant.
    pub closed spec fn wf(&self) -> bool {
        &&& entries_sorted(self.values@, self.ids@)
        &&& forall|j: int|
            0 <= j < self.ids@.len() ==> self.by_id@.contains_key(#[trigger] self.ids@[j])
                && self.by_id@[self.ids@[j]] == self.values@[j]
        &&& forall|id: u32| #[trigger] self.by_id@.contains_key(id) ==> self.ids@.contains(id)
    }

    /// What the order holds: every id once, at the place of its value.
    pub proof fn lemma_order(&self)
        requires
            self.wf(),
        ensures
            self.order().no_duplicates(),
            self.order().to_set() == self.value_of().dom(),
            entries_sorted(self.values(), self.order()),
            forall|j: int|
                0 <= j < self.order().len() ==> self.value_of()[#[trigger] self.order()[j]]
                    == self.values()[j],
    {
        assert forall|i: int, j: int|
            0 <= i < self.ids@.len() && 0 <= j < self.ids@.len() && i != j implies self.ids@[i]
            != self.ids@[j] by {
            if i < j {
                assert(entry_lt(self.values@[i], self.ids@[i], self.values@[j], self.ids@[j]));
            } else {
                assert(entry_lt(self.values@[j], self.ids@[j], self.values@[i], self.ids@[i]));
            }
        }
        assert(self.ids@.to_set() =~= self.by_id@.dom());
    }

    /// The order of a sound index is a matter of the values of its ids alone.
    pub proof fn lemma_same_values_same_order(&self, other: &RangeIndex)
        requires
            self.wf(),
            other.wf(),
            self.value_of() == other.value_of(),
        ensures
            self.order() == other.order(),
            self.values() == other.values(),
    {
        self.lemma_order();
        other.lemma_order();
        lemma_sorted_entries_equal(
            self.values@,
            self.ids@,
            other.values@,
            other.ids@,
            self.by_id@,
        );
    }

    /// An index without entries.
    pub fn new() -> (r: RangeIndex)
        ensures
            r.wf(),
            r.value_of() == Map::<u32, i64>::empty(),
            r.order() == Seq::<u32>::empty(),
    {
        RangeIndex { values: Vec::new(), ids: Vec::new(), by_id: HashMap::new() }
    }

    /// The ids in the order of their values.
    pub fn ids(&self) -> (r: &Vec<u32>)
        ensures
            r@ == self.order(),
    {
        &self.ids
    }

    /// The value of `id`, if the index holds the id.
    pub fn value(&self, id: u32) -> (r: Option<i64>)
        ensures
            r == if self.value_of().contains_key(id) {
                Some(self.value_of()[id])
            } else {
                None
            },
    {
        broadcast use vstd::std_specs::hash::group_hash_axioms;

        match self.by_id.get(&id) {
            Some(v) => Some(*v),
            None => None,
        }
    }

    /// The first position whose entry does not come before `(v, id)`.
    fn lower_bound(&self, v: i64, id: u32) -> (p: usize)
        requires
            self.wf(),
        ensures
            p <= self.ids@.len(),
            forall|j: int| 0 <= j < p ==> entry_lt(self.values@[j], #[trigger] self.ids@[j], v, id),
            forall|j: int|
                p <= j < self.ids@.len() ==> !entry_lt(self.values@[j], #[trigger] self.ids@[j], v, id),
    {
        let mut lo: usize = 0;
        let mut hi: usize = self.ids.len();
        while lo < hi
            invariant
                self.wf(),
                lo <= hi <= self.ids@.len(),
                forall|j: int|
                    0 <= j < lo ==> entry_lt(self.values@[j], #[trigger] self.ids@[j], v, id),
                forall|j: int|
                    hi <= j < self.ids@.len() ==> !entry_lt(
                        self.values@[j],
                        #[trigger] self.ids@[j],
                        v,
                        id,
                    ),
            decreases hi - lo,
        {
            let mid = lo + (hi - lo) / 2;
            let mv = self.values[mid];
            let mi = self.ids[mid];
            if mv < v || (mv == v && mi < id) {
                proof {
                    assert forall|j: int| 0 <= j < mid + 1 implies entry_lt(
                        self.values@[j],
                        #[trigger] self.ids@[j],
                        v,
                        id,
                    ) by {
                        if j < mid {
                            assert(entry_lt(
                                self.values@[j],
                                self.ids@[j],
                                self.values@[mid as int],
                                self.ids@[mid as int],
                            ));
                        }
                    }
                }
                lo = mid + 1;
            } else {
                proof {
                    assert forall|j: int| mid <= j < self.ids@.len() implies !entry_lt(
                        self.values@[j],
                        #[trigger] self.ids@[j],
                        v,
                        id,
                    ) by {
                        if j > mid {
                            assert(entry_lt(
                                self.values@[mid as int],
                                self.ids@[mid as int],
                                self.values@[j],
                                self.ids@[j],
                            ));
                        }
                    }
                }
                hi = mid;
            }
        }
        lo
    }

    /// The ids whose value lies in `range`, as a slice of the order.
    pub fn get(&self, range: &RangeQuery) -> (q: Queryable<'_>)
        requires
            self.wf(),
        ensures
            q.wf(),
            q matches Queryable::RangeSlice { order, lo, hi } && order@ == self.order() && forall|
                j: int,
            |
                0 <= j < self.order().len() ==> (lo <= j < hi <==> range.matches(
                    #[trigger] self.values()[j],
                )),
            q@ == Set::new(
                |id: u32| self.value_of().contains_key(id) && range.matches(self.value_of()[id]),
            ),
    {
        proof {
            self.lemma_order();
        }
        let (lo, hi) = match range.bounds() {
            None => (0, 0),
            Some((a, b)) => {
                let lo = self.lower_bound(a, 0);
                let hi = if b == i64::MAX {
                    self.ids.len()
                } else {
                    self.lower_bound(b + 1, 0)
                };
                if lo <= hi {
                    (lo, hi)
                } else {
                    proof {
                        assert(entry_lt(self.values@[hi as int], self.ids@[hi as int], a, 0));
                    }
                    (lo, lo)
                }
            },
        };
        let q = Queryable::RangeSlice { order: &self.ids, lo, hi };
        proof {
            let want = Set::new(
                |id: u32| self.value_of().contains_key(id) && range.matches(self.value_of()[id]),
            );
            let part = self.ids@.subrange(lo as int, hi as int);
            assert forall|id: u32| part.to_set().contains(id) <==> want.contains(id) by {
                if part.contains(id) {
                    let j = choose|j: int| 0 <= j < part.len() && part[j] == id;
                    assert(self.ids@[lo + j] == id);
                }
                if want.contains(id) {
                    let j = choose|j: int| 0 <= j < self.ids@.len() && self.ids@[j] == id;
                    assert(self.values@[j] == self.by_id@[id]);
                    assert(lo <= j < hi);
                    assert(part[j - lo] == id);
                }
            }
            assert(q@ =~= want);
            assert forall|j: int| 0 <= j < self.ids@.len() implies (lo <= j < hi <==> range.matches(
                #[trigger] self.values@[j],
            )) by {
                let id = self.ids@[j];
                assert(self.by_id@.contains_key(id) && self.by_id@[id] == self.values@[j]);
                if range.matches(self.values@[j]) {
                    assert(want.contains(id));
                    assert(part.contains(id));
                    let k = choose|k: int| 0 <= k < part.len() && part[k] == id;
                    assert(self.ids@[lo + k] == id);
                    assert(self.ids@.no_duplicates());
                    assert(lo + k == j);
                }
                if lo <= j < hi {
                    assert(part[j - lo] == id);
                    assert(part.to_set().contains(id));
                    assert(want.contains(id));
                }
            }
        }
        q
    }

    /// Takes the entry of `id` out, where the index holds `id` with the value `v`.
    pub fn remove(&mut self, id: u32, v: i64)
        requires
            old(self).wf(),
        ensures
            final(self).wf(),
            final(self).value_of() == if old(self).value_of().contains_pair(id, v) {
                old(self).value_of().remove(id)
            } else {
                old(self).value_of()
            },
    {
        broadcast use vstd::std_specs::hash::group_hash_axioms;

        let p = self.lower_bound(v, id);
        if p < self.ids.len() && self.values[p] == v && self.ids[p] == id {
            self.values.remove(p);
            self.ids.remove(p);
            self.by_id.remove(&id);
            proof {
                let ov = old(self).values@;
                let oi = old(self).ids@;
                assert forall|i: int, j: int| 0 <= i < j < self.ids@.len() implies entry_lt(
                    self.values@[i],
                    #[trigger] self.ids@[i],
                    self.values@[j],
                    #[trigger] self.ids@[j],
                ) by {
                    let i0 = if i < p { i } else { i + 1 };
                    let j0 = if j < p { j } else { j + 1 };
                    assert(entry_lt(ov[i0], oi[i0], ov[j0], oi[j0]));
                }
                assert forall|j: int| 0 <= j < self.ids@.len() implies self.by_id@.contains_key(
                    #[trigger] self.ids@[j],
                ) && self.by_id@[self.ids@[j]] == self.values@[j] by {
                    let j0 = if j < p { j } else { j + 1 };
                    assert(self.ids@[j] == oi[j0]);
                    if j0 < p {
                        assert(entry_lt(ov[j0], oi[j0], ov[p as int], oi[p as int]));
                    } else {
                        assert(entry_lt(ov[p as int], oi[p as int], ov[j0], oi[j0]));
                    }
                    assert(old(self).by_id@[oi[j0]] == ov[j0]);
                }
                assert forall|x: u32| #[trigger] self.by_id@.contains_key(x) implies self.ids@.contains(
                    x,
                ) by {
                    let j0 = choose|j: int| 0 <= j < oi.len() && oi[j] == x;
                    let j = if j0 < p { j0 } else { j0 - 1 };
                    assert(self.ids@[j] == x);
                }
            }
        } else {
            proof {
                if old(self).value_of().contains_pair(id, v) {
                    let j = choose|j: int| 0 <= j < self.ids@.len() && self.ids@[j] == id;
                    assert(self.values@[j] == v);
                    if j < p {
                        assert(entry_lt(self.values@[j], self.ids@[j], v, id));
                    } else if j > p {
                        assert(entry_lt(
                            self.values@[p as int],
                            self.ids@[p as int],
                            self.values@[j],
                            self.ids@[j],
                        ));
                    }
                }
            }
        }
    }

    /// Gives `id` the value `v`, in place of the value it had, if any.
    pub fn insert(&mut self, id: u32, v: i64)
        requires
            old(self).wf(),
        ensures
            final(self).wf(),
            final(self).value_of() == old(self).value_of().insert(id, v),
    {
        broadcast use vstd::std_specs::hash::group_hash_axioms;

        match self.value(id) {
            Some(w) => {
                self.remove(id, w);
            },
            None => {},
        }
        let ghost mid = *self;
        assert(!mid.by_id@.contains_key(id));
        let p = self.lower_bound(v, id);
        self.values.insert(p, v);
        self.ids.insert(p, id);
        self.by_id.insert(id, v);
        proof {
            let ov = mid.values@;
            let oi = mid.ids@;
            assert forall|j: int| 0 <= j < oi.len() implies oi[j] != id by {
                assert(mid.by_id@.contains_key(oi[j]));
            }
            assert forall|i: int, j: int| 0 <= i < j < self.ids@.len() implies entry_lt(
                self.values@[i],
                #[trigger] self.ids@[i],
                self.values@[j],
                #[trigger] self.ids@[j],
            ) by {
                let i0 = if i < p { i } else { i - 1 };
                let j0 = if j < p { j } else { j - 1 };
                if i == p {
                    assert(!entry_lt(ov[j0], oi[j0], v, id));
                    assert(oi[j0] != id);
                } else if j == p {
                    assert(entry_lt(ov[i0], oi[i0], v, id));
                } else {
                    assert(entry_lt(ov[i0], oi[i0], ov[j0], oi[j0]));
                }
            }
            assert forall|j: int| 0 <= j < self.ids@.len() implies self.by_id@.contains_key(
                #[trigger] self.ids@[j],
            ) && self.by_id@[self.ids@[j]] == self.values@[j] by {
                if j != p {
                    let j0 = if j < p { j } else { j - 1 };
                    assert(self.ids@[j] == oi[j0]);
                    assert(mid.by_id@[oi[j0]] == ov[j0]);
                }
            }
            assert forall|x: u32| #[trigger] self.by_id@.contains_key(x) implies self.ids@.contains(
                x,
            ) by {
                if x == id {
                    assert(self.ids@[p as int] == id);
                } else {
                    let j0 = choose|j: int| 0 <= j < oi.len() && oi[j] == x;
                    let j = if j0 < p { j0 } else { j0 + 1 };
                    assert(self.ids@[j] == x);
                }
            }
            assert(self.by_id@ =~= old(self).by_id@.insert(id, v));
        }
    }

    /// Moves `id` from the value `old_v` to `new_v`; nothing happens where
    /// the two are the same value.
    pub fn update(&mut self, id: u32, old_v: i64, new_v: i64)
        requires
            old(self).wf(),
        ensures
            final(self).wf(),
            final(self).value_of() == if old_v == new_v {
                old(self).value_of()
            } else {
                old(self).value_of().insert(id, new_v)
            },
    {
        if old_v != new_v {
            self.remove(id, old_v);
            self.insert(id, new_v);
            assert(self.value_of() =~= old(self).value_of().insert(id, new_v));
        }
    }
}

/// Two rising lists of entries that hold the same ids with the same values are the same list.
proof fn lemma_sorted_entries_equal(
    v1: Seq<i64>,
    i1: Seq<u32>,
    v2: Seq<i64>,
    i2: Seq<u32>,
    m: Map<u32, i64>,
)
    requires
        entries_sorted(v1, i1),
        entries_sorted(v2, i2),
        forall|j: int| 0 <= j < i1.len() ==> m.contains_key(#[trigger] i1[j]) && m[i1[j]] == v1[j],
        forall|j: int| 0 <= j < i2.len() ==> m.contains_key(#[trigger] i2[j]) && m[i2[j]] == v2[j],
        forall|id: u32| #[trigger] m.contains_key(id) ==> i1.contains(id) && i2.contains(id),
    ensures
        i1 == i2,
        v1 == v2,
    decreases i1.len(),
{
    if i1.len() == 0 {
        if i2.len() > 0 {
            assert(m.contains_key(i2[0]));
            assert(i1.contains(i2[0]));
        }
        assert(i1 =~= i2);
        assert(v1 =~= v2);
    } else {
        let n1 = i1.len() - 1;
        let last1 = i1[n1];
        assert(m.contains_key(last1));
        assert(i2.contains(last1));
        let n2 = i2.len() - 1;
        let last2 = i2[n2];
        let at2 = choose|p: int| 0 <= p < i2.len() && i2[p] == last1;
        assert(m.contains_key(last2));
        assert(i1.contains(last2));
        let at1 = choose|p: int| 0 <= p < i1.len() && i1[p] == last2;
        // each last entry is not before the other, so they are the same entry
        if at2 < n2 {
            assert(entry_lt(v2[at2], i2[at2], v2[n2], i2[n2]));
        }
        if at1 < n1 {
            assert(entry_lt(v1[at1], i1[at1], v1[n1], i1[n1]));
        }
        assert(last1 == last2);
        assert(at2 == n2) by {
            if at2 < n2 {
                assert(entry_lt(v2[at2], i2[at2], v2[n2], i2[n2]));
            }
        }
        let m2 = m.remove(last1);
        let a1 = i1.drop_last();
        let a2 = i2.drop_last();
        let b1 = v1.drop_last();
        let b2 = v2.drop_last();
        assert forall|j: int| 0 <= j < a1.len() implies m2.contains_key(#[trigger] a1[j]) && m2[a1[j]]
            == b1[j] by {
            assert(a1[j] == i1[j]);
            assert(entry_lt(v1[j], i1[j], v1[n1], i1[n1]));
        }
        assert forall|j: int| 0 <= j < a2.len() implies m2.contains_key(#[trigger] a2[j]) && m2[a2[j]]
            == b2[j] by {
            assert(a2[j] == i2[j]);
            assert(entry_lt(v2[j], i2[j], v2[n2], i2[n2]));
        }
        assert forall|id: u32| #[trigger] m2.contains_key(id) implies a1.contains(id) && a2.contains(
            id,
        ) by {
            assert(m.contains_key(id));
            let q1 = choose|q: int| 0 <= q < i1.len() && i1[q] == id;
            assert(a1[q1] == id);
            let q2 = choose|q: int| 0 <= q < i2.len() && i2[q] == id;
            assert(a2[q2] == id);
        }
        assert(entries_sorted(b1, a1)) by {
            assert forall|x: int, y: int| 0 <= x < y < a1.len() implies entry_lt(
                b1[x],
                #[trigger] a1[x],
                b1[y],
                #[trigger] a1[y],
            ) by {
                assert(entry_lt(v1[x], i1[x], v1[y], i1[y]));
            }
        }
        assert(entries_sorted(b2, a2)) by {
            assert forall|x: int, y: int| 0 <= x < y < a2.len() implies entry_lt(
                b2[x],
                #[trigger] a2[x],
                b2[y],
                #[trigger] a2[y],
            ) by {
                assert(entry_lt(v2[x], i2[x], v2[y], i2[y]));
            }
        }
        lemma_sorted_entries_equal(b1, a1, b2, a2, m2);
        assert(i1 =~= a1.push(last1));
        assert(i2 =~= a2.push(last2));
        assert(v1 =~= b1.push(v1[n1]));
        assert(v2 =~= b2.push(v2[n2]));
    }
}

/// The values that a list of entries gives the ids: of two entries for
/// one id, the later one counts.
pub open spec fn entries_map(entries: Seq<(i64, u32)>) -> Map<u32, i64>
    decreases entries.len(),
{
    if entries.len() == 0 {
        Map::empty()
    } else {
        entries_map(entries.drop_last()).insert(entries.last().1, entries.last().0)
    }
}

/// `slice::sort_unstable`: reorders the entries. Nothing is taken from it
/// on trust: what it leaves is checked entry by entry.
#[verifier::external_body]
fn sort_entries(entries: &mut Vec<(i64, u32)>) {
    entries.sort_unstable();
}

/// Entries of which each comes before the next are in rising order.
proof fn lemma_rising(values: Seq<i64>, ids: Seq<u32>, i: int, j: int)
    requires
        values.len() == ids.len(),
        forall|k: int|
            0 < k < ids.len() ==> entry_lt(values[k - 1], ids[k - 1], values[k], #[trigger] ids[k]),
        0 <= i < j < ids.len(),
    ensures
        entry_lt(values[i], ids[i], values[j], ids[j]),
    decreases j - i,
{
    assert(entry_lt(values[j - 1], ids[j - 1], values[j], ids[j]));
    if i < j - 1 {
        lemma_rising(values, ids, i, j - 1);
    }
}

impl RangeIndex {
    /// The index of the entries of `entries`, each a value with its id. The
    /// entries are sorted in one go where no id comes twice, and else put in
    /// one by one.
    pub fn from_entries(entries: &Vec<(i64, u32)>) -> (r: RangeIndex)
        ensures
            r.wf(),
            r.value_of() == entries_map(entries@),
    {
        broadcast use vstd::std_specs::hash::group_hash_axioms;

        let mut by_id: HashMap<u32, i64> = HashMap::new();
        let mut sorted: Vec<(i64, u32)> = Vec::new();
        let mut i: usize = 0;
        while i < entries.len()
            invariant
                i <= entries@.len(),
                by_id@ == entries_map(entries@.take(i as int)),
            decreases entries@.len() - i,
        {
            let (v, id) = entries[i];
            proof {
                assert(entries@.take(i + 1).drop_last() == entries@.take(i as int));
                assert(entries@.take(i + 1).last() == entries@[i as int]);
            }
            by_id.insert(id, v);
            sorted.push((v, id));
            i += 1;
        }
        assert(entries@.take(i as int) == entries@);
        sort_entries(&mut sorted);
        let n = sorted.len();
        if n == by_id.len() {
            let mut values: Vec<i64> = Vec::new();
            let mut ids: Vec<u32> = Vec::new();
            let mut fine = true;
            let mut j: usize = 0;
            while j < n && fine
                invariant
                    j <= n,
                    n == sorted@.len(),
                    values@.len() == j,
                    ids@.len() == j,
                    forall|k: int|
                        0 <= k < j ==> by_id@.contains_key(#[trigger] ids@[k]) && by_id@[ids@[k]]
                            == values@[k] && sorted@[k] == (values@[k], ids@[k]),
                    forall|k: int|
                        0 < k < j ==> entry_lt(
                            values@[k - 1],
                            ids@[k - 1],
                            values@[k],
                            #[trigger] ids@[k],
                        ),
                decreases n - j + if fine {
                    1nat
                } else {
                    0nat
                },
            {
                let (v, id) = sorted[j];
                let held = match by_id.get(&id) {
                    Some(w) => *w == v,
                    None => false,
                };
                let rises = if j == 0 {
                    true
                } else {
                    let (pv, pid) = sorted[j - 1];
                    pv < v || (pv == v && pid < id)
                };
                if held && rises {
                    values.push(v);
                    ids.push(id);
                    j += 1;
                } else {
                    fine = false;
                }
            }
            if fine {
                proof {
                    assert forall|a: int, b: int| 0 <= a < b < ids@.len() implies entry_lt(
                        values@[a],
                        #[trigger] ids@[a],
                        values@[b],
                        #[trigger] ids@[b],
                    ) by {
                        lemma_rising(values@, ids@, a, b);
                    }
                    assert forall|a: int, b: int|
                        0 <= a < ids@.len() && 0 <= b < ids@.len() && a != b implies ids@[a]
                        != ids@[b] by {
                        if a < b {
                            assert(entry_lt(values@[a], ids@[a], values@[b], ids@[b]));
                        } else {
                            assert(entry_lt(values@[b], ids@[b], values@[a], ids@[a]));
                        }
                    }
                    assert(ids@.no_duplicates());
                    ids@.unique_seq_to_set();
                    assert(ids@.to_set().subset_of(by_id@.dom())) by {
                        assert forall|id: u32| ids@.to_set().contains(id) implies by_id@.dom().contains(
                            id,
                        ) by {
                            let k = choose|k: int| 0 <= k < ids@.len() && ids@[k] == id;
                            assert(by_id@.contains_key(ids@[k]));
                        }
                    }
                    vstd::seq_lib::seq_to_set_is_finite(ids@);
                    vstd::set_lib::lemma_subset_equality(ids@.to_set(), by_id@.dom());
                    assert forall|id: u32| #[trigger] by_id@.contains_key(id) implies ids@.contains(
                        id,
                    ) by {
                        assert(ids@.to_set().contains(id));
                    }
                }
                return RangeIndex { values, ids, by_id };
            }
        }
        let mut r = RangeIndex::new();
        let mut i: usize = 0;
        proof {
            assert(r.value_of() =~= entries_map(entries@.take(0)));
        }
        while i < entries.len()
            invariant
                i <= entries@.len(),
                r.wf(),
                r.value_of() == entries_map(entries@.take(i as int)),
            decreases entries@.len() - i,
        {
            let (v, id) = entries[i];
            proof {
                assert(entries@.take(i + 1).drop_last() == entries@.take(i as int));
                assert(entries@.take(i + 1).last() == entries@[i as int]);
            }
            r.insert(id, v);
            i += 1;
        }
        assert(entries@.take(i as int) == entries@);
        r
    }
}

} // verus!
