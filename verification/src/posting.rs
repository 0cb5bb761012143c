//! Posting handles, evaluated results and their paged materialization.

use crate::bitset::Bitset;
use vstd::prelude::*;

verus! {

/// Whether every element of `s` is smaller than the ones after it.
pub open spec fn strictly_ascending(s: Seq<u32>) -> bool {
    forall|i: int, j: int| 0 <= i < j < s.len() ==> s[i] < s[j]
}

/// The elements of `order` that are in `set`, in the order of `order`.
pub open spec fn matches_in(order: Seq<u32>, set: Set<u32>) -> Seq<u32> {
    order.filter(|id: u32| set.contains(id))
}

/// `order` itself, or `order` back to front.
pub open spec fn directed(order: Seq<u32>, reverse: bool) -> Seq<u32> {
    if reverse {
        order.reverse()
    } else {
        order
    }
}

/// The matches are the elements of the order that the set holds, and no
/// more of them than the order has.
pub proof fn lemma_matches_members(order: Seq<u32>, set: Set<u32>)
    ensures
        matches_in(order, set).len() <= order.len(),
        forall|x: u32| matches_in(order, set).contains(x) <==> order.contains(x) && set.contains(x),
{
    let pred = |id: u32| set.contains(id);
    let m = order.filter(pred);
    order.lemma_filter_len(pred);
    assert forall|x: u32| m.contains(x) <==> order.contains(x) && set.contains(x) by {
        if m.contains(x) {
            let i = choose|i: int| 0 <= i < m.len() && m[i] == x;
            order.lemma_filter_pred(pred, i);
            order.lemma_filter_contains_rev(pred, x);
        }
        if order.contains(x) && set.contains(x) {
            let i = choose|i: int| 0 <= i < order.len() && order[i] == x;
            order.lemma_filter_contains(pred, i);
        }
    }
}

/// The page of `full` that starts at `offset` and holds at most `limit` items.
pub open spec fn page_of(full: Seq<u32>, offset: nat, limit: nat) -> Seq<u32> {
    let lo = if offset <= full.len() {
        offset
    } else {
        full.len()
    };
    let hi = if offset + limit <= full.len() {
        offset + limit
    } else {
        full.len()
    };
    full.subrange(lo as int, hi as int)
}

/// The first `pages` pages of `full`, each of `limit` items, one after another.
pub open spec fn pages_concat(full: Seq<u32>, limit: nat, pages: nat) -> Seq<u32>
    decreases pages,
{
    if pages == 0 {
        Seq::empty()
    } else {
        pages_concat(full, limit, (pages - 1) as nat) + page_of(
            full,
            ((pages - 1) * limit) as nat,
            limit,
        )
    }
}

/// Consecutive pages neither overlap nor leave a gap: the first `pages` pages
/// are the first `pages * limit` items, and once that reaches the length of
/// the list, they are the whole list.
pub proof fn lemma_pages_cover(full: Seq<u32>, limit: nat, pages: nat)
    ensures
        pages_concat(full, limit, pages) == page_of(full, 0, pages * limit),
        pages * limit >= full.len() ==> pages_concat(full, limit, pages) == full,
    decreases pages,
{
    if pages == 0 {
        assert(page_of(full, 0, 0) =~= Seq::<u32>::empty());
        if full.len() == 0 {
            assert(full =~= Seq::<u32>::empty());
        }
    } else {
        let p = (pages - 1) as nat;
        lemma_pages_cover(full, limit, p);
        assert(pages * limit == p * limit + limit) by (nonlinear_arith)
            requires
                p == pages - 1,
        ;
        assert(page_of(full, 0, p * limit) + page_of(full, p * limit, limit) =~= page_of(
            full,
            0,
            pages * limit,
        ));
        if pages * limit >= full.len() {
            assert(page_of(full, 0, pages * limit) =~= full);
        }
    }
}

/// A page of a list depends only on a prefix that is long enough to hold it.
pub proof fn lemma_page_of_prefix(head: Seq<u32>, tail: Seq<u32>, offset: nat, limit: nat)
    requires
        head.len() >= offset + limit,
    ensures
        page_of(head + tail, offset, limit) == page_of(head, offset, limit),
{
    assert(page_of(head + tail, offset, limit) =~= page_of(head, offset, limit));
}

/// Two ascending lists of the same ids are the same list.
pub proof fn lemma_ascending_unique(a: Seq<u32>, b: Seq<u32>)
    requires
        strictly_ascending(a),
        strictly_ascending(b),
        a.to_set() == b.to_set(),
    ensures
        a == b,
    decreases a.len(),
{
    if a.len() == 0 {
        if b.len() > 0 {
            assert(b.to_set().contains(b[0]));
            assert(a.contains(b[0]));
        }
        assert(a =~= b);
    } else {
        let x = a.last();
        assert(a.to_set().contains(x));
        assert(b.contains(x));
        let j = choose|j: int| 0 <= j < b.len() && b[j] == x;
        let y = b.last();
        assert(b.to_set().contains(y));
        assert(a.contains(y));
        let i = choose|i: int| 0 <= i < a.len() && a[i] == y;
        assert(x == y);
        let ra = a.drop_last();
        let rb = b.drop_last();
        assert forall|v: u32| ra.to_set().contains(v) <==> rb.to_set().contains(v) by {
            if ra.contains(v) {
                let k = choose|k: int| 0 <= k < ra.len() && ra[k] == v;
                assert(a[k] == v);
                assert(a.to_set().contains(v));
                assert(b.contains(v));
                let m = choose|m: int| 0 <= m < b.len() && b[m] == v;
                assert(rb[m] == v);
            }
            if rb.contains(v) {
                let k = choose|k: int| 0 <= k < rb.len() && rb[k] == v;
                assert(b[k] == v);
                assert(b.to_set().contains(v));
                assert(a.contains(v));
                let m = choose|m: int| 0 <= m < a.len() && a[m] == v;
                assert(ra[m] == v);
            }
        }
        assert(ra.to_set() =~= rb.to_set());
        lemma_ascending_unique(ra, rb);
        assert(a =~= ra.push(x));
        assert(b =~= rb.push(y));
    }
}

/// The first match of a list is its first element that is in the set.
pub proof fn lemma_first_match(order: Seq<u32>, set: Set<u32>, i: int)
    requires
        0 <= i < order.len(),
        set.contains(order[i]),
        forall|j: int| 0 <= j < i ==> !set.contains(order[j]),
    ensures
        matches_in(order, set).len() > 0,
        matches_in(order, set)[0] == order[i],
    decreases order.len(),
{
    let pred = |id: u32| set.contains(id);
    let rest = order.drop_last();
    reveal(Seq::filter);
    if i == order.len() - 1 {
        lemma_no_match(rest, set);
        assert(rest.filter(pred).len() == 0);
    } else {
        assert(rest[i] == order[i]);
        assert forall|j: int| 0 <= j < i implies !set.contains(rest[j]) by {
            assert(rest[j] == order[j]);
        }
        lemma_first_match(rest, set, i);
    }
}

/// A list without an element in the set has no match.
pub proof fn lemma_no_match(order: Seq<u32>, set: Set<u32>)
    requires
        forall|j: int| 0 <= j < order.len() ==> !set.contains(order[j]),
    ensures
        matches_in(order, set).len() == 0,
    decreases order.len(),
{
    reveal(Seq::filter);
    if order.len() > 0 {
        let rest = order.drop_last();
        assert forall|j: int| 0 <= j < rest.len() implies !set.contains(rest[j]) by {
            assert(rest[j] == order[j]);
        }
        lemma_no_match(rest, set);
    }
}

/// A handle to a set of record ids in one of three physical forms.
pub enum Queryable<'a> {
    /// A posting list that lives in an index.
    Borrowed(&'a Bitset),
    /// A materialized list of ids, ascending and without repetition.
    IdsOwned(Vec<u32>),
    /// The positions `lo..hi` of an id sequence that holds no id twice.
    RangeSlice { order: &'a Vec<u32>, lo: usize, hi: usize },
}

impl<'a> View for Queryable<'a> {
    type V = Set<u32>;

    /// The ids the handle stands for.
    open spec fn view(&self) -> Set<u32> {
        match self {
            Queryable::Borrowed(b) => b@,
            Queryable::IdsOwned(v) => v@.to_set(),
            Queryable::RangeSlice { order, lo, hi } => order@.subrange(*lo as int, *hi as int).to_set(),
        }
    }
}

impl<'a> Queryable<'a> {
    /// The invariant of each form.
    pub open spec fn wf(&self) -> bool {
        match self {
            Queryable::Borrowed(b) => b.wf(),
            Queryable::IdsOwned(v) => strictly_ascending(v@),
            Queryable::RangeSlice { order, lo, hi } => *lo <= *hi <= order@.len()
                && order@.no_duplicates(),
        }
    }

    /// The ids of `list` as an owned posting: sorted, each once.
    pub fn from_ids(list: &Vec<u32>) -> (r: Queryable<'static>)
        ensures
            r.wf(),
            r@ == list@.to_set(),
            r is IdsOwned,
    {
        let mut bits = Bitset::new();
        let mut i: usize = 0;
        while i < list.len()
            invariant
                i <= list@.len(),
                bits.wf(),
                bits@ == list@.take(i as int).to_set(),
            decreases list@.len() - i,
        {
            bits.set(list[i]);
            proof {
                assert(list@.take(i + 1) == list@.take(i as int).push(list@[i as int]));
                list@.take(i as int).lemma_push_to_set_commute(list@[i as int]);
            }
            i += 1;
        }
        let ids = bits.iter();
        proof {
            assert(list@.take(i as int) == list@);
            assert(ids@.to_set() =~= list@.to_set());
        }
        Queryable::IdsOwned(ids)
    }

    /// Whether `id` is one of the ids.
    pub fn contains(&self, id: u32) -> (b: bool)
        requires
            self.wf(),
        ensures
            b == self@.contains(id),
    {
        match self {
            Queryable::Borrowed(b) => b.get(id),
            Queryable::IdsOwned(v) => {
                let mut i: usize = 0;
                while i < v.len()
                    invariant
                        i <= v@.len(),
                        self@ == v@.to_set(),
                        forall|j: int| 0 <= j < i ==> v@[j] != id,
                    decreases v@.len() - i,
                {
                    if v[i] == id {
                        assert(v@[i as int] == id && v@.contains(id));
                        return true;
                    }
                    i += 1;
                }
                false
            },
            Queryable::RangeSlice { order, lo, hi } => {
                let ghost part = order@.subrange(*lo as int, *hi as int);
                let mut i: usize = *lo;
                while i < *hi
                    invariant
                        *lo <= i <= *hi <= order@.len(),
                        part == order@.subrange(*lo as int, *hi as int),
                        self@ == part.to_set(),
                        forall|j: int| 0 <= j < i - *lo ==> part[j] != id,
                    decreases *hi - i,
                {
                    if order[i] == id {
                        assert(part[i - *lo] == id && part.contains(id));
                        return true;
                    }
                    i += 1;
                }
                false
            },
        }
    }

    /// The ids, each once: ascending for a posting list or an owned list, in
    /// the order of the sequence for a range slice.
    pub fn iter_ids(&self) -> (ids: Vec<u32>)
        requires
            self.wf(),
        ensures
            ids@.no_duplicates(),
            ids@.to_set() == self@,
            self is RangeSlice ==> ids@ == self->order@.subrange(self->lo as int, self->hi as int),
            !(self is RangeSlice) ==> strictly_ascending(ids@),
    {
        match self {
            Queryable::Borrowed(b) => {
                let ids = b.iter();
                assert(ids@.to_set() =~= b@);
                ids
            },
            Queryable::IdsOwned(v) => {
                let mut ids: Vec<u32> = Vec::new();
                let mut i: usize = 0;
                while i < v.len()
                    invariant
                        i <= v@.len(),
                        ids@ == v@.take(i as int),
                    decreases v@.len() - i,
                {
                    ids.push(v[i]);
                    assert(v@.take(i + 1) == v@.take(i as int).push(v@[i as int]));
                    i += 1;
                }
                assert(v@.take(i as int) == v@);
                ids
            },
            Queryable::RangeSlice { order, lo, hi } => {
                let mut ids: Vec<u32> = Vec::new();
                let mut i: usize = *lo;
                while i < *hi
                    invariant
                        *lo <= i <= *hi <= order@.len(),
                        ids@ == order@.subrange(*lo as int, i as int),
                    decreases *hi - i,
                {
                    ids.push(order[i]);
                    assert(order@.subrange(*lo as int, i + 1) == order@.subrange(
                        *lo as int,
                        i as int,
                    ).push(order@[i as int]));
                    i += 1;
                }
                ids
            },
        }
    }

    /// The number of ids.
    pub fn popcount(&self) -> (n: u64)
        requires
            self.wf(),
        ensures
            n == self@.len(),
    {
        match self {
            Queryable::Borrowed(b) => b.popcount(),
            Queryable::IdsOwned(v) => {
                proof {
                    v@.unique_seq_to_set();
                }
                v.len() as u64
            },
            Queryable::RangeSlice { order, lo, hi } => {
                proof {
                    order@.subrange(*lo as int, *hi as int).unique_seq_to_set();
                }
                (*hi - *lo) as u64
            },
        }
    }

    /// The ids as a bitset of their own.
    pub fn to_bitset(&self) -> (r: Bitset)
        requires
            self.wf(),
        ensures
            r.wf(),
            r@ == self@,
    {
        match self {
            Queryable::Borrowed(b) => {
                let r = b.union(b);
                assert(b@.union(b@) =~= b@);
                r
            },
            Queryable::IdsOwned(v) => {
                assert(v@.subrange(0, v@.len() as int) == v@);
                bitset_of(v, 0, v.len())
            },
            Queryable::RangeSlice { order, lo, hi } => bitset_of(order, *lo, *hi),
        }
    }
}

/// The bitset of the ids at the positions `lo..hi` of `list`.
fn bitset_of(list: &Vec<u32>, lo: usize, hi: usize) -> (r: Bitset)
    requires
        lo <= hi <= list@.len(),
    ensures
        r.wf(),
        r@ == list@.subrange(lo as int, hi as int).to_set(),
{
    let mut bits = Bitset::new();
    let mut i: usize = lo;
    while i < hi
        invariant
            lo <= i <= hi <= list@.len(),
            bits.wf(),
            bits@ == list@.subrange(lo as int, i as int).to_set(),
        decreases hi - i,
    {
        bits.set(list[i]);
        proof {
            let part = list@.subrange(lo as int, i as int);
            assert(list@.subrange(lo as int, i + 1) == part.push(list@[i as int]));
            part.lemma_push_to_set_commute(list@[i as int]);
        }
        i += 1;
    }
    proof {
        if lo == hi {
            assert(list@.subrange(lo as int, lo as int).to_set() =~= Set::<u32>::empty());
        }
    }
    bits
}

} // verus!
