//! Evaluated query results and their sorted, paged materialization.

use crate::bitset::Bitset;
use crate::posting::{
    directed, lemma_ascending_unique, lemma_page_of_prefix, matches_in, page_of, strictly_ascending,
};
use vstd::prelude::*;

verus! {

/// The set of ids a query matched: a posting list of an index, or a bitset
/// that evaluation built.
pub enum EvalResult<'a> {
    Borrowed(&'a Bitset),
    Owned(Bitset),
}

impl<'a> View for EvalResult<'a> {
    type V = Set<u32>;

    /// The matched ids.
    open spec fn view(&self) -> Set<u32> {
        match self {
            EvalResult::Borrowed(b) => b@,
            EvalResult::Owned(b) => b@,
        }
    }
}

impl<'a> EvalResult<'a> {
    /// The invariant of the bitset behind the result.
    pub open spec fn wf(&self) -> bool {
        match self {
            EvalResult::Borrowed(b) => b.wf(),
            EvalResult::Owned(b) => b.wf(),
        }
    }

    /// The bitset behind the result.
    pub fn bits(&self) -> (b: &Bitset)
        ensures
            b@ == self@,
            b.wf() == self.wf(),
    {
        match self {
            EvalResult::Borrowed(b) => b,
            EvalResult::Owned(b) => b,
        }
    }

    /// The number of matched ids.
    pub fn matched(&self) -> (n: u64)
        requires
            self.wf(),
        ensures
            n == self@.len(),
    {
        self.bits().popcount()
    }

    /// Whether `id` matched.
    pub fn contains(&self, id: u32) -> (b: bool)
        ensures
            b == self@.contains(id),
    {
        self.bits().get(id)
    }

    /// One page of the matched ids in ascending order (descending if
    /// `reverse`): the matches after the first `offset` ones, at most
    /// `limit` of them.
    pub fn get(&self, offset: usize, limit: usize, reverse: bool) -> (r: Vec<u32>)
        requires
            self.wf(),
        ensures
            forall|ids: Seq<u32>|
                strictly_ascending(ids) && ids.to_set() == self@ ==> r@ == page_of(
                    #[trigger] directed(ids, reverse),
                    offset as nat,
                    limit as nat,
                ),
    {
        let ids = self.bits().iter();
        let r = self.get_sorted(&ids, offset, limit, reverse);
        proof {
            let set = self@;
            assert(ids@.to_set() =~= set);
            let dir = directed(ids@, reverse);
            assert(matches_in(dir, set) == dir) by {
                assert forall|k: int| 0 <= k < dir.len() implies set.contains(dir[k]) by {
                    if reverse {
                        assert(dir[k] == ids@[ids@.len() - 1 - k]);
                    }
                    assert(ids@.contains(dir[k]));
                }
                lemma_all_match(dir, set);
            }
            assert forall|other: Seq<u32>|
                strictly_ascending(other) && other.to_set() == self@ implies r@ == page_of(
                #[trigger] directed(other, reverse),
                offset as nat,
                limit as nat,
            ) by {
                lemma_ascending_unique(ids@, other);
            }
        }
        r
    }

    /// One page of the matched ids in the order that `order` gives them
    /// (back to front if `reverse`): the matches after the first `offset`
    /// ones, at most `limit` of them.
    pub fn get_sorted(&self, order: &Vec<u32>, offset: usize, limit: usize, reverse: bool) -> (r:
        Vec<u32>)
        ensures
            r@ == page_of(
                matches_in(directed(order@, reverse), self@),
                offset as nat,
                limit as nat,
            ),
    {
        let bits = self.bits();
        let n = order.len();
        let ghost dir = directed(order@, reverse);
        let ghost set = self@;
        let mut out: Vec<u32> = Vec::new();
        let mut skipped: usize = 0;
        let mut i: usize = 0;
        while i < n && out.len() < limit
            invariant
                i <= n,
                n == order@.len(),
                dir == directed(order@, reverse),
                dir.len() == n,
                set == bits@,
                skipped <= offset,
                skipped <= i,
                out@.len() <= limit,
                skipped + out@.len() == matches_in(dir.take(i as int), set).len(),
                skipped < offset ==> out@.len() == 0,
                out@ == page_of(matches_in(dir.take(i as int), set), offset as nat, limit as nat),
            decreases n - i,
        {
            let id = if reverse {
                order[n - 1 - i]
            } else {
                order[i]
            };
            proof {
                let head = dir.take(i as int);
                assert(dir[i as int] == id);
                assert(dir.take(i + 1) == head.push(id));
                head.lemma_filter_push(id, |x: u32| set.contains(x));
            }
            if bits.get(id) {
                if skipped < offset {
                    skipped += 1;
                } else {
                    out.push(id);
                }
            }
            i += 1;
        }
        proof {
            let head = dir.take(i as int);
            let tail = dir.skip(i as int);
            assert(dir == head + tail);
            Seq::filter_distributes_over_add(head, tail, |x: u32| set.contains(x));
            if i < n && limit == 0 {
                assert(page_of(matches_in(dir, set), offset as nat, 0) =~= Seq::<u32>::empty());
            } else if i < n {
                lemma_page_of_prefix(
                    matches_in(head, set),
                    matches_in(tail, set),
                    offset as nat,
                    limit as nat,
                );
            } else {
                assert(head == dir);
            }
        }
        out
    }
}

/// A list whose elements are all in the set is its own list of matches.
proof fn lemma_all_match(order: Seq<u32>, set: Set<u32>)
    requires
        forall|k: int| 0 <= k < order.len() ==> set.contains(order[k]),
    ensures
        matches_in(order, set) == order,
    decreases order.len(),
{
    reveal(Seq::filter);
    if order.len() > 0 {
        let rest = order.drop_last();
        assert forall|k: int| 0 <= k < rest.len() implies set.contains(rest[k]) by {
            assert(rest[k] == order[k]);
        }
        lemma_all_match(rest, set);
        assert(set.contains(order.last()));
        assert(rest.push(order.last()) == order);
    }
}

} // verus!
