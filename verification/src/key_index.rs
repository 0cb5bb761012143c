//! The equality index: for each key, the ids of the records that have it.

use crate::bitset::Bitset;
use crate::key::{Key, KeyModel, KeyTable};
use crate::posting::Queryable;
use vstd::prelude::*;

verus! {

/// The sizes of the sets of `ps`, added up.
pub open spec fn sum_of_sizes<A>(ps: Seq<Set<A>>) -> nat
    decreases ps.len(),
{
    if ps.len() == 0 {
        0
    } else {
        sum_of_sizes(ps.drop_last()) + ps.last().len()
    }
}

/// An index from keys to posting lists. A key has a posting list as long as
/// some id is filed under it.
pub struct KeyIndex {
    table: KeyTable,
    keys: Vec<Key>,
    postings: Vec<Bitset>,
}

impl KeyIndex {
    /// The keys that have a posting list, by slot.
    pub closed spec fn keys(&self) -> Seq<KeyModel> {
        Seq::new(self.keys@.len(), |i: int| self.keys@[i]@)
    }

    /// The posting lists, by slot.
    pub closed spec fn sets(&self) -> Seq<Set<u32>> {
        Seq::new(self.postings@.len(), |i: int| self.postings@[i]@)
    }

    /// The ids filed under `k`: none where the key has no posting list.
    pub closed spec fn posting(&self, k: KeyModel) -> Set<u32> {
        if self.table@.contains_key(k) {
            self.postings@[self.table@[k] as int]@
        } else {
            Set::empty()
        }
    }

    /// The representation invariant.
    pub closed spec fn wf(&self) -> bool {
        &&& self.keys@.len() == self.postings@.len()
        &&& forall|i: int|
            0 <= i < self.keys@.len() ==> self.table@.contains_key(#[trigger] self.keys@[i]@)
                && self.table@[self.keys@[i]@] == i
        &&& forall|k: KeyModel| #[trigger]
            self.table@.contains_key(k) ==> self.table@[k] < self.keys@.len()
                && self.keys@[self.table@[k] as int]@ == k
        &&& forall|i: int|
            0 <= i < self.postings@.len() ==> (#[trigger] self.postings@[i]).wf()
                && self.postings@[i]@ != Set::<u32>::empty()
    }

    /// How the slots relate to the posting lists.
    pub proof fn lemma_slots(&self)
        requires
            self.wf(),
        ensures
            self.keys().len() == self.sets().len(),
            self.keys().no_duplicates(),
            forall|i: int|
                0 <= i < self.keys().len() ==> self.posting(#[trigger] self.keys()[i])
                    == self.sets()[i],
            forall|i: int| 0 <= i < self.sets().len() ==> #[trigger] self.sets()[i].finite(),
            forall|k: KeyModel|
                self.keys().contains(k) <==> #[trigger] self.posting(k) != Set::<u32>::empty(),
    {
        assert forall|i: int| 0 <= i < self.sets().len() implies #[trigger] self.sets()[i].finite() by {
            self.postings@[i].lemma_view();
        }
        assert forall|k: KeyModel|
            self.keys().contains(k) <==> #[trigger] self.posting(k) != Set::<u32>::empty() by {
            if self.table@.contains_key(k) {
                let i = self.table@[k] as int;
                assert(self.keys()[i] == k);
                assert(self.postings@[i].wf());
            }
            if self.keys().contains(k) {
                let i = choose|i: int| 0 <= i < self.keys().len() && self.keys()[i] == k;
                assert(self.table@.contains_key(self.keys@[i]@));
                assert(self.postings@[i].wf());
            }
        }
        assert forall|i: int, j: int|
            0 <= i < self.keys().len() && 0 <= j < self.keys().len() && i != j implies self.keys()[i]
            != self.keys()[j] by {
            assert(self.table@[self.keys@[i]@] == i);
            assert(self.table@[self.keys@[j]@] == j);
        }
    }

    /// An index without keys.
    pub fn new() -> (r: KeyIndex)
        ensures
            r.wf(),
            forall|k: KeyModel| #[trigger] r.posting(k) == Set::<u32>::empty(),
            r.keys() == Seq::<KeyModel>::empty(),
    {
        let r = KeyIndex { table: KeyTable::new(), keys: Vec::new(), postings: Vec::new() };
        assert(r.keys() =~= Seq::<KeyModel>::empty());
        r
    }

    /// The number of keys that have a posting list.
    pub fn len(&self) -> (n: usize)
        requires
            self.wf(),
        ensures
            n == self.keys().len(),
    {
        self.keys.len()
    }

    /// The key in slot `i`.
    pub fn key_at(&self, i: usize) -> (k: &Key)
        requires
            self.wf(),
            i < self.keys().len(),
        ensures
            k@ == self.keys()[i as int],
    {
        &self.keys[i]
    }

    /// The posting list in slot `i`.
    pub fn posting_at(&self, i: usize) -> (q: Queryable<'_>)
        requires
            self.wf(),
            i < self.keys().len(),
        ensures
            q.wf(),
            q is Borrowed,
            q@ == self.sets()[i as int],
            q@ == self.posting(self.keys()[i as int]),
    {
        Queryable::Borrowed(&self.postings[i])
    }

    /// The posting list of `key`, if the key has one.
    pub fn get(&self, key: &Key) -> (r: Option<Queryable<'_>>)
        requires
            self.wf(),
        ensures
            match r {
                Some(q) => q.wf() && q is Borrowed && q@ == self.posting(key@) && q@
                    != Set::<u32>::empty(),
                None => self.posting(key@) == Set::<u32>::empty(),
            },
    {
        match self.table.get(key) {
            Some(slot) => Some(Queryable::Borrowed(&self.postings[slot])),
            None => None,
        }
    }

    /// How many ids are filed under `key`.
    pub fn count(&self, key: &Key) -> (n: u64)
        requires
            self.wf(),
        ensures
            n == self.posting(key@).len(),
    {
        match self.table.get(key) {
            Some(slot) => self.postings[slot].popcount(),
            None => 0,
        }
    }

    /// Files `id` under `key`.
    pub fn insert(&mut self, id: u32, key: &Key)
        requires
            old(self).wf(),
        ensures
            final(self).wf(),
            forall|k: KeyModel| #[trigger]
                final(self).posting(k) == if k == key@ {
                    old(self).posting(k).insert(id)
                } else {
                    old(self).posting(k)
                },
    {
        match self.table.get(key) {
            Some(slot) => {
                self.postings[slot].set(id);
                proof {
                    assert(self.postings@[slot as int]@.contains(id));
                    assert forall|i: int| 0 <= i < self.postings@.len() implies (
                    #[trigger] self.postings@[i]).wf() && self.postings@[i]@
                        != Set::<u32>::empty() by {
                        if i != slot {
                            assert(self.postings@[i] == old(self).postings@[i]);
                        }
                    }
                    assert forall|k: KeyModel| #[trigger]
                        self.posting(k) == if k == key@ {
                            old(self).posting(k).insert(id)
                        } else {
                            old(self).posting(k)
                        } by {
                        if self.table@.contains_key(k) && k != key@ {
                            assert(self.table@[k] != slot);
                        }
                    }
                }
            },
            None => {
                let slot = self.keys.len();
                let mut bits = Bitset::new();
                bits.set(id);
                self.table.set(key.duplicate(), slot);
                self.keys.push(key.duplicate());
                self.postings.push(bits);
                proof {
                    assert(bits@.contains(id));
                    assert(Set::<u32>::empty().insert(id) =~= bits@);
                    assert forall|i: int| 0 <= i < self.postings@.len() implies (
                    #[trigger] self.postings@[i]).wf() && self.postings@[i]@
                        != Set::<u32>::empty() by {
                        if i < slot {
                            assert(self.postings@[i] == old(self).postings@[i]);
                        }
                    }
                }
            },
        }
    }

    /// Takes `id` away from `key`; a key without ids loses its posting list.
    pub fn remove(&mut self, id: u32, key: &Key)
        requires
            old(self).wf(),
        ensures
            final(self).wf(),
            forall|k: KeyModel| #[trigger]
                final(self).posting(k) == if k == key@ {
                    old(self).posting(k).remove(id)
                } else {
                    old(self).posting(k)
                },
    {
        match self.table.get(key) {
            None => {
                assert(Set::<u32>::empty().remove(id) =~= Set::<u32>::empty());
            },
            Some(slot) => {
                self.postings[slot].clear(id);
                let ghost mid = *self;
                proof {
                    assert forall|k: KeyModel| #[trigger]
                        mid.posting(k) == if k == key@ {
                            old(self).posting(k).remove(id)
                        } else {
                            old(self).posting(k)
                        } by {
                        if self.table@.contains_key(k) && k != key@ {
                            assert(self.table@[k] != slot);
                        }
                    }
                    assert forall|i: int| 0 <= i < mid.postings@.len() && i != slot implies (
                    #[trigger] mid.postings@[i]) == old(self).postings@[i] by {}
                }
                if self.postings[slot].is_empty() {
                    let last = self.keys.len() - 1;
                    self.table.unset(key);
                    if slot != last {
                        let moved = self.keys[last].duplicate();
                        self.table.set(moved, slot);
                    }
                    self.keys.swap_remove(slot);
                    self.postings.swap_remove(slot);
                    proof {
                        assert forall|i: int| 0 <= i < self.keys@.len() implies self.table@.contains_key(#[trigger] self.keys@[i]@) && self.table@[self.keys@[i]@] == i by {
                            if i == slot {
                                assert(self.keys@[i] == mid.keys@[last as int]);
                                assert(mid.table@[mid.keys@[last as int]@] == last);
                            } else {
                                assert(self.keys@[i] == mid.keys@[i]);
                                assert(mid.table@[mid.keys@[i]@] == i);
                            }
                        }
                        assert forall|k: KeyModel| #[trigger]
                            self.table@.contains_key(k) implies self.table@[k]
                            < self.keys@.len() && self.keys@[self.table@[k] as int]@ == k by {
                            if slot != last && k == mid.keys@[last as int]@ {
                            } else {
                                assert(mid.table@.contains_key(k));
                                assert(mid.table@[k] != slot);
                                assert(mid.table@[k] != last);
                            }
                        }
                        assert forall|i: int| 0 <= i < self.postings@.len() implies (
                        #[trigger] self.postings@[i]).wf() && self.postings@[i]@
                            != Set::<u32>::empty() by {
                            if i == slot {
                                assert(self.postings@[i] == mid.postings@[last as int]);
                                assert(mid.postings@[last as int] == old(self).postings@[last as int]);
                            } else {
                                assert(self.postings@[i] == mid.postings@[i]);
                            }
                        }
                        assert forall|k: KeyModel| #[trigger]
                            self.posting(k) == mid.posting(k) by {
                            if k == key@ {
                            } else if mid.table@.contains_key(k) {
                                let s = mid.table@[k];
                                assert(s != slot);
                                if s == last {
                                    assert(mid.keys@[last as int]@ == k);
                                }
                            }
                        }
                    }
                } else {
                    proof {
                        assert forall|i: int| 0 <= i < self.postings@.len() implies (
                        #[trigger] self.postings@[i]).wf() && self.postings@[i]@
                            != Set::<u32>::empty() by {
                            if i != slot {
                                assert(self.postings@[i] == old(self).postings@[i]);
                            }
                        }
                    }
                }
            },
        }
    }

    /// Moves `id` from `old_key` to `new_key`; nothing happens where the two
    /// are the same key.
    pub fn update(&mut self, id: u32, old_key: &Key, new_key: &Key)
        requires
            old(self).wf(),
        ensures
            final(self).wf(),
            old_key@ == new_key@ ==> forall|k: KeyModel| #[trigger]
                final(self).posting(k) == old(self).posting(k),
            old_key@ != new_key@ ==> forall|k: KeyModel| #[trigger]
                final(self).posting(k) == if k == new_key@ {
                    old(self).posting(k).insert(id)
                } else if k == old_key@ {
                    old(self).posting(k).remove(id)
                } else {
                    old(self).posting(k)
                },
    {
        if !old_key.same(new_key) {
            self.remove(id, old_key);
            self.insert(id, new_key);
        }
    }

    /// The number of filings: the sizes of all posting lists, added up, or
    /// the largest number where the sum is beyond it.
    pub fn total(&self) -> (n: u64)
        requires
            self.wf(),
        ensures
            n == if sum_of_sizes(self.sets()) <= u64::MAX {
                sum_of_sizes(self.sets())
            } else {
                u64::MAX as nat
            },
    {
        let mut n: u64 = 0;
        let mut i: usize = 0;
        while i < self.postings.len()
            invariant
                self.wf(),
                i <= self.postings@.len(),
                n == if sum_of_sizes(self.sets().take(i as int)) <= u64::MAX {
                    sum_of_sizes(self.sets().take(i as int))
                } else {
                    u64::MAX as nat
                },
            decreases self.postings@.len() - i,
        {
            let c = self.postings[i].popcount();
            proof {
                let sets = self.sets();
                assert(sets.take(i + 1).drop_last() == sets.take(i as int));
                assert(sets.take(i + 1).last() == self.postings@[i as int]@);
            }
            n = match n.checked_add(c) {
                Some(v) => v,
                None => u64::MAX,
            };
            i += 1;
        }
        assert(self.sets().take(i as int) == self.sets());
        n
    }
}

/// What one of the sets of `ps` holds.
pub open spec fn union_of<A>(ps: Seq<Set<A>>) -> Set<A>
    decreases ps.len(),
{
    if ps.len() == 0 {
        Set::empty()
    } else {
        union_of(ps.drop_last()).union(ps.last())
    }
}

/// The sizes of finite sets that share nothing add up to the size of their union.
pub proof fn lemma_disjoint_sum<A>(ps: Seq<Set<A>>)
    requires
        forall|i: int| 0 <= i < ps.len() ==> (#[trigger] ps[i]).finite(),
        forall|i: int, j: int| 0 <= i < j < ps.len() ==> (#[trigger] ps[i]).disjoint(#[trigger] ps[j]),
    ensures
        union_of(ps).finite(),
        union_of(ps).len() == sum_of_sizes(ps),
        forall|x: A|
            union_of(ps).contains(x) <==> exists|i: int| 0 <= i < ps.len() && (#[trigger] ps[i]).contains(x),
    decreases ps.len(),
{
    if ps.len() > 0 {
        let rest = ps.drop_last();
        let last = ps.last();
        assert forall|i: int| 0 <= i < rest.len() implies (#[trigger] rest[i]).finite() by {
            assert(rest[i] == ps[i]);
        }
        assert forall|i: int, j: int| 0 <= i < j < rest.len() implies (#[trigger] rest[i]).disjoint(
            #[trigger] rest[j],
        ) by {
            assert(rest[i] == ps[i] && rest[j] == ps[j]);
        }
        lemma_disjoint_sum(rest);
        assert forall|x: A|
            union_of(ps).contains(x) <==> exists|i: int|
                0 <= i < ps.len() && (#[trigger] ps[i]).contains(x) by {
            if union_of(rest).contains(x) {
                let i = choose|i: int| 0 <= i < rest.len() && (#[trigger] rest[i]).contains(x);
                assert(ps[i].contains(x));
            }
            if last.contains(x) {
                assert(ps[ps.len() - 1].contains(x));
            }
            if exists|i: int| 0 <= i < ps.len() && (#[trigger] ps[i]).contains(x) {
                let i = choose|i: int| 0 <= i < ps.len() && (#[trigger] ps[i]).contains(x);
                if i < rest.len() {
                    assert(rest[i].contains(x));
                }
            }
        }
        assert(union_of(rest).disjoint(last)) by {
            assert forall|x: A| !(union_of(rest).contains(x) && last.contains(x)) by {
                if union_of(rest).contains(x) && last.contains(x) {
                    let i = choose|i: int| 0 <= i < rest.len() && (#[trigger] rest[i]).contains(x);
                    assert(ps[i].disjoint(ps[ps.len() - 1]));
                    assert(ps[i].contains(x));
                }
            }
        }
        vstd::set_lib::lemma_set_disjoint_lens(union_of(rest), last);
    }
}

impl KeyIndex {
    /// Where every id of `all`, and no other, is filed under exactly one
    /// key, the sizes of the posting lists add up to the size of `all`.
    pub proof fn lemma_total(&self, all: Set<u32>)
        requires
            self.wf(),
            forall|id: u32|
                all.contains(id) <==> exists|k: KeyModel| (#[trigger] self.posting(k)).contains(id),
            forall|a: KeyModel, b: KeyModel|
                a != b ==> (#[trigger] self.posting(a)).disjoint(#[trigger] self.posting(b)),
        ensures
            all.finite(),
            sum_of_sizes(self.sets()) == all.len(),
    {
        self.lemma_slots();
        let ps = self.sets();
        let ks = self.keys();
        assert forall|i: int, j: int| 0 <= i < j < ps.len() implies (#[trigger] ps[i]).disjoint(
            #[trigger] ps[j],
        ) by {
            assert(self.posting(ks[i]) == ps[i]);
            assert(self.posting(ks[j]) == ps[j]);
            assert(ks[i] != ks[j]);
        }
        lemma_disjoint_sum(ps);
        assert forall|id: u32| all.contains(id) <==> union_of(ps).contains(id) by {
            if all.contains(id) {
                let k = choose|k: KeyModel| (#[trigger] self.posting(k)).contains(id);
                assert(self.posting(k) != Set::<u32>::empty());
                assert(ks.contains(k));
                let i = choose|i: int| 0 <= i < ks.len() && ks[i] == k;
                assert(self.posting(ks[i]) == ps[i]);
                assert(ps[i].contains(id));
            }
            if union_of(ps).contains(id) {
                let i = choose|i: int| 0 <= i < ps.len() && (#[trigger] ps[i]).contains(id);
                assert(self.posting(ks[i]) == ps[i]);
            }
        }
        assert(all =~= union_of(ps));
    }
}

/// What the keys of `keys` stand for.
pub open spec fn key_models(keys: Seq<Key>) -> Seq<KeyModel> {
    Seq::new(keys.len(), |i: int| keys[i]@)
}

/// An index in which a record may have several keys.
pub type KeysIndex = KeyIndex;

impl KeyIndex {
    /// Whether one of `keys` stands for what `key` stands for.
    fn has_key(keys: &Vec<Key>, key: &Key) -> (b: bool)
        ensures
            b == key_models(keys@).contains(key@),
    {
        let mut i: usize = 0;
        while i < keys.len()
            invariant
                i <= keys@.len(),
                forall|j: int| 0 <= j < i ==> key_models(keys@)[j] != key@,
            decreases keys@.len() - i,
        {
            if keys[i].same(key) {
                assert(key_models(keys@)[i as int] == key@);
                return true;
            }
            i += 1;
        }
        false
    }

    /// Files `id` under each of `keys`.
    pub fn insert_all(&mut self, id: u32, keys: &Vec<Key>)
        requires
            old(self).wf(),
        ensures
            final(self).wf(),
            forall|k: KeyModel| #[trigger]
                final(self).posting(k) == if key_models(keys@).contains(k) {
                    old(self).posting(k).insert(id)
                } else {
                    old(self).posting(k)
                },
    {
        let ghost models = key_models(keys@);
        let mut i: usize = 0;
        while i < keys.len()
            invariant
                i <= keys@.len(),
                models == key_models(keys@),
                self.wf(),
                forall|k: KeyModel| #[trigger]
                    self.posting(k) == if models.take(i as int).contains(k) {
                        old(self).posting(k).insert(id)
                    } else {
                        old(self).posting(k)
                    },
            decreases keys@.len() - i,
        {
            let ghost before = *self;
            self.insert(id, &keys[i]);
            proof {
                let head = models.take(i as int);
                let next = models.take(i + 1);
                assert(next == head.push(models[i as int]));
                assert(models[i as int] == keys@[i as int]@);
                assert forall|k: KeyModel| #[trigger]
                    self.posting(k) == if next.contains(k) {
                        old(self).posting(k).insert(id)
                    } else {
                        old(self).posting(k)
                    } by {
                    if head.contains(k) {
                        let j = choose|j: int| 0 <= j < head.len() && head[j] == k;
                        assert(next[j] == k);
                    }
                    if k == models[i as int] {
                        assert(next[i as int] == k);
                    }
                    if next.contains(k) && k != models[i as int] {
                        let j = choose|j: int| 0 <= j < next.len() && next[j] == k;
                        assert(head[j] == k);
                    }
                    assert(before.posting(k).insert(id).insert(id) == before.posting(k).insert(id));
                }
            }
            i += 1;
        }
        assert(models.take(i as int) == models);
    }

    /// Takes `id` away from each of `keys`.
    pub fn remove_all(&mut self, id: u32, keys: &Vec<Key>)
        requires
            old(self).wf(),
        ensures
            final(self).wf(),
            forall|k: KeyModel| #[trigger]
                final(self).posting(k) == if key_models(keys@).contains(k) {
                    old(self).posting(k).remove(id)
                } else {
                    old(self).posting(k)
                },
    {
        let ghost models = key_models(keys@);
        let mut i: usize = 0;
        while i < keys.len()
            invariant
                i <= keys@.len(),
                models == key_models(keys@),
                self.wf(),
                forall|k: KeyModel| #[trigger]
                    self.posting(k) == if models.take(i as int).contains(k) {
                        old(self).posting(k).remove(id)
                    } else {
                        old(self).posting(k)
                    },
            decreases keys@.len() - i,
        {
            let ghost before = *self;
            self.remove(id, &keys[i]);
            proof {
                let head = models.take(i as int);
                let next = models.take(i + 1);
                assert(next == head.push(models[i as int]));
                assert(models[i as int] == keys@[i as int]@);
                assert forall|k: KeyModel| #[trigger]
                    self.posting(k) == if next.contains(k) {
                        old(self).posting(k).remove(id)
                    } else {
                        old(self).posting(k)
                    } by {
                    if head.contains(k) {
                        let j = choose|j: int| 0 <= j < head.len() && head[j] == k;
                        assert(next[j] == k);
                    }
                    if k == models[i as int] {
                        assert(next[i as int] == k);
                    }
                    if next.contains(k) && k != models[i as int] {
                        let j = choose|j: int| 0 <= j < next.len() && next[j] == k;
                        assert(head[j] == k);
                    }
                    assert(before.posting(k).remove(id).remove(id) == before.posting(k).remove(id));
                }
            }
            i += 1;
        }
        assert(models.take(i as int) == models);
    }

    /// Moves `id` from the keys `old_keys` to the keys `new_keys`: away from
    /// the old keys that are not among the new ones, and under the new ones.
    pub fn update_all(&mut self, id: u32, old_keys: &Vec<Key>, new_keys: &Vec<Key>)
        requires
            old(self).wf(),
        ensures
            final(self).wf(),
            forall|k: KeyModel| #[trigger]
                final(self).posting(k) == if key_models(new_keys@).contains(k) {
                    old(self).posting(k).insert(id)
                } else if key_models(old_keys@).contains(k) {
                    old(self).posting(k).remove(id)
                } else {
                    old(self).posting(k)
                },
    {
        let ghost was = key_models(old_keys@);
        let ghost now = key_models(new_keys@);
        let mut i: usize = 0;
        while i < old_keys.len()
            invariant
                i <= old_keys@.len(),
                was == key_models(old_keys@),
                now == key_models(new_keys@),
                self.wf(),
                forall|k: KeyModel| #[trigger]
                    self.posting(k) == if was.take(i as int).contains(k) && !now.contains(k) {
                        old(self).posting(k).remove(id)
                    } else {
                        old(self).posting(k)
                    },
            decreases old_keys@.len() - i,
        {
            let ghost before = *self;
            let kept = Self::has_key(new_keys, &old_keys[i]);
            if !kept {
                self.remove(id, &old_keys[i]);
            }
            proof {
                let head = was.take(i as int);
                let next = was.take(i + 1);
                assert(next == head.push(was[i as int]));
                assert(was[i as int] == old_keys@[i as int]@);
                assert forall|k: KeyModel| #[trigger]
                    self.posting(k) == if next.contains(k) && !now.contains(k) {
                        old(self).posting(k).remove(id)
                    } else {
                        old(self).posting(k)
                    } by {
                    if head.contains(k) {
                        let j = choose|j: int| 0 <= j < head.len() && head[j] == k;
                        assert(next[j] == k);
                    }
                    if k == was[i as int] {
                        assert(next[i as int] == k);
                    }
                    if next.contains(k) && k != was[i as int] {
                        let j = choose|j: int| 0 <= j < next.len() && next[j] == k;
                        assert(head[j] == k);
                    }
                    assert(before.posting(k).remove(id).remove(id) == before.posting(k).remove(id));
                }
            }
            i += 1;
        }
        assert(was.take(i as int) == was);
        let ghost mid = *self;
        self.insert_all(id, new_keys);
        proof {
            assert forall|k: KeyModel| #[trigger]
                self.posting(k) == if now.contains(k) {
                    old(self).posting(k).insert(id)
                } else if was.contains(k) {
                    old(self).posting(k).remove(id)
                } else {
                    old(self).posting(k)
                } by {
                assert(mid.posting(k) == if was.contains(k) && !now.contains(k) {
                    old(self).posting(k).remove(id)
                } else {
                    old(self).posting(k)
                });
            }
        }
    }
}

} // verus!
