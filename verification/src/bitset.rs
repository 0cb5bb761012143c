//! Packed sets of dense record ids.
//!
//! Word `k`, bit `b` of a [`Bitset`] stands for the id `64 * k + b`.

use vstd::prelude::*;

verus! {

/// Largest number of words a bitset holds: enough for every `u32` id.
pub const MAX_WORDS: usize = 0x400_0000;

/// Whether bit `b` of `w` is set.
pub open spec fn bit_of(w: u64, b: u64) -> bool {
    (w >> b) & 1 == 1
}

/// How many of the low `n` bits of `w` are set.
pub open spec fn bit_count(w: u64, n: nat) -> nat
    decreases n,
{
    if n == 0 {
        0
    } else {
        bit_count(w, (n - 1) as nat) + if bit_of(w, (n - 1) as u64) {
            1nat
        } else {
            0nat
        }
    }
}

/// Whether the id at bit position `pos` is present in `words`.
pub open spec fn word_has(words: Seq<u64>, pos: int) -> bool {
    0 <= pos / 64 < words.len() && bit_of(words[pos / 64], (pos % 64) as u64)
}

/// The ids below `n` that `words` holds.
pub open spec fn ids_below(words: Seq<u64>, n: int) -> Set<u32> {
    Set::new(|id: u32| id < n && word_has(words, id as int))
}

/// How many bit positions below `n` are set in `words`.
pub open spec fn ones_below(words: Seq<u64>, n: nat) -> nat
    decreases n,
{
    if n == 0 {
        0
    } else {
        ones_below(words, (n - 1) as nat) + if word_has(words, n - 1) {
            1nat
        } else {
            0nat
        }
    }
}

proof fn lemma_bit_set(w: u64, b: u64)
    by (bit_vector)
    requires
        b < 64,
    ensures
        forall|j: u64| j < 64 ==> (#[trigger] bit_of(w | (1u64 << b), j) == (bit_of(w, j) || j == b)),
{
}

proof fn lemma_bit_clear(w: u64, b: u64)
    by (bit_vector)
    requires
        b < 64,
    ensures
        forall|j: u64|
            j < 64 ==> (#[trigger] bit_of(w & !(1u64 << b), j) == (bit_of(w, j) && j != b)),
{
}

proof fn lemma_bit_and(a: u64, b: u64)
    by (bit_vector)
    ensures
        forall|j: u64| j < 64 ==> (#[trigger] bit_of(a & b, j) == (bit_of(a, j) && bit_of(b, j))),
{
}

proof fn lemma_bit_or(a: u64, b: u64)
    by (bit_vector)
    ensures
        forall|j: u64| j < 64 ==> (#[trigger] bit_of(a | b, j) == (bit_of(a, j) || bit_of(b, j))),
{
}

proof fn lemma_bit_and_not(a: u64, b: u64)
    by (bit_vector)
    ensures
        forall|j: u64| j < 64 ==> (#[trigger] bit_of(a & !b, j) == (bit_of(a, j) && !bit_of(b, j))),
{
}

proof fn lemma_bit_not(a: u64)
    by (bit_vector)
    ensures
        forall|j: u64| j < 64 ==> (#[trigger] bit_of(!a, j) == !bit_of(a, j)),
{
}

proof fn lemma_bit_zero()
    by (bit_vector)
    ensures
        forall|j: u64| j < 64 ==> !(#[trigger] bit_of(0u64, j)),
{
}

proof fn lemma_bit_low_mask(k: u64)
    by (bit_vector)
    requires
        k < 64,
    ensures
        forall|j: u64| j < 64 ==> (#[trigger] bit_of(((1u64 << k) - 1) as u64, j) == (j < k)),
{
}

proof fn lemma_ones_below_split(words: Seq<u64>, k: nat, j: nat)
    requires
        k < words.len(),
        j <= 64,
    ensures
        ones_below(words, 64 * k + j) == ones_below(words, 64 * k) + bit_count(words[k as int], j),
    decreases j,
{
    if j > 0 {
        lemma_ones_below_split(words, k, (j - 1) as nat);
        let pos = (64 * k + j - 1) as int;
        assert(pos / 64 == k && pos % 64 == j - 1);
    }
}

proof fn lemma_ids_below_count(words: Seq<u64>, n: nat)
    requires
        n <= 0x1_0000_0000,
    ensures
        ids_below(words, n as int).finite(),
        ids_below(words, n as int).len() == ones_below(words, n),
    decreases n,
{
    if n == 0 {
        assert(ids_below(words, 0) =~= Set::<u32>::empty());
    } else {
        lemma_ids_below_count(words, (n - 1) as nat);
        let prev = ids_below(words, n - 1);
        let last = (n - 1) as u32;
        if word_has(words, n - 1) {
            assert(ids_below(words, n as int) =~= prev.insert(last));
        } else {
            assert(ids_below(words, n as int) =~= prev);
        }
    }
}

proof fn lemma_ones_below_past_end(words: Seq<u64>, n: nat)
    requires
        n >= 64 * words.len(),
    ensures
        ones_below(words, n) == ones_below(words, 64 * words.len()),
    decreases n,
{
    if n > 64 * words.len() {
        lemma_ones_below_past_end(words, (n - 1) as nat);
        assert((n - 1) / 64 >= words.len());
    }
}

/// Where no bit of `w` is set at `b` or above, the bits below `b` are all
/// that are set.
proof fn lemma_bit_count_rest(w: u64, b: u64, n: nat)
    requires
        b <= n <= 64,
        b < 64,
        w >> b == 0,
    ensures
        bit_count(w, n) == bit_count(w, b as nat),
    decreases n,
{
    if n > b {
        let j = (n - 1) as u64;
        assert(!bit_of(w, j)) by (bit_vector)
            requires
                w >> b == 0,
                b <= j < 64,
        ;
        lemma_bit_count_rest(w, b, (n - 1) as nat);
    }
}

/// The number of bits that are set in `w`.
pub fn count_ones(w: u64) -> (n: u32)
    ensures
        n == bit_count(w, 64),
{
    let mut n: u32 = 0;
    let mut b: u64 = 0;
    while b < 64 && w >> b != 0
        invariant
            b <= 64,
            n == bit_count(w, b as nat),
            n <= b,
        decreases 64 - b,
    {
        if (w >> b) & 1 == 1 {
            n = n + 1;
        }
        b = b + 1;
    }
    proof {
        if b < 64 {
            lemma_bit_count_rest(w, b, 64);
        }
    }
    n
}

/// A set of record ids, packed 64 to a word.
pub struct Bitset {
    words: Vec<u64>,
}

impl View for Bitset {
    type V = Set<u32>;

    /// The ids the set holds.
    closed spec fn view(&self) -> Set<u32> {
        ids_below(self.words@, 0x1_0000_0000)
    }
}

impl Bitset {
    /// The raw words, lowest ids first.
    pub closed spec fn words(&self) -> Seq<u64> {
        self.words@
    }

    /// The representation invariant: no more words than `u32` ids need.
    pub closed spec fn wf(&self) -> bool {
        self.words@.len() <= MAX_WORDS
    }

    /// Membership in terms of the raw words.
    pub proof fn lemma_view(&self)
        ensures
            forall|id: u32| #[trigger] self@.contains(id) <==> word_has(self.words(), id as int),
            self.wf() ==> self@.finite(),
            self.wf() ==> self.words().len() <= MAX_WORDS,
    {
        if self.wf() {
            lemma_ids_below_count(self.words@, 0x1_0000_0000);
        }
    }

    /// An empty set.
    pub fn new() -> (r: Bitset)
        ensures
            r.wf(),
            r@ == Set::<u32>::empty(),
            r.words() == Seq::<u64>::empty(),
    {
        let r = Bitset { words: Vec::new() };
        assert(r@ =~= Set::<u32>::empty());
        r
    }

    /// Whether `id` is in the set.
    pub fn get(&self, id: u32) -> (b: bool)
        ensures
            b == self@.contains(id),
    {
        let k = (id / 64) as usize;
        if k < self.words.len() {
            (self.words[k] >> ((id % 64) as u64)) & 1 == 1
        } else {
            false
        }
    }

    /// Adds `id` to the set, growing it as needed.
    pub fn set(&mut self, id: u32)
        requires
            old(self).wf(),
        ensures
            final(self).wf(),
            final(self)@ == old(self)@.insert(id),
    {
        let k = (id / 64) as usize;
        while self.words.len() <= k
            invariant
                self.words@.len() <= MAX_WORDS,
                k < MAX_WORDS,
                self.words@.len() >= old(self).words@.len(),
                forall|i: int| 0 <= i < old(self).words@.len() ==> self.words@[i] == old(self).words@[i],
                forall|i: int| old(self).words@.len() <= i < self.words@.len() ==> self.words@[i] == 0,
            decreases k + 1 - self.words@.len(),
        {
            self.words.push(0);
        }
        let ghost mid = self.words@;
        let b = (id % 64) as u64;
        let w = self.words[k];
        self.words[k] = w | (1u64 << b);
        proof {
            lemma_bit_set(w, b);
            lemma_bit_zero();
            assert forall|x: u32| #[trigger] final(self)@.contains(x) == old(self)@.insert(id).contains(x) by {
                let kx = x as int / 64;
                let bx = (x % 64) as u64;
                if x == id {
                } else if kx == k {
                    assert(bx != b);
                } else {
                }
            }
            assert(final(self)@ =~= old(self)@.insert(id));
        }
    }

    /// Removes `id` from the set.
    pub fn clear(&mut self, id: u32)
        requires
            old(self).wf(),
        ensures
            final(self).wf(),
            final(self)@ == old(self)@.remove(id),
    {
        let k = (id / 64) as usize;
        if k < self.words.len() {
            let b = (id % 64) as u64;
            let w = self.words[k];
            self.words[k] = w & !(1u64 << b);
            proof {
                lemma_bit_clear(w, b);
                assert forall|x: u32| #[trigger] final(self)@.contains(x) == old(self)@.remove(id).contains(x) by {
                    let kx = x as int / 64;
                    let bx = (x % 64) as u64;
                    if x == id {
                    } else if kx == k {
                        assert(bx != b);
                    } else {
                    }
                }
            }
        }
        assert(final(self)@ =~= old(self)@.remove(id));
    }

    /// The ids in `self` or in `other`.
    pub fn union(&self, other: &Bitset) -> (r: Bitset)
        requires
            self.wf(),
            other.wf(),
        ensures
            r.wf(),
            r@ == self@.union(other@),
    {
        let n = if self.words.len() >= other.words.len() {
            self.words.len()
        } else {
            other.words.len()
        };
        let mut words: Vec<u64> = Vec::new();
        let mut k: usize = 0;
        while k < n
            invariant
                k <= n,
                n <= MAX_WORDS,
                n >= self.words@.len(),
                n >= other.words@.len(),
                words@.len() == k,
                forall|i: int, j: u64|
                    0 <= i < k && j < 64 ==> (#[trigger] bit_of(words@[i], j) == (word_has(
                        self.words@,
                        64 * i + j,
                    ) || word_has(other.words@, 64 * i + j))),
            decreases n - k,
        {
            let a = if k < self.words.len() {
                self.words[k]
            } else {
                0
            };
            let b = if k < other.words.len() {
                other.words[k]
            } else {
                0
            };
            proof {
                lemma_bit_or(a, b);
                lemma_bit_zero();
                assert forall|j: u64| j < 64 implies (#[trigger] bit_of(a | b, j) == (word_has(
                    self.words@,
                    64 * k + j,
                ) || word_has(other.words@, 64 * k + j))) by {
                    assert((64 * k + j) / 64 == k as int && (64 * k + j) % 64 == j as int);
                }
            }
            words.push(a | b);
            k += 1;
        }
        let r = Bitset { words };
        proof {
            assert forall|x: u32| #[trigger] r@.contains(x) == self@.union(other@).contains(x) by {
                let kx = x as int / 64;
                let bx = (x % 64) as u64;
                assert(64 * kx + bx == x as int);
                if kx < n {
                    assert(bit_of(r.words@[kx], bx) == (word_has(self.words@, 64 * kx + bx)
                        || word_has(other.words@, 64 * kx + bx)));
                }
            }
            assert(r@ =~= self@.union(other@));
        }
        r
    }

    /// The ids in both `self` and `other`.
    pub fn intersect(&self, other: &Bitset) -> (r: Bitset)
        requires
            self.wf(),
            other.wf(),
        ensures
            r.wf(),
            r@ == self@.intersect(other@),
    {
        let n = if self.words.len() <= other.words.len() {
            self.words.len()
        } else {
            other.words.len()
        };
        let mut words: Vec<u64> = Vec::new();
        let mut k: usize = 0;
        while k < n
            invariant
                k <= n,
                n <= MAX_WORDS,
                n <= self.words@.len(),
                n <= other.words@.len(),
                words@.len() == k,
                forall|i: int| 0 <= i < k ==> #[trigger] words@[i] == self.words@[i] & other.words@[i],
            decreases n - k,
        {
            words.push(self.words[k] & other.words[k]);
            k += 1;
        }
        let r = Bitset { words };
        proof {
            assert forall|x: u32| #[trigger] r@.contains(x) == self@.intersect(other@).contains(x) by {
                let kx = x as int / 64;
                if kx < n {
                    lemma_bit_and(self.words@[kx], other.words@[kx]);
                }
            }
            assert(r@ =~= self@.intersect(other@));
        }
        r
    }

    /// The ids in `self` that are not in `other`.
    pub fn difference(&self, other: &Bitset) -> (r: Bitset)
        requires
            self.wf(),
            other.wf(),
        ensures
            r.wf(),
            r@ == self@.difference(other@),
    {
        let n = self.words.len();
        let mut words: Vec<u64> = Vec::new();
        let mut k: usize = 0;
        while k < n
            invariant
                k <= n,
                n == self.words@.len(),
                words@.len() == k,
                forall|i: int|
                    0 <= i < k ==> #[trigger] words@[i] == if i < other.words@.len() {
                        self.words@[i] & !other.words@[i]
                    } else {
                        self.words@[i]
                    },
            decreases n - k,
        {
            let a = self.words[k];
            if k < other.words.len() {
                words.push(a & !other.words[k]);
            } else {
                words.push(a);
            }
            k += 1;
        }
        let r = Bitset { words };
        proof {
            assert forall|x: u32| #[trigger] r@.contains(x) == self@.difference(other@).contains(x) by {
                let kx = x as int / 64;
                if kx < n && kx < other.words@.len() {
                    lemma_bit_and_not(self.words@[kx], other.words@[kx]);
                }
            }
            assert(r@ =~= self@.difference(other@));
        }
        r
    }

    /// The ids below `n` that are not in `self`.
    pub fn complement_within(&self, n: u32) -> (r: Bitset)
        requires
            self.wf(),
        ensures
            r.wf(),
            r@ == Set::new(|id: u32| id < n && !self@.contains(id)),
    {
        let full = (n / 64) as usize;
        let rest = (n % 64) as u64;
        let mut words: Vec<u64> = Vec::new();
        let mut k: usize = 0;
        while k < full
            invariant
                k <= full,
                full < MAX_WORDS,
                words@.len() == k,
                forall|i: int|
                    0 <= i < k ==> #[trigger] words@[i] == if i < self.words@.len() {
                        !self.words@[i]
                    } else {
                        !0u64
                    },
            decreases full - k,
        {
            if k < self.words.len() {
                words.push(!self.words[k]);
            } else {
                words.push(!0u64);
            }
            k += 1;
        }
        let ghost last = 0u64;
        if rest != 0 {
            let a = if full < self.words.len() {
                self.words[full]
            } else {
                0
            };
            proof {
                last = a;
                assert(1u64 << rest >= 1) by (bit_vector)
                    requires
                        rest < 64,
                ;
            }
            let mask = (1u64 << rest) - 1;
            words.push(mask & !a);
        }
        let r = Bitset { words };
        proof {
            lemma_bit_zero();
            assert forall|x: u32| #[trigger]
                r@.contains(x) == (x < n && !self@.contains(x)) by {
                let kx = x as int / 64;
                let bx = (x % 64) as u64;
                if kx < full {
                    if kx < self.words@.len() {
                        lemma_bit_not(self.words@[kx]);
                    } else {
                        lemma_bit_not(0u64);
                    }
                } else if kx == full && rest != 0 {
                    lemma_bit_low_mask(rest);
                    lemma_bit_and_not(((1u64 << rest) - 1) as u64, last);
                } else {
                }
            }
            assert(r@ =~= Set::new(|id: u32| id < n && !self@.contains(id)));
        }
        r
    }

    /// The number of ids in the set.
    pub fn popcount(&self) -> (n: u64)
        requires
            self.wf(),
        ensures
            n == self@.len(),
    {
        let mut total: u64 = 0;
        let mut k: usize = 0;
        while k < self.words.len()
            invariant
                k <= self.words@.len(),
                self.words@.len() <= MAX_WORDS,
                total == ones_below(self.words@, (64 * k) as nat),
                total <= 64 * k,
            decreases self.words@.len() - k,
        {
            let c = count_ones(self.words[k]);
            proof {
                lemma_ones_below_split(self.words@, k as nat, 64);
                lemma_bit_count_bound(self.words@[k as int], 64);
            }
            total = total + c as u64;
            k += 1;
        }
        proof {
            lemma_ones_below_past_end(self.words@, 0x1_0000_0000);
            lemma_ids_below_count(self.words@, 0x1_0000_0000);
        }
        total
    }

    /// Whether the set holds no id.
    pub fn is_empty(&self) -> (b: bool)
        requires
            self.wf(),
        ensures
            b == (self@ == Set::<u32>::empty()),
    {
        let mut k: usize = 0;
        while k < self.words.len()
            invariant
                k <= self.words@.len(),
                self.words@.len() <= MAX_WORDS,
                forall|i: int| 0 <= i < k ==> self.words@[i] == 0,
            decreases self.words@.len() - k,
        {
            let w = self.words[k];
            if w != 0 {
                proof {
                    vstd::std_specs::bits::axiom_u64_trailing_zeros(w);
                    let tz = vstd::std_specs::bits::u64_trailing_zeros(w);
                    let id = (64 * k + tz) as u32;
                    assert(id as int / 64 == k && id % 64 == tz);
                    assert(self@.contains(id));
                }
                return false;
            }
            k += 1;
        }
        proof {
            lemma_bit_zero();
            assert(self@ =~= Set::<u32>::empty());
        }
        true
    }

    /// The lowest id of the set, if it holds one.
    pub fn first(&self) -> (r: Option<u32>)
        requires
            self.wf(),
        ensures
            match r {
                Some(id) => self@.contains(id) && forall|x: u32| x < id ==> !self@.contains(x),
                None => self@ == Set::<u32>::empty(),
            },
    {
        let mut k: usize = 0;
        while k < self.words.len()
            invariant
                k <= self.words@.len(),
                self.words@.len() <= MAX_WORDS,
                forall|i: int| 0 <= i < k ==> self.words@[i] == 0,
            decreases self.words@.len() - k,
        {
            let w = self.words[k];
            if w != 0 {
                let tz = w.trailing_zeros();
                proof {
                    vstd::std_specs::bits::axiom_u64_trailing_zeros(w);
                    lemma_bit_zero();
                }
                let id = (k as u32) * 64 + tz;
                proof {
                    assert(id as int / 64 == k && id % 64 == tz);
                    assert(bit_of(w, tz as u64));
                    assert forall|x: u32| x < id implies !self@.contains(x) by {
                        let kx = x as int / 64;
                        let bx = (x % 64) as u64;
                        if kx == k {
                            assert(bx < tz);
                            assert((w >> bx) & 1u64 == 0u64);
                        }
                    }
                }
                return Some(id);
            }
            k += 1;
        }
        proof {
            lemma_bit_zero();
            assert(self@ =~= Set::<u32>::empty());
        }
        None
    }

    /// The ids of the set in ascending order.
    pub fn iter(&self) -> (ids: Vec<u32>)
        requires
            self.wf(),
        ensures
            forall|i: int, j: int| 0 <= i < j < ids@.len() ==> ids@[i] < ids@[j],
            forall|id: u32| ids@.contains(id) <==> self@.contains(id),
    {
        let mut ids: Vec<u32> = Vec::new();
        let mut k: usize = 0;
        while k < self.words.len()
            invariant
                k <= self.words@.len(),
                self.words@.len() <= MAX_WORDS,
                forall|i: int, j: int| 0 <= i < j < ids@.len() ==> ids@[i] < ids@[j],
                forall|i: int| 0 <= i < ids@.len() ==> (#[trigger] ids@[i]) < 64 * k,
                forall|id: u32| ids@.contains(id) <==> (id < 64 * k && self@.contains(id)),
            decreases self.words@.len() - k,
        {
            let w = self.words[k];
            let mut b: u32 = 0;
            while b < 64
                invariant
                    b <= 64,
                    k < self.words@.len(),
                    self.words@.len() <= MAX_WORDS,
                    w == self.words@[k as int],
                    forall|i: int, j: int| 0 <= i < j < ids@.len() ==> ids@[i] < ids@[j],
                    forall|i: int| 0 <= i < ids@.len() ==> (#[trigger] ids@[i]) < 64 * k + b,
                    forall|id: u32| ids@.contains(id) <==> (id < 64 * k + b && self@.contains(id)),
                decreases 64 - b,
            {
                let id = (k as u32) * 64 + b;
                let ghost before = ids@;
                if (w >> (b as u64)) & 1 == 1 {
                    ids.push(id);
                }
                proof {
                    assert(id as int / 64 == k && id % 64 == b);
                    assert forall|x: u32| ids@.contains(x) <==> (x < 64 * k + b + 1 && self@.contains(
                        x,
                    )) by {
                        if ids@.len() > before.len() {
                            assert(ids@ == before.push(id));
                            if x == id {
                                assert(ids@[before.len() as int] == id);
                            } else if before.contains(x) {
                                let i = choose|i: int| 0 <= i < before.len() && before[i] == x;
                                assert(ids@[i] == x);
                            } else {
                            }
                        }
                    }
                }
                b += 1;
            }
            k += 1;
        }
        proof {
            assert forall|id: u32| self@.contains(id) implies id < 64 * k by {}
        }
        ids
    }

    /// The raw words of the set, lowest ids first.
    pub fn checks(&self) -> (w: &Vec<u64>)
        ensures
            w@ == self.words(),
    {
        &self.words
    }

    /// The lowest id that is not in the set, if any `u32` is left.
    pub fn first_clear(&self) -> (r: Option<u32>)
        requires
            self.wf(),
        ensures
            match r {
                Some(id) => !self@.contains(id) && forall|x: u32| x < id ==> self@.contains(x),
                None => forall|x: u32| self@.contains(x),
            },
    {
        let mut k: usize = 0;
        while k < self.words.len()
            invariant
                k <= self.words@.len(),
                self.words@.len() <= MAX_WORDS,
                forall|i: int| 0 <= i < k ==> self.words@[i] == !0u64,
            decreases self.words@.len() - k,
        {
            let w = self.words[k];
            if w != !0u64 {
                let tz = (!w).trailing_zeros();
                proof {
                    vstd::std_specs::bits::axiom_u64_trailing_zeros(!w);
                    assert(!w != 0) by (bit_vector)
                        requires
                            w != !0u64,
                    ;
                    lemma_bit_not(w);
                    lemma_bit_not(0u64);
                    lemma_bit_zero();
                }
                let id = (k as u32) * 64 + tz;
                proof {
                    assert(id as int / 64 == k && id % 64 == tz);
                    assert(bit_of(!w, tz as u64));
                    assert(!self@.contains(id));
                    assert forall|x: u32| x < id implies self@.contains(x) by {
                        let kx = x as int / 64;
                        let bx = (x % 64) as u64;
                        if kx == k {
                            assert(bx < tz);
                            assert(((!w) >> bx) & 1u64 == 0u64);
                            assert(!bit_of(!w, bx));
                        } else {
                            assert(self.words@[kx] == !0u64);
                            assert(bit_of(!0u64, bx));
                        }
                    }
                }
                return Some(id);
            }
            k += 1;
        }
        if k < MAX_WORDS {
            let id = (k as u32) * 64;
            proof {
                lemma_bit_not(0u64);
                lemma_bit_zero();
                assert(id as int / 64 == k);
            }
            Some(id)
        } else {
            proof {
                lemma_bit_not(0u64);
                lemma_bit_zero();
            }
            None
        }
    }
}

proof fn lemma_bit_count_bound(w: u64, n: nat)
    ensures
        bit_count(w, n) <= n,
    decreases n,
{
    if n > 0 {
        lemma_bit_count_bound(w, (n - 1) as nat);
    }
}

/// The ids below `n`.
pub open spec fn ids_under(n: int) -> Set<u32> {
    Set::new(|id: u32| id < n)
}

proof fn lemma_ids_under(n: nat)
    requires
        n <= 0x1_0000_0000,
    ensures
        ids_under(n as int).finite(),
        ids_under(n as int).len() == n,
    decreases n,
{
    if n == 0 {
        assert(ids_under(0) =~= Set::<u32>::empty());
    } else {
        lemma_ids_under((n - 1) as nat);
        assert(ids_under(n as int) =~= ids_under(n - 1).insert((n - 1) as u32));
    }
}

/// A set of ids holds no more ids than 32 bits can tell apart.
pub proof fn lemma_count_bound(s: Set<u32>)
    requires
        s.finite(),
    ensures
        s.len() <= 0x1_0000_0000,
{
    lemma_ids_under(0x1_0000_0000);
    assert(s.subset_of(ids_under(0x1_0000_0000)));
    vstd::set_lib::lemma_len_subset(s, ids_under(0x1_0000_0000));
}

/// A finite set of fewer ids than 32 bits can tell apart leaves an id out.
pub proof fn lemma_some_id_left(s: Set<u32>)
    requires
        s.finite(),
        s.len() < 0x1_0000_0000,
    ensures
        exists|id: u32| !s.contains(id),
{
    if forall|id: u32| s.contains(id) {
        lemma_ids_under(0x1_0000_0000);
        assert(s =~= ids_under(0x1_0000_0000));
    }
}

} // verus!
