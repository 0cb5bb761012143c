//! The n-gram index: for each run of `width` characters, the texts that hold it.

use std::collections::HashMap;
use vstd::prelude::*;

verus! {

/// A text filed in the index, with the id it belongs to.
pub struct GramEntry {
    pub text: Vec<char>,
    pub id: u32,
}

/// The number under which a gram is filed: its characters taken as digits
/// to the base 2^21, in 64-bit arithmetic that wraps around.
pub open spec fn code_of(g: Seq<char>) -> u64
    decreases g.len(),
{
    if g.len() == 0 {
        0
    } else {
        code_of(g.drop_last()).wrapping_mul(0x20_0000).wrapping_add(g.last() as u64)
    }
}

/// The code of the gram of `width` characters at position `i` of `s`.
pub open spec fn code_at(s: Seq<char>, i: int, width: int) -> u64 {
    code_of(s.subrange(i, i + width))
}

/// Whether some gram of `s` has the code `g`.
pub open spec fn has_code(s: Seq<char>, width: int, g: u64) -> bool {
    exists|i: int| 0 <= i && i + width <= s.len() && #[trigger] code_at(s, i, width) == g
}

/// Whether `list` holds the text `s` for `id`.
pub open spec fn list_has(list: Seq<GramEntry>, s: Seq<char>, id: u32) -> bool {
    exists|j: int| 0 <= j < list.len() && (#[trigger] list[j]).text@ == s && list[j].id == id
}

/// A copy of `v`.
fn copy_chars(v: &Vec<char>) -> (r: Vec<char>)
    ensures
        r@ == v@,
{
    let mut r: Vec<char> = Vec::new();
    let mut i: usize = 0;
    while i < v.len()
        invariant
            i <= v@.len(),
            r@ == v@.take(i as int),
        decreases v@.len() - i,
    {
        r.push(v[i]);
        assert(v@.take(i + 1) == v@.take(i as int).push(v@[i as int]));
        i += 1;
    }
    assert(v@.take(i as int) == v@);
    r
}

/// Whether the two hold the same characters.
fn same_chars(a: &Vec<char>, b: &Vec<char>) -> (r: bool)
    ensures
        r == (a@ == b@),
{
    if a.len() != b.len() {
        return false;
    }
    let mut i: usize = 0;
    while i < a.len()
        invariant
            i <= a@.len(),
            a@.len() == b@.len(),
            forall|j: int| 0 <= j < i ==> a@[j] == b@[j],
        decreases a@.len() - i,
    {
        if a[i] != b[i] {
            return false;
        }
        i += 1;
    }
    assert(a@ =~= b@);
    true
}

/// An index of texts by the grams they hold.
pub struct NgramIndex {
    width: usize,
    lists: HashMap<u64, Vec<GramEntry>>,
    entries: Ghost<Set<(Seq<char>, u32)>>,
}

impl NgramIndex {
    /// The number of characters of a gram.
    pub closed spec fn width(&self) -> int {
        self.width as int
    }

    /// The texts the index holds, each with its id.
    pub closed spec fn entries(&self) -> Set<(Seq<char>, u32)> {
        self.entries@
    }

    /// The representation invariant.
    pub closed spec fn wf(&self) -> bool {
        &&& 1 <= self.width
        &&& lists_sound(self.lists@, self.entries@, self.width as int)
        &&& lists_complete(self.lists@, self.entries@, self.width as int)
    }

    /// An index without texts for grams of `width` characters.
    pub fn new(width: usize) -> (r: NgramIndex)
        requires
            1 <= width,
        ensures
            r.wf(),
            r.width() == width,
            r.entries() == Set::<(Seq<char>, u32)>::empty(),
    {
        NgramIndex { width, lists: HashMap::new(), entries: Ghost(Set::empty()) }
    }

    /// The code of the gram at position `i` of `s`.
    fn gram(&self, s: &Vec<char>, i: usize) -> (g: u64)
        requires
            i + self.width <= s@.len(),
        ensures
            g == code_at(s@, i as int, self.width as int),
    {
        let ghost part = s@.subrange(i as int, i + self.width);
        let n = s.len();
        let mut g: u64 = 0;
        let mut k: usize = 0;
        while k < self.width
            invariant
                k <= self.width,
                i + self.width <= s@.len() <= usize::MAX,
                part == s@.subrange(i as int, i + self.width),
                g == code_of(part.take(k as int)),
            decreases self.width - k,
        {
            proof {
                let t = part.take(k + 1);
                assert(t.drop_last() == part.take(k as int));
                assert(t.last() == s@[i + k]);
            }
            g = g.wrapping_mul(0x20_0000).wrapping_add(s[i + k] as u64);
            k += 1;
        }
        assert(part.take(k as int) == part);
        g
    }

    /// The list of texts that hold the first gram of `q`. It holds every
    /// text of the index that holds `q`, and only texts of the index.
    /// `None` where `q` is shorter than a gram, or no text holds its first gram.
    pub fn query(&self, q: &Vec<char>) -> (r: Option<&Vec<GramEntry>>)
        requires
            self.wf(),
        ensures
            match r {
                Some(list) => {
                    &&& q@.len() >= self.width()
                    &&& forall|j: int|
                        0 <= j < list@.len() ==> self.entries().contains(
                            ((#[trigger] list@[j]).text@, list@[j].id),
                        )
                    &&& forall|s: Seq<char>, id: u32|
                        self.entries().contains((s, id)) && crate::text::has_part(s, q@)
                            ==> #[trigger] list_has(list@, s, id)
                },
                None => q@.len() >= self.width() ==> forall|s: Seq<char>, id: u32| #[trigger]
                    self.entries().contains((s, id)) ==> !crate::text::has_part(s, q@),
            },
    {
        broadcast use vstd::std_specs::hash::group_hash_axioms;

        if q.len() < self.width {
            return None;
        }
        let g = self.gram(q, 0);
        let r = self.lists.get(&g);
        proof {
            let w = self.width as int;
            assert forall|s: Seq<char>, id: u32| #[trigger]
                self.entries().contains((s, id)) && crate::text::has_part(s, q@) implies self.lists@.contains_key(
                g,
            ) && list_has(self.lists@[g]@, s, id) by {
                let p = choose|p: int| crate::text::occurs_at(q@, s, p);
                assert(s.subrange(p, p + w) =~= q@.subrange(0, w)) by {
                    assert(s.subrange(p, p + q@.len()) == q@);
                    assert forall|k: int| 0 <= k < w implies s.subrange(p, p + w)[k] == q@.subrange(
                        0,
                        w,
                    )[k] by {
                        assert(s.subrange(p, p + q@.len())[k] == q@[k]);
                    }
                }
                assert(code_at(s, p, w) == g);
                assert(entry_filed(self.lists@, s, id, p, w));
            }
            if self.lists@.contains_key(g) {
                let list = self.lists@[g];
                assert(r == Some(&list));
                assert forall|s: Seq<char>, id: u32|
                    self.entries().contains((s, id)) && crate::text::has_part(s, q@)
                    implies #[trigger] list_has(list@, s, id) by {
                    assert(self.lists@.contains_key(g) && list_has(self.lists@[g]@, s, id));
                }
                assert forall|j: int| 0 <= j < list@.len() implies self.entries().contains(
                    ((#[trigger] list@[j]).text@, list@[j].id),
                ) by {
                    assert(self.entries@.contains((self.lists@[g]@[j].text@, self.lists@[g]@[j].id)));
                }
            }
        }
        r
    }

    /// Files the text `s` for `id` under each of its grams.
    pub fn insert(&mut self, id: u32, s: &Vec<char>)
        requires
            old(self).wf(),
        ensures
            final(self).wf(),
            final(self).width() == old(self).width(),
            final(self).entries() == old(self).entries().insert((s@, id)),
    {
        broadcast use vstd::std_specs::hash::group_hash_axioms;

        let ghost ent0 = self.entries@;
        let ghost ent1 = ent0.insert((s@, id));
        let ghost w = self.width as int;
        self.entries = Ghost(ent1);
        if s.len() >= self.width {
            let last = s.len() - self.width;
            let mut i: usize = 0;
            while i <= last
                invariant
                    last < usize::MAX,
                    self.width == old(self).width,
                    w == self.width,
                    w >= 1,
                    self.entries@ == ent1,
                    ent1 == ent0.insert((s@, id)),
                    last == s@.len() - w,
                    i <= last + 1,
                    lists_sound(self.lists@, ent1, w),
                    lists_complete(self.lists@, ent0, w),
                    forall|p: int| 0 <= p < i ==> #[trigger] entry_filed(self.lists@, s@, id, p, w),
                decreases last + 1 - i,
            {
                let g = self.gram(s, i);
                let ghost lists0 = self.lists@;
                let mut list = match self.lists.remove(&g) {
                    Some(l) => l,
                    None => Vec::new(),
                };
                let ghost list0 = list@;
                list.push(GramEntry { text: copy_chars(s), id });
                self.lists.insert(g, list);
                proof {
                    let lists1 = self.lists@;
                    assert(lists1[g]@ == list0.push(list@[list0.len() as int]));
                    assert(lists0.contains_key(g) ==> lists0[g]@ == list0);
                    assert forall|g2: u64, j: int|
                        lists1.contains_key(g2) && 0 <= j < lists1[g2]@.len() implies ent1.contains(
                        ((#[trigger] lists1[g2]@[j]).text@, lists1[g2]@[j].id),
                    ) && has_code(lists1[g2]@[j].text@, w, g2) by {
                        if g2 == g {
                            if j < list0.len() {
                                assert(lists1[g2]@[j] == lists0[g]@[j]);
                            } else {
                                assert(code_at(s@, i as int, w) == g);
                            }
                        } else {
                            assert(lists1[g2] == lists0[g2]);
                        }
                    }
                    assert forall|s2: Seq<char>, id2: u32, p: int|
                        (ent0.contains((s2, id2)) && 0 <= p && p + w <= s2.len()) || (s2 == s@ && id2
                            == id && 0 <= p < i + 1) implies #[trigger] entry_filed(
                        lists1,
                        s2,
                        id2,
                        p,
                        w,
                    ) by {
                        let g2 = code_at(s2, p, w);
                        if s2 == s@ && id2 == id && p == i {
                            assert(lists1[g]@[list0.len() as int].text@ == s@);
                        } else {
                            assert(entry_filed(lists0, s2, id2, p, w));
                            if g2 == g {
                                let j = choose|j: int|
                                    0 <= j < list0.len() && (#[trigger] list0[j]).text@ == s2
                                        && list0[j].id == id2;
                                assert(lists1[g]@[j] == list0[j]);
                            } else {
                                assert(lists1[g2] == lists0[g2]);
                            }
                        }
                    }
                }
                i += 1;
            }
        }
        proof {
            assert forall|s2: Seq<char>, id2: u32, p: int|
                ent1.contains((s2, id2)) && 0 <= p && p + w <= s2.len() implies #[trigger] entry_filed(
                self.lists@,
                s2,
                id2,
                p,
                w,
            ) by {
                if !ent0.contains((s2, id2)) {
                    assert(s2 == s@ && id2 == id);
                }
            }
        }
    }

    /// Takes the text `s` of `id` out of the lists of its grams.
    pub fn remove(&mut self, id: u32, s: &Vec<char>)
        requires
            old(self).wf(),
        ensures
            final(self).wf(),
            final(self).width() == old(self).width(),
            final(self).entries() == old(self).entries().remove((s@, id)),
    {
        broadcast use vstd::std_specs::hash::group_hash_axioms;

        let ghost ent0 = self.entries@;
        let ghost ent1 = ent0.remove((s@, id));
        let ghost w = self.width as int;
        self.entries = Ghost(ent1);
        if s.len() >= self.width {
            let last = s.len() - self.width;
            let mut i: usize = 0;
            while i <= last
                invariant
                    last < usize::MAX,
                    self.width == old(self).width,
                    w == self.width,
                    w >= 1,
                    self.entries@ == ent1,
                    ent1 == ent0.remove((s@, id)),
                    last == s@.len() - w,
                    i <= last + 1,
                    lists_sound(self.lists@, ent0, w),
                    lists_complete(self.lists@, ent1, w),
                    forall|p: int| 0 <= p < i ==> #[trigger] gram_clear(self.lists@, s@, id, p, w),
                decreases last + 1 - i,
            {
                let g = self.gram(s, i);
                let ghost lists0 = self.lists@;
                let ghost mut kept_seq: Seq<GramEntry> = Seq::empty();
                match self.lists.remove(&g) {
                    None => {},
                    Some(list) => {
                        let kept = without(list, s, id);
                        proof {
                            kept_seq = kept@;
                        }
                        if kept.len() > 0 {
                            self.lists.insert(g, kept);
                        }
                    },
                }
                proof {
                    let lists1 = self.lists@;
                    if lists0.contains_key(g) {
                        assert(!list_has(kept_seq, s@, id));
                        assert(lists1.contains_key(g) ==> lists1[g]@ == kept_seq);
                        assert(!lists1.contains_key(g) ==> kept_seq.len() == 0);
                    }
                    assert forall|g2: u64, j: int|
                        lists1.contains_key(g2) && 0 <= j < lists1[g2]@.len() implies ent0.contains(
                        ((#[trigger] lists1[g2]@[j]).text@, lists1[g2]@[j].id),
                    ) && has_code(lists1[g2]@[j].text@, w, g2) by {
                        if g2 == g {
                            let e = lists1[g]@[j];
                            assert(list_has(lists0[g]@, e.text@, e.id));
                            let j0 = choose|j0: int|
                                0 <= j0 < lists0[g]@.len() && (#[trigger] lists0[g]@[j0]).text@
                                    == e.text@ && lists0[g]@[j0].id == e.id;
                            assert(ent0.contains((lists0[g]@[j0].text@, lists0[g]@[j0].id)));
                        } else {
                            assert(lists1[g2] == lists0[g2]);
                        }
                    }
                    assert forall|s2: Seq<char>, id2: u32, p: int|
                        ent1.contains((s2, id2)) && 0 <= p && p + w <= s2.len() implies #[trigger] entry_filed(
                        lists1,
                        s2,
                        id2,
                        p,
                        w,
                    ) by {
                        let g2 = code_at(s2, p, w);
                        assert(entry_filed(lists0, s2, id2, p, w));
                        if g2 == g {
                            assert(list_has(lists0[g]@, s2, id2));
                            assert(list_has(kept_seq, s2, id2));
                            assert(kept_seq.len() > 0);
                            assert(list_has(lists1[g]@, s2, id2));
                        } else {
                            assert(lists1[g2] == lists0[g2]);
                        }
                    }
                    assert forall|p: int| 0 <= p < i + 1 implies #[trigger] gram_clear(
                        lists1,
                        s@,
                        id,
                        p,
                        w,
                    ) by {
                        let g2 = code_at(s@, p, w);
                        if g2 == g {
                        } else {
                            assert(gram_clear(lists0, s@, id, p, w));
                            if lists1.contains_key(g2) {
                                assert(lists1[g2] == lists0[g2]);
                            }
                        }
                    }
                }
                i += 1;
            }
        }
        proof {
            let lists1 = self.lists@;
            assert forall|g2: u64, j: int|
                lists1.contains_key(g2) && 0 <= j < lists1[g2]@.len() implies ent1.contains(
                ((#[trigger] lists1[g2]@[j]).text@, lists1[g2]@[j].id),
            ) && has_code(lists1[g2]@[j].text@, w, g2) by {
                let e = lists1[g2]@[j];
                assert(ent0.contains((e.text@, e.id)) && has_code(e.text@, w, g2));
                if e.text@ == s@ && e.id == id {
                    let p = choose|p: int|
                        0 <= p && p + w <= s@.len() && #[trigger] code_at(s@, p, w) == g2;
                    assert(gram_clear(lists1, s@, id, p, w));
                    assert(list_has(lists1[g2]@, s@, id));
                }
            }
        }
    }
}

/// Whether the text `s` of `id` is filed under its gram at position `p`.
pub open spec fn entry_filed(
    lists: Map<u64, Vec<GramEntry>>,
    s: Seq<char>,
    id: u32,
    p: int,
    width: int,
) -> bool {
    lists.contains_key(code_at(s, p, width)) && list_has(
        lists[code_at(s, p, width)]@,
        s,
        id,
    )
}

/// Every filed text is a text of `entries`, filed under the code of one of its grams.
pub open spec fn lists_sound(
    lists: Map<u64, Vec<GramEntry>>,
    entries: Set<(Seq<char>, u32)>,
    width: int,
) -> bool {
    forall|g: u64, j: int|
        lists.contains_key(g) && 0 <= j < lists[g]@.len() ==> entries.contains(
            ((#[trigger] lists[g]@[j]).text@, lists[g]@[j].id),
        ) && has_code(lists[g]@[j].text@, width, g)
}

/// Every text of `entries` is filed under each of its grams.
pub open spec fn lists_complete(
    lists: Map<u64, Vec<GramEntry>>,
    entries: Set<(Seq<char>, u32)>,
    width: int,
) -> bool {
    forall|s: Seq<char>, id: u32, p: int|
        entries.contains((s, id)) && 0 <= p && p + width <= s.len() ==> #[trigger] entry_filed(
            lists,
            s,
            id,
            p,
            width,
        )
}

/// Whether the list of the gram at position `p` of `s` does not hold `s` for `id`.
pub open spec fn gram_clear(
    lists: Map<u64, Vec<GramEntry>>,
    s: Seq<char>,
    id: u32,
    p: int,
    width: int,
) -> bool {
    lists.contains_key(code_at(s, p, width)) ==> !list_has(lists[code_at(s, p, width)]@, s, id)
}

/// The entries of `list` but those that hold the text `s` for `id`.
fn without(list: Vec<GramEntry>, s: &Vec<char>, id: u32) -> (kept: Vec<GramEntry>)
    ensures
        !list_has(kept@, s@, id),
        forall|j: int|
            0 <= j < kept@.len() ==> list_has(list@, (#[trigger] kept@[j]).text@, kept@[j].id),
        forall|s2: Seq<char>, id2: u32|
            list_has(list@, s2, id2) && !(s2 == s@ && id2 == id) ==> #[trigger] list_has(
                kept@,
                s2,
                id2,
            ),
{
    let ghost orig = list@;
    let mut list = list;
    let mut kept: Vec<GramEntry> = Vec::new();
    assert(orig.take(orig.len() as int) == orig);
    while list.len() > 0
        invariant
            list@.len() <= orig.len(),
            list@ == orig.take(list@.len() as int),
            !list_has(kept@, s@, id),
            forall|j: int|
                0 <= j < kept@.len() ==> list_has(orig, (#[trigger] kept@[j]).text@, kept@[j].id),
            forall|j0: int|
                list@.len() <= j0 < orig.len() && !((#[trigger] orig[j0]).text@ == s@ && orig[j0].id
                    == id) ==> list_has(kept@, orig[j0].text@, orig[j0].id),
        decreases list@.len(),
    {
        let ghost n = list@.len() - 1;
        let ghost before = kept@;
        let e = list.pop().unwrap();
        assert(list@ == orig.take(n));
        assert(e == orig[n]);
        if !(same_chars(&e.text, s) && e.id == id) {
            kept.push(e);
            proof {
                assert(kept@[before.len() as int] == e);
                assert forall|j: int| 0 <= j < kept@.len() implies list_has(
                    orig,
                    (#[trigger] kept@[j]).text@,
                    kept@[j].id,
                ) by {
                    if j < before.len() {
                        assert(kept@[j] == before[j]);
                    }
                }
                assert forall|j0: int|
                    n <= j0 < orig.len() && !((#[trigger] orig[j0]).text@ == s@ && orig[j0].id
                        == id) implies list_has(kept@, orig[j0].text@, orig[j0].id) by {
                    if j0 > n {
                        let j = choose|j: int|
                            0 <= j < before.len() && (#[trigger] before[j]).text@ == orig[j0].text@
                                && before[j].id == orig[j0].id;
                        assert(kept@[j] == before[j]);
                    }
                }
                if list_has(kept@, s@, id) {
                    let j = choose|j: int|
                        0 <= j < kept@.len() && (#[trigger] kept@[j]).text@ == s@ && kept@[j].id == id;
                    if j < before.len() {
                        assert(kept@[j] == before[j]);
                    }
                }
            }
        }
    }
    proof {
        assert forall|s2: Seq<char>, id2: u32|
            list_has(orig, s2, id2) && !(s2 == s@ && id2 == id) implies #[trigger] list_has(
            kept@,
            s2,
            id2,
        ) by {
            let j0 = choose|j0: int|
                0 <= j0 < orig.len() && (#[trigger] orig[j0]).text@ == s2 && orig[j0].id == id2;
            assert(list_has(kept@, orig[j0].text@, orig[j0].id));
        }
    }
    kept
}

} // verus!
