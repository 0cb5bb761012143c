//! The index of one field of the posts.

use crate::bitset::Bitset;
use crate::field::Field;
use crate::index::{Index, QueryError, TermModel};
use crate::key::{Key, KeyModel};
use crate::key_index::KeyIndex;
use crate::post::{BooruPost, PostModel};
use crate::posting::Queryable;
use crate::query::{all_ok, or_chain, stored_chain, union_views, views_of, Item, Query};
use crate::range_index::{entries_map, RangeIndex, RangeQuery};
use crate::text::{chars_of, find_char, index_of};
use crate::value::{range_in, read_range, read_value, value_in, ValueKind};
use vstd::prelude::*;

verus! {

/// The ids of the posts of `recs` whose value of `field` is `v`.
pub open spec fn posts_with(field: Field, recs: Map<u32, PostModel>, v: i64) -> Set<u32> {
    Set::new(|id: u32| recs.contains_key(id) && field.value(recs[id]) == v)
}

/// The ids of the posts of `recs` whose value of `field` lies in `range`.
pub open spec fn posts_within(field: Field, recs: Map<u32, PostModel>, range: RangeQuery) -> Set<
    u32,
> {
    Set::new(|id: u32| recs.contains_key(id) && range.matches(field.value(recs[id])))
}

/// Whether one of the texts that `s` lists, with commas between, writes the value `v`.
pub open spec fn any_part(kind: ValueKind, s: Seq<char>, v: i64) -> bool
    decreases s.len(),
{
    let i = index_of(s, ',');
    if 0 <= i < s.len() {
        value_in(kind, s.take(i)) == Some(v) || any_part(kind, s.skip(i + 1), v)
    } else {
        value_in(kind, s) == Some(v)
    }
}

/// Whether `v` is among `vals` or one of the texts that `rest` lists writes it.
pub open spec fn listed_or_left(kind: ValueKind, vals: Set<i64>, rest: Seq<char>, v: i64) -> bool {
    vals.contains(v) || any_part(kind, rest, v)
}

/// The ids of the posts of `recs` whose value of `field` is one that `s` lists.
pub open spec fn posts_listed(field: Field, recs: Map<u32, PostModel>, s: Seq<char>) -> Set<u32> {
    Set::new(|id: u32| recs.contains_key(id) && any_part(field.kind(), s, field.value(recs[id])))
}

/// `Some` of a set that holds an id, and `None` of the empty set.
pub open spec fn some_if_any(s: Set<u32>) -> Option<Set<u32>> {
    if s == Set::<u32>::empty() {
        None
    } else {
        Some(s)
    }
}

/// What `text` denotes in the index of `field` over the posts `recs`. A list
/// of values, where the field takes one, denotes the posts with one of the
/// values, and a single value of an equality index the posts with that
/// value; both denote nothing where no post is found. A range denotes the
/// posts within it. A text that writes no value and no range denotes nothing.
pub open spec fn field_lookup(field: Field, recs: Map<u32, PostModel>, text: Seq<char>) -> Option<
    Set<u32>,
> {
    if field.takes_list() && index_of(text, ',') < text.len() {
        some_if_any(posts_listed(field, recs, text))
    } else if field.is_key() {
        match value_in(field.kind(), text) {
            Some(v) => some_if_any(posts_with(field, recs, v)),
            None => None,
        }
    } else {
        match range_in(field.kind(), text) {
            Some(range) => Some(posts_within(field, recs, range)),
            None => None,
        }
    }
}

/// The posts that have the value that `part` writes, as a list of one set,
/// and the empty list where `part` writes no value or no post has it.
pub open spec fn part_posts(field: Field, recs: Map<u32, PostModel>, part: Seq<char>) -> Seq<
    Set<u32>,
> {
    match value_in(field.kind(), part) {
        Some(v) => if posts_with(field, recs, v) == Set::<u32>::empty() {
            Seq::empty()
        } else {
            seq![posts_with(field, recs, v)]
        },
        None => Seq::empty(),
    }
}

/// For each value that `s` lists and that a post of `recs` has, the posts
/// that have it, in the order of the list.
pub open spec fn sets_listed(field: Field, recs: Map<u32, PostModel>, s: Seq<char>) -> Seq<
    Set<u32>,
>
    decreases s.len(),
{
    let i = index_of(s, ',');
    if 0 <= i < s.len() {
        part_posts(field, recs, s.take(i)) + sets_listed(field, recs, s.skip(i + 1))
    } else {
        part_posts(field, recs, s)
    }
}

/// The form of the query that the index of `field`, with its ids in the
/// order `order`, gives for `text`: for a list of values of an equality
/// index the disjunction of the stored postings of the values that posts
/// have, in the order of the list; for a list of ids one materialized list;
/// for one value of an equality index its stored posting; for a range a
/// slice of the order.
pub open spec fn field_form<'a>(
    field: Field,
    recs: Map<u32, PostModel>,
    order: Seq<u32>,
    text: Seq<char>,
    q: Query<Queryable<'a>>,
) -> bool {
    if field.takes_list() && index_of(text, ',') < text.len() {
        if field.is_key() {
            stored_chain(q, sets_listed(field, recs, text))
        } else {
            q.item matches Item::Single(p) && p is IdsOwned
        }
    } else if field.is_key() {
        q.item matches Item::Single(p) && p is Borrowed
    } else {
        q.item matches Item::Single(p) && (p matches Queryable::RangeSlice { order: o, lo, hi }
            && o@ == order)
    }
}

/// The first `n` of `posts`, each under its place as its id.
pub open spec fn first_posts(posts: Seq<BooruPost>, n: int) -> Map<u32, PostModel> {
    Map::new(|id: u32| id < n, |id: u32| posts[id as int]@)
}

/// Where the ids of a field index are kept.
enum Store {
    Key(KeyIndex),
    Range(RangeIndex),
}

/// The index of one field: an equality index or an ordered one.
pub struct FieldIndex {
    field: Field,
    store: Store,
    recs: Ghost<Map<u32, PostModel>>,
}

impl FieldIndex {
    /// The field that the index is about.
    pub closed spec fn field(&self) -> Field {
        self.field
    }

    /// The posts that the index holds.
    pub closed spec fn posts(&self) -> Map<u32, PostModel> {
        self.recs@
    }

    /// The ids in the order of their values, where the index is an ordered one.
    pub closed spec fn order(&self) -> Seq<u32> {
        match self.store {
            Store::Key(ki) => Seq::empty(),
            Store::Range(ri) => ri.order(),
        }
    }

    /// The invariant: the store holds each post under the value of its field.
    pub closed spec fn sound(&self) -> bool {
        match self.store {
            Store::Key(ki) => {
                &&& self.field.is_key()
                &&& ki.wf()
                &&& forall|v: i64| #[trigger]
                    ki.posting(KeyModel::Int(v)) == posts_with(self.field, self.recs@, v)
                &&& forall|t: Seq<char>| #[trigger]
                    ki.posting(KeyModel::Text(t)) == Set::<u32>::empty()
            },
            Store::Range(ri) => {
                &&& !self.field.is_key()
                &&& ri.wf()
                &&& ri.value_of() == Map::new(
                    |id: u32| self.recs@.contains_key(id),
                    |id: u32| self.field.value(self.recs@[id]),
                )
            },
        }
    }

    /// The ids that the store files under the value `v`.
    pub closed spec fn filed(&self, v: i64) -> Set<u32> {
        match self.store {
            Store::Key(ki) => ki.posting(KeyModel::Int(v)),
            Store::Range(ri) => Set::new(|id: u32| ri.value_of().contains_pair(id, v)),
        }
    }

    /// A sound index files under each value the posts that have it.
    pub proof fn lemma_filed(&self, v: i64)
        requires
            self.sound(),
        ensures
            self.filed(v) == posts_with(self.field(), self.posts(), v),
    {
        assert(self.filed(v) =~= posts_with(self.field(), self.posts(), v));
    }

    /// A sound index files each of its posts under the value that the post
    /// has in the field.
    pub proof fn lemma_files_each_post(&self, id: u32)
        requires
            self.sound(),
            self.posts().contains_key(id),
        ensures
            self.filed(self.field().value(self.posts()[id])).contains(id),
    {
        self.lemma_filed(self.field().value(self.posts()[id]));
    }

    /// What a sound index files is a matter of its posts alone.
    pub proof fn lemma_same_posts_same_files(&self, other: &FieldIndex)
        requires
            self.sound(),
            other.sound(),
            self.field() == other.field(),
            self.posts() == other.posts(),
        ensures
            forall|v: i64| #[trigger] self.filed(v) == other.filed(v),
            self.order() == other.order(),
    {
        assert forall|v: i64| #[trigger] self.filed(v) == other.filed(v) by {
            self.lemma_filed(v);
            other.lemma_filed(v);
        }
        match (self.store, other.store) {
            (Store::Range(a), Store::Range(b)) => {
                a.lemma_same_values_same_order(&b);
            },
            _ => {},
        }
    }

    /// The number of filings of an equality index: the sizes of its posting
    /// lists, added up. An ordered index has none.
    pub closed spec fn filings(&self) -> nat {
        match self.store {
            Store::Key(ki) => crate::key_index::sum_of_sizes(ki.sets()),
            Store::Range(ri) => 0,
        }
    }

    /// The sizes of the posting lists of a sound equality index add up to
    /// the number of its posts.
    pub proof fn lemma_filings(&self)
        requires
            self.sound(),
            self.field().is_key(),
        ensures
            self.posts().dom().finite(),
            self.filings() == self.posts().dom().len(),
    {
        let recs = self.recs@;
        let field = self.field;
        match self.store {
            Store::Key(ki) => {
                assert forall|id: u32|
                    recs.dom().contains(id) <==> exists|k: KeyModel| (#[trigger] ki.posting(k)).contains(
                        id,
                    ) by {
                    if recs.dom().contains(id) {
                        let v = field.value(recs[id]);
                        assert(ki.posting(KeyModel::Int(v)) == posts_with(field, recs, v));
                        assert(ki.posting(KeyModel::Int(v)).contains(id));
                    }
                    if exists|k: KeyModel| (#[trigger] ki.posting(k)).contains(id) {
                        let k = choose|k: KeyModel| (#[trigger] ki.posting(k)).contains(id);
                        match k {
                            KeyModel::Int(v) => {
                                assert(ki.posting(KeyModel::Int(v)) == posts_with(field, recs, v));
                            },
                            KeyModel::Text(t) => {
                                assert(ki.posting(KeyModel::Text(t)) == Set::<u32>::empty());
                            },
                        }
                    }
                }
                assert forall|a: KeyModel, b: KeyModel| a != b implies (#[trigger] ki.posting(
                    a,
                )).disjoint(#[trigger] ki.posting(b)) by {
                    match (a, b) {
                        (KeyModel::Int(v), KeyModel::Int(w)) => {
                            assert(ki.posting(KeyModel::Int(v)) == posts_with(field, recs, v));
                            assert(ki.posting(KeyModel::Int(w)) == posts_with(field, recs, w));
                        },
                        (KeyModel::Text(t), _) => {
                            assert(ki.posting(KeyModel::Text(t)) == Set::<u32>::empty());
                        },
                        (_, KeyModel::Text(t)) => {
                            assert(ki.posting(KeyModel::Text(t)) == Set::<u32>::empty());
                        },
                    }
                }
                ki.lemma_total(recs.dom());
            },
            Store::Range(ri) => {},
        }
    }

    /// The number of filings of an equality index.
    pub fn total(&self) -> (n: u64)
        requires
            self.sound(),
        ensures
            n == self.filings(),
    {
        match &self.store {
            Store::Key(ki) => {
                proof {
                    self.lemma_filings();
                    crate::bitset::lemma_count_bound(self.recs@.dom());
                }
                ki.total()
            },
            Store::Range(_) => 0,
        }
    }

    /// The posting of the posts that have the value `v` in the field, if
    /// there is such a post.
    pub fn get(&self, v: i64) -> (r: Option<Queryable<'_>>)
        requires
            self.sound(),
        ensures
            match r {
                Some(q) => q.wf() && q@ == self.filed(v) && q@ != Set::<u32>::empty(),
                None => self.filed(v) == Set::<u32>::empty(),
            },
    {
        match &self.store {
            Store::Key(ki) => ki.get(&Key::Int(v)),
            Store::Range(ri) => {
                let q = ri.get(&RangeQuery::Exactly(v));
                assert(q@ =~= self.filed(v));
                let any = match &q {
                    Queryable::RangeSlice { order, lo, hi } => {
                        proof {
                            let part = order@.subrange(*lo as int, *hi as int);
                            if *lo < *hi {
                                assert(part[0] == order@[*lo as int]);
                                assert(part.to_set().contains(part[0]));
                            } else {
                                assert(part.to_set() =~= Set::<u32>::empty());
                            }
                        }
                        *lo < *hi
                    },
                    _ => false,
                };
                if any {
                    Some(q)
                } else {
                    None
                }
            },
        }
    }

    /// An index of `field` without posts.
    pub fn new(field: Field) -> (r: FieldIndex)
        ensures
            r.sound(),
            r.field() == field,
            r.posts() == Map::<u32, PostModel>::empty(),
    {
        let store = if field.has_key_index() {
            Store::Key(KeyIndex::new())
        } else {
            Store::Range(RangeIndex::new())
        };
        let r = FieldIndex { field, store, recs: Ghost(Map::empty()) };
        proof {
            match &r.store {
                Store::Key(ki) => {
                    assert forall|v: i64| #[trigger]
                        ki.posting(KeyModel::Int(v)) == posts_with(r.field, r.recs@, v) by {
                        assert(posts_with(r.field, r.recs@, v) =~= Set::<u32>::empty());
                    }
                },
                Store::Range(ri) => {
                    assert(ri.value_of() =~= Map::new(
                        |id: u32| r.recs@.contains_key(id),
                        |id: u32| r.field.value(r.recs@[id]),
                    ));
                },
            }
        }
        r
    }

    /// The index of `field` over the first `n` of `posts`, each under its
    /// place in the list as its id.
    pub fn load(field: Field, posts: &Vec<BooruPost>, n: usize) -> (r: FieldIndex)
        requires
            n <= posts@.len(),
            n <= u32::MAX,
        ensures
            r.sound(),
            r.field() == field,
            r.posts() == first_posts(posts@, n as int),
    {
        let ghost recs = first_posts(posts@, n as int);
        if field.has_key_index() {
            let mut ki = KeyIndex::new();
            let mut i: usize = 0;
            proof {
                assert forall|v: i64| #[trigger]
                    ki.posting(KeyModel::Int(v)) == posts_with(field, first_posts(posts@, 0), v) by {
                    assert(posts_with(field, first_posts(posts@, 0), v) =~= Set::<u32>::empty());
                }
            }
            while i < n
                invariant
                    i <= n <= posts@.len(),
                    n <= u32::MAX,
                    ki.wf(),
                    forall|v: i64| #[trigger]
                        ki.posting(KeyModel::Int(v)) == posts_with(
                            field,
                            first_posts(posts@, i as int),
                            v,
                        ),
                    forall|t: Seq<char>| #[trigger]
                        ki.posting(KeyModel::Text(t)) == Set::<u32>::empty(),
                decreases n - i,
            {
                let v = field.project(&posts[i]);
                let ghost before = first_posts(posts@, i as int);
                let ghost after = first_posts(posts@, i + 1);
                ki.insert(i as u32, &Key::Int(v));
                proof {
                    assert forall|w: i64| #[trigger]
                        ki.posting(KeyModel::Int(w)) == posts_with(field, after, w) by {
                        assert(posts_with(field, after, w) =~= if w == v {
                            posts_with(field, before, w).insert(i as u32)
                        } else {
                            posts_with(field, before, w)
                        });
                    }
                }
                i += 1;
            }
            FieldIndex { field, store: Store::Key(ki), recs: Ghost(recs) }
        } else {
            let mut entries: Vec<(i64, u32)> = Vec::new();
            let mut i: usize = 0;
            proof {
                assert(entries_map(entries@) =~= Map::new(
                    |id: u32| id < 0,
                    |id: u32| field.value(posts@[id as int]@),
                ));
            }
            while i < n
                invariant
                    i <= n <= posts@.len(),
                    n <= u32::MAX,
                    entries@.len() == i,
                    entries_map(entries@) == Map::new(
                        |id: u32| id < i,
                        |id: u32| field.value(posts@[id as int]@),
                    ),
                decreases n - i,
            {
                let v = field.project(&posts[i]);
                let ghost before = entries@;
                entries.push((v, i as u32));
                proof {
                    assert(entries@.drop_last() == before);
                    assert(entries_map(entries@) =~= Map::new(
                        |id: u32| id < i + 1,
                        |id: u32| field.value(posts@[id as int]@),
                    ));
                }
                i += 1;
            }
            let ri = RangeIndex::from_entries(&entries);
            proof {
                assert(ri.value_of() =~= Map::new(
                    |id: u32| recs.contains_key(id),
                    |id: u32| field.value(recs[id]),
                ));
            }
            FieldIndex { field, store: Store::Range(ri), recs: Ghost(recs) }
        }
    }

    /// The index of `field` that keeps its ids in `range_index`.
    pub(crate) fn from_range(
        field: Field,
        range_index: RangeIndex,
        Ghost(recs): Ghost<Map<u32, PostModel>>,
    ) -> (r: FieldIndex)
        requires
            !field.is_key(),
            range_index.wf(),
            range_index.value_of() == Map::new(
                |id: u32| recs.contains_key(id),
                |id: u32| field.value(recs[id]),
            ),
        ensures
            r.sound(),
            r.field() == field,
            r.posts() == recs,
    {
        FieldIndex { field, store: Store::Range(range_index), recs: Ghost(recs) }
    }

    /// The ordered index, where the field has one.
    pub fn range(&self) -> (r: Option<&RangeIndex>)
        requires
            self.sound(),
        ensures
            r is Some == !self.field().is_key(),
            r matches Some(ri) ==> ri.wf() && ri.order() == self.order() && ri.value_of() == Map::new(
                |id: u32| self.posts().contains_key(id),
                |id: u32| self.field().value(self.posts()[id]),
            ),
    {
        match &self.store {
            Store::Key(_) => None,
            Store::Range(ri) => Some(ri),
        }
    }

    /// The posting lists of the values that `s` lists, in an equality index.
    fn list_postings<'s>(&'s self, s: &Vec<char>) -> (ps: Vec<Queryable<'s>>)
        requires
            self.sound(),
            self.field.is_key(),
        ensures
            all_ok(ps@, self.recs@.dom()),
            union_views(ps@) == posts_listed(self.field, self.recs@, s@),
            ps@.len() == 0 <==> posts_listed(self.field, self.recs@, s@) == Set::<u32>::empty(),
            ps@.len() == sets_listed(self.field, self.recs@, s@).len(),
            forall|i: int|
                0 <= i < ps@.len() ==> (#[trigger] ps@[i]) is Borrowed && ps@[i]@ == sets_listed(
                    self.field,
                    self.recs@,
                    s@,
                )[i],
    {
        let kind = self.field.value_kind();
        let n = s.len();
        let ghost recs = self.recs@;
        let ghost field = self.field;
        let mut ps: Vec<Queryable<'s>> = Vec::new();
        let ghost mut vals: Set<i64> = Set::empty();
        let mut pos: usize = 0;
        proof {
            assert(s@.skip(0) == s@);
            assert(union_views(ps@) =~= Set::new(
                |id: u32| recs.contains_key(id) && vals.contains(field.value(recs[id])),
            ));
        }
        loop
            invariant_except_break
                sets_listed(field, recs, s@) == views_of(ps@) + sets_listed(
                    field,
                    recs,
                    s@.skip(pos as int),
                ),
            invariant
                self.sound(),
                recs == self.recs@,
                field == self.field,
                field.is_key(),
                kind == field.kind(),
                n == s@.len(),
                pos <= n,
                all_ok(ps@, recs.dom()),
                forall|i: int| 0 <= i < ps@.len() ==> (#[trigger] ps@[i])@ != Set::<u32>::empty(),
                forall|i: int| 0 <= i < ps@.len() ==> (#[trigger] ps@[i]) is Borrowed,
                union_views(ps@) == Set::new(
                    |id: u32| recs.contains_key(id) && vals.contains(field.value(recs[id])),
                ),
                forall|v: i64| #[trigger]
                    any_part(kind, s@, v) == listed_or_left(kind, vals, s@.skip(pos as int), v),
            ensures
                all_ok(ps@, recs.dom()),
                forall|i: int| 0 <= i < ps@.len() ==> (#[trigger] ps@[i])@ != Set::<u32>::empty(),
                forall|i: int| 0 <= i < ps@.len() ==> (#[trigger] ps@[i]) is Borrowed,
                union_views(ps@) == posts_listed(field, recs, s@),
                sets_listed(field, recs, s@) == views_of(ps@),
            decreases n - pos,
        {
            let end = find_char(s, pos, n, ',');
            let ghost rest = s@.skip(pos as int);
            let ghost old_vals = vals;
            let ghost before = ps@;
            let ghost part = s@.subrange(pos as int, end as int);
            proof {
                assert(rest == s@.subrange(pos as int, n as int));
                assert(rest.take(end - pos) == s@.subrange(pos as int, end as int));
                if end < n {
                    assert(rest.skip(end - pos + 1) == s@.skip(end + 1));
                }
            }
            match read_value(kind, s, pos, end) {
                None => {},
                Some(v) => {
                    proof {
                        vals = vals.insert(v);
                    }
                    match &self.store {
                        Store::Key(ki) => {
                            match ki.get(&Key::Int(v)) {
                                None => {},
                                Some(q) => {
                                    ps.push(q);
                                    proof {
                                        assert(ps@.drop_last() == before);
                                        assert forall|i: int| 0 <= i < ps@.len() implies (
                                        #[trigger] ps@[i]).wf() && ps@[i]@.subset_of(recs.dom())
                                            && ps@[i]@ != Set::<u32>::empty() by {
                                            if i < before.len() {
                                                assert(ps@[i] == before[i]);
                                            }
                                        }
                                        assert forall|i: int| 0 <= i < ps@.len() implies (
                                        #[trigger] ps@[i]) is Borrowed by {
                                            if i < before.len() {
                                                assert(ps@[i] == before[i]);
                                            }
                                        }
                                    }
                                },
                            }
                        },
                        Store::Range(ri) => {},
                    }
                    proof {
                        assert(union_views(ps@) =~= union_views(before).union(
                            posts_with(field, recs, v),
                        ));
                    }
                },
            }
            proof {
                assert(union_views(ps@) =~= Set::new(
                    |id: u32| recs.contains_key(id) && vals.contains(field.value(recs[id])),
                ));
                assert(views_of(ps@) =~= views_of(before) + part_posts(field, recs, part));
            }
            if end == n {
                proof {
                    assert forall|v: i64| any_part(kind, s@, v) <==> vals.contains(v) by {
                        assert(any_part(kind, s@, v) == listed_or_left(kind, old_vals, rest, v));
                    }
                    assert(union_views(ps@) =~= posts_listed(field, recs, s@));
                    assert(part == rest);
                    assert(sets_listed(field, recs, rest) == part_posts(field, recs, part));
                }
                break ;
            }
            proof {
                assert(sets_listed(field, recs, rest) == part_posts(field, recs, part)
                    + sets_listed(field, recs, s@.skip(end + 1)));
                assert(views_of(before) + (part_posts(field, recs, part) + sets_listed(
                    field,
                    recs,
                    s@.skip(end + 1),
                )) =~= views_of(ps@) + sets_listed(field, recs, s@.skip(end + 1)));
            }
            proof {
                assert forall|v: i64| #[trigger]
                    any_part(kind, s@, v) == listed_or_left(kind, vals, s@.skip(end + 1), v) by {
                    assert(any_part(kind, s@, v) == listed_or_left(kind, old_vals, rest, v));
                }
            }
            pos = end + 1;
        }
        proof {
            assert forall|i: int| 0 <= i < ps@.len() implies ps@[i]@ == sets_listed(
                field,
                recs,
                s@,
            )[i] by {
                assert(views_of(ps@)[i] == ps@[i]@);
            }
            if ps@.len() > 0 {
                let last = ps@.last();
                assert(last@ != Set::<u32>::empty());
                if forall|id: u32| !last@.contains(id) {
                    assert(last@ =~= Set::<u32>::empty());
                }
                let id = choose|id: u32| last@.contains(id);
                assert(union_views(ps@).contains(id));
            }
        }
        ps
    }

    /// The posts with one of the values that `s` lists, in an ordered index.
    fn list_matches(&self, s: &Vec<char>) -> (acc: Bitset)
        requires
            self.sound(),
            !self.field.is_key(),
        ensures
            acc.wf(),
            acc@ == posts_listed(self.field, self.recs@, s@),
    {
        let kind = self.field.value_kind();
        let n = s.len();
        let ghost recs = self.recs@;
        let ghost field = self.field;
        let mut acc = Bitset::new();
        let ghost mut vals: Set<i64> = Set::empty();
        let mut pos: usize = 0;
        proof {
            assert(s@.skip(0) == s@);
            assert(acc@ =~= Set::new(
                |id: u32| recs.contains_key(id) && vals.contains(field.value(recs[id])),
            ));
        }
        loop
            invariant
                self.sound(),
                recs == self.recs@,
                field == self.field,
                !field.is_key(),
                kind == field.kind(),
                n == s@.len(),
                pos <= n,
                acc.wf(),
                acc@ == Set::new(
                    |id: u32| recs.contains_key(id) && vals.contains(field.value(recs[id])),
                ),
                forall|v: i64| #[trigger]
                    any_part(kind, s@, v) == listed_or_left(kind, vals, s@.skip(pos as int), v),
            ensures
                acc.wf(),
                acc@ == posts_listed(field, recs, s@),
            decreases n - pos,
        {
            let end = find_char(s, pos, n, ',');
            let ghost rest = s@.skip(pos as int);
            let ghost old_vals = vals;
            let ghost old_acc = acc@;
            proof {
                assert(rest == s@.subrange(pos as int, n as int));
                assert(rest.take(end - pos) == s@.subrange(pos as int, end as int));
                if end < n {
                    assert(rest.skip(end - pos + 1) == s@.skip(end + 1));
                }
            }
            let ghost part = s@.subrange(pos as int, end as int);
            match read_value(kind, s, pos, end) {
                None => {},
                Some(v) => {
                    proof {
                        vals = vals.insert(v);
                    }
                    match &self.store {
                        Store::Key(_) => {},
                        Store::Range(ri) => {
                            let q = ri.get(&RangeQuery::Exactly(v));
                            acc = acc.union(&q.to_bitset());
                        },
                    }
                    proof {
                        assert(acc@ =~= old_acc.union(posts_with(field, recs, v)));
                    }
                },
            }
            proof {
                assert(acc@ =~= Set::new(
                    |id: u32| recs.contains_key(id) && vals.contains(field.value(recs[id])),
                ));
            }
            if end == n {
                proof {
                    assert forall|v: i64| any_part(kind, s@, v) <==> vals.contains(v) by {
                        assert(any_part(kind, s@, v) == listed_or_left(kind, old_vals, rest, v));
                    }
                    assert(acc@ =~= posts_listed(field, recs, s@));
                }
                break ;
            }
            proof {
                assert forall|v: i64| #[trigger]
                    any_part(kind, s@, v) == listed_or_left(kind, vals, s@.skip(end + 1), v) by {
                    assert(any_part(kind, s@, v) == listed_or_left(kind, old_vals, rest, v));
                }
            }
            pos = end + 1;
        }
        acc
    }
}

impl Index for FieldIndex {
    type Record = BooruPost;

    open spec fn wf(&self) -> bool {
        self.sound()
    }

    open spec fn records(&self) -> Map<u32, PostModel> {
        self.posts()
    }

    open spec fn lookup(&self, term: TermModel) -> Result<Option<Set<u32>>, QueryError> {
        Ok(field_lookup(self.field(), self.posts(), term.text))
    }

    open spec fn room_for(&self, record: PostModel) -> bool {
        true
    }

    open spec fn follows(
        &self,
        after: FieldIndex,
        gone: Option<PostModel>,
        come: Option<PostModel>,
    ) -> bool {
        after.field() == self.field()
    }

    fn has_room(&self, record: &BooruPost) -> (b: bool) {
        true
    }

    proof fn lemma_lookup_within(&self, term: TermModel) {
    }

    fn query<'s>(&'s self, ident: Option<&str>, text: &str, inverse: bool) -> (r: Result<
        Option<Query<Queryable<'s>>>,
        QueryError,
    >)
        ensures
            r matches Ok(Some(q)) ==> field_form(
                self.field(),
                self.posts(),
                self.order(),
                text@,
                q,
            ),
    {
        let s = chars_of(text);
        let n = s.len();
        let kind = self.field.value_kind();
        let ghost dom = self.recs@.dom();
        proof {
            assert(s@.subrange(0, n as int) == s@);
        }
        let comma = find_char(&s, 0, n, ',');
        let listed = comma < n && (self.field.has_key_index() || self.field == Field::Id);
        if listed && self.field.has_key_index() {
            let ps = self.list_postings(&s);
            if ps.len() == 0 {
                Ok(None)
            } else {
                Ok(Some(or_chain(ps, inverse)))
            }
        } else if listed {
            let acc = self.list_matches(&s);
            if acc.is_empty() {
                Ok(None)
            } else {
                let ids = acc.iter();
                assert(ids@.to_set() =~= acc@);
                let q = Query::new(Item::Single(Queryable::IdsOwned(ids)), inverse);
                Ok(Some(q))
            }
        } else {
            match &self.store {
                Store::Key(ki) => match read_value(kind, &s, 0, n) {
                    None => Ok(None),
                    Some(v) => match ki.get(&Key::Int(v)) {
                        None => Ok(None),
                        Some(p) => {
                            let q = Query::new(Item::Single(p), inverse);
                            Ok(Some(q))
                        },
                    },
                },
                Store::Range(ri) => match read_range(kind, text) {
                    None => Ok(None),
                    Some(range) => {
                        let p = ri.get(&range);
                        assert(p@ =~= posts_within(self.field, self.recs@, range));
                        let q = Query::new(Item::Single(p), inverse);
                        Ok(Some(q))
                    },
                },
            }
        }
    }

    fn insert(&mut self, id: u32, record: &BooruPost) {
        let v = self.field.project(record);
        let ghost before = self.recs@;
        let ghost after = before.insert(id, record@);
        let ghost field = self.field;
        match &mut self.store {
            Store::Key(ki) => {
                ki.insert(id, &Key::Int(v));
            },
            Store::Range(ri) => {
                ri.insert(id, v);
            },
        }
        self.recs = Ghost(after);
        proof {
            match &self.store {
                Store::Key(ki) => {
                    assert forall|w: i64| #[trigger]
                        ki.posting(KeyModel::Int(w)) == posts_with(field, after, w) by {
                        assert(posts_with(field, after, w) =~= if w == v {
                            posts_with(field, before, w).insert(id)
                        } else {
                            posts_with(field, before, w)
                        });
                    }
                },
                Store::Range(ri) => {
                    assert(ri.value_of() =~= Map::new(
                        |i: u32| after.contains_key(i),
                        |i: u32| field.value(after[i]),
                    ));
                },
            }
        }
    }

    fn remove(&mut self, id: u32, record: &BooruPost) {
        let v = self.field.project(record);
        let ghost before = self.recs@;
        let ghost after = before.remove(id);
        let ghost field = self.field;
        match &mut self.store {
            Store::Key(ki) => {
                ki.remove(id, &Key::Int(v));
            },
            Store::Range(ri) => {
                ri.remove(id, v);
            },
        }
        self.recs = Ghost(after);
        proof {
            match &self.store {
                Store::Key(ki) => {
                    assert forall|w: i64| #[trigger]
                        ki.posting(KeyModel::Int(w)) == posts_with(field, after, w) by {
                        assert(posts_with(field, after, w) =~= if w == v {
                            posts_with(field, before, w).remove(id)
                        } else {
                            posts_with(field, before, w)
                        });
                    }
                },
                Store::Range(ri) => {
                    assert(ri.value_of() =~= Map::new(
                        |i: u32| after.contains_key(i),
                        |i: u32| field.value(after[i]),
                    ));
                },
            }
        }
    }

    fn update(&mut self, id: u32, before: &BooruPost, after: &BooruPost) {
        let v = self.field.project(before);
        let w = self.field.project(after);
        let ghost recs0 = self.recs@;
        let ghost recs1 = recs0.insert(id, after@);
        let ghost field = self.field;
        match &mut self.store {
            Store::Key(ki) => {
                ki.update(id, &Key::Int(v), &Key::Int(w));
            },
            Store::Range(ri) => {
                ri.update(id, v, w);
            },
        }
        self.recs = Ghost(recs1);
        proof {
            match &self.store {
                Store::Key(ki) => {
                    assert forall|x: i64| #[trigger]
                        ki.posting(KeyModel::Int(x)) == posts_with(field, recs1, x) by {
                        if v == w {
                            assert(posts_with(field, recs1, x) =~= posts_with(field, recs0, x));
                        } else {
                            assert(posts_with(field, recs1, x) =~= if x == w {
                                posts_with(field, recs0, x).insert(id)
                            } else if x == v {
                                posts_with(field, recs0, x).remove(id)
                            } else {
                                posts_with(field, recs0, x)
                            });
                        }
                    }
                },
                Store::Range(ri) => {
                    assert(ri.value_of() =~= Map::new(
                        |i: u32| recs1.contains_key(i),
                        |i: u32| field.value(recs1[i]),
                    ));
                },
            }
        }
    }
}

} // verus!
