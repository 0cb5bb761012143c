//! The index of the posts by their tags, with the database of tags beside it.

use crate::bitset::{lemma_some_id_left, Bitset};
use crate::db::Db;
use crate::field_index::some_if_any;
use crate::index::{Index, QueryError, TermModel};
use crate::key::{Key, KeyModel};
use crate::key_index::{lemma_disjoint_sum, sum_of_sizes, union_of, KeyIndex};
use crate::post::{texts_of, BooruPost, PostModel};
use crate::posting::{
    directed, lemma_first_match, lemma_matches_members, lemma_no_match, matches_in, page_of,
    Queryable,
};
use crate::query::{
    all_ok, evaluate, or_chain, stored_chain, union_views, views_of, Item, Query,
};
use crate::tag_db::{
    name_lookup, tags_abbreviated, tags_like, tags_named, Tag, TagDbIndex, TagModel,
};
use crate::text::{chars_of, find_char, index_of, slice_chars, string_of, TextPattern};
use vstd::prelude::*;

verus! {

/// The ids that are filed under the tag `t` in `has`.
pub open spec fn filed_under(has: Set<(u32, Seq<char>)>, t: Seq<char>) -> Set<u32> {
    Set::new(|id: u32| has.contains((id, t)))
}

/// The tags of the posts `recs`, each with the id of its post.
pub open spec fn taggings(recs: Map<u32, PostModel>) -> Set<(u32, Seq<char>)> {
    Set::new(|e: (u32, Seq<char>)| recs.contains_key(e.0) && recs[e.0].tags.contains(e.1))
}

/// The ids of the posts of `recs` that have the tag `t`.
pub open spec fn posts_tagged(recs: Map<u32, PostModel>, t: Seq<char>) -> Set<u32> {
    filed_under(taggings(recs), t)
}

/// Whether the tags `trecs` are those under which `has` files an id, each
/// once and with the number of its ids.
pub open spec fn tags_mirror(trecs: Map<u32, TagModel>, has: Set<(u32, Seq<char>)>) -> bool {
    &&& forall|tid: u32| #[trigger]
        trecs.contains_key(tid) ==> filed_under(has, trecs[tid].name) != Set::<u32>::empty()
            && trecs[tid].count == filed_under(has, trecs[tid].name).len() as u32
    &&& forall|t: Seq<char>|
        filed_under(has, t) != Set::<u32>::empty() ==> #[trigger] tags_named(trecs, t)
            != Set::<u32>::empty()
    &&& forall|a: u32, b: u32|
        trecs.contains_key(a) && trecs.contains_key(b) && trecs[a].name == trecs[b].name ==> a == b
}

/// How the tags `after` follow the tags `before` where ids were filed under
/// the tags `names`, or taken away from them, and under no others: a tag of
/// another name keeps its id and its record, an id that stays in use keeps
/// its name, and a new id is that of a tag of `names`.
pub open spec fn tags_follow(
    before: Map<u32, TagModel>,
    after: Map<u32, TagModel>,
    names: Set<Seq<char>>,
) -> bool {
    &&& forall|tid: u32| #[trigger]
        before.contains_key(tid) && !names.contains(before[tid].name) ==> after.contains_pair(
            tid,
            before[tid],
        )
    &&& forall|tid: u32| #[trigger]
        after.contains_key(tid) && before.contains_key(tid) ==> after[tid].name == before[tid].name
    &&& forall|tid: u32| #[trigger]
        after.contains_key(tid) && !before.contains_key(tid) ==> names.contains(after[tid].name)
}

/// Whether each tag of `before` that is still a tag in `after` has kept its id.
pub open spec fn tags_stay(before: Map<u32, TagModel>, after: Map<u32, TagModel>) -> bool {
    forall|tid: u32| #[trigger]
        before.contains_key(tid) && tags_named(after, before[tid].name) != Set::<u32>::empty()
            ==> after.contains_key(tid)
}

/// Whether each new id of `after` is one above ids that are all in use in `full`.
pub open spec fn takes_lowest(
    before: Map<u32, TagModel>,
    after: Map<u32, TagModel>,
    full: Map<u32, TagModel>,
) -> bool {
    forall|tid: u32, x: u32| #[trigger]
        after.contains_key(tid) && !before.contains_key(tid) && x < tid ==> #[trigger] full.contains_key(x)
}

/// The tags of the record `r`, and none where there is no record.
pub open spec fn tags_of(r: Option<PostModel>) -> Set<Seq<char>> {
    match r {
        Some(post) => post.tags.to_set(),
        None => Set::empty(),
    }
}

/// How the tags `after` stand to the tags `before` where the post `gone` has
/// left and the post `come` has come in. Tags that neither post has keep
/// their ids and their records. An id that stays in use keeps its name, and
/// a tag that stays a tag keeps its id. A new id is that of a tag of the
/// two posts. Where no post has left, no id has either, and each new id is
/// the lowest that was free when its tag came in: all ids below it are in
/// use. Where no post has come in, no id has.
pub open spec fn tags_after(
    before: Map<u32, TagModel>,
    after: Map<u32, TagModel>,
    gone: Option<PostModel>,
    come: Option<PostModel>,
) -> bool {
    &&& tags_follow(before, after, tags_of(gone).union(tags_of(come)))
    &&& tags_stay(before, after)
    &&& gone is None ==> takes_lowest(before, after, after) && forall|tid: u32|
        before.contains_key(tid) ==> after.contains_key(tid)
    &&& come is None ==> forall|tid: u32| after.contains_key(tid) ==> before.contains_key(tid)
}

/// Tags that follow in two steps follow in one, where the second step is
/// about one tag of `names` and no id is in use before and after that is
/// not in use between.
proof fn lemma_follow_step(
    a: Map<u32, TagModel>,
    b: Map<u32, TagModel>,
    c: Map<u32, TagModel>,
    names: Set<Seq<char>>,
    t: Seq<char>,
)
    requires
        tags_follow(a, b, names),
        tags_follow(b, c, set![t]),
        names.contains(t),
        forall|tid: u32| a.contains_key(tid) && c.contains_key(tid) ==> b.contains_key(tid),
    ensures
        tags_follow(a, c, names),
{
    assert forall|tid: u32| #[trigger]
        a.contains_key(tid) && !names.contains(a[tid].name) implies c.contains_pair(tid, a[tid]) by {
        assert(b.contains_pair(tid, a[tid]));
        assert(b.contains_key(tid) && !set![t].contains(b[tid].name));
    }
    assert forall|tid: u32| #[trigger]
        c.contains_key(tid) && !a.contains_key(tid) implies names.contains(c[tid].name) by {
        if b.contains_key(tid) {
            assert(names.contains(b[tid].name));
        } else {
            assert(set![t].contains(c[tid].name));
        }
    }
}

/// Tags that stay: where `a` and `c` both hold ids of `b` alone, under the
/// names that `b` has for them, and `b` has each name once, a tag of `a`
/// that is a tag of `c` has the same id in both.
proof fn lemma_stay(a: Map<u32, TagModel>, b: Map<u32, TagModel>, c: Map<u32, TagModel>)
    requires
        forall|tid: u32| a.contains_key(tid) ==> b.contains_key(tid) && b[tid].name == a[tid].name,
        forall|tid: u32| c.contains_key(tid) ==> b.contains_key(tid) && c[tid].name == b[tid].name,
        forall|x: u32, y: u32|
            b.contains_key(x) && b.contains_key(y) && b[x].name == b[y].name ==> x == y,
    ensures
        tags_stay(a, c),
{
    assert forall|tid: u32| #[trigger]
        a.contains_key(tid) && tags_named(c, a[tid].name) != Set::<u32>::empty() implies c.contains_key(
        tid,
    ) by {
        let n = a[tid].name;
        if forall|y: u32| !tags_named(c, n).contains(y) {
            assert(tags_named(c, n) =~= Set::<u32>::empty());
        }
        let y = choose|y: u32| tags_named(c, n).contains(y);
        assert(b.contains_key(y) && b[y].name == n);
        assert(b.contains_key(tid) && b[tid].name == n);
    }
}

/// The taggings of a slot: each id of `ids` with the text of `key`.
pub open spec fn pairs_of_slot(key: KeyModel, ids: Set<u32>) -> Set<(u32, Seq<char>)> {
    Set::new(|e: (u32, Seq<char>)| ids.contains(e.0) && key == KeyModel::Text(e.1))
}

proof fn lemma_pairs_of_slot(key: KeyModel, ids: Set<u32>)
    requires
        ids.finite(),
        key is Text,
    ensures
        pairs_of_slot(key, ids).finite(),
        pairs_of_slot(key, ids).len() == ids.len(),
{
    let t = key->Text_0;
    let f = |id: u32| (id, t);
    assert(ids.map(f) =~= pairs_of_slot(key, ids)) by {
        assert forall|e: (u32, Seq<char>)|
            ids.map(f).contains(e) <==> pairs_of_slot(key, ids).contains(e) by {
            if pairs_of_slot(key, ids).contains(e) {
                assert(f(e.0) == e);
            }
        }
    }
    assert(vstd::relations::injective_on(f, ids));
    vstd::set_lib::lemma_map_size(ids, pairs_of_slot(key, ids), f);
}

proof fn lemma_same_sizes<A, B>(a: Seq<Set<A>>, b: Seq<Set<B>>)
    requires
        a.len() == b.len(),
        forall|i: int| 0 <= i < a.len() ==> (#[trigger] a[i]).len() == b[i].len(),
    ensures
        sum_of_sizes(a) == sum_of_sizes(b),
    decreases a.len(),
{
    if a.len() > 0 {
        assert forall|i: int| 0 <= i < a.drop_last().len() implies (#[trigger] a.drop_last()[i]).len()
            == b.drop_last()[i].len() by {
            assert(a.drop_last()[i] == a[i]);
            assert(b.drop_last()[i] == b[i]);
        }
        lemma_same_sizes(a.drop_last(), b.drop_last());
        assert(a[a.len() - 1].len() == b[a.len() - 1].len());
    }
}

proof fn lemma_mirrors_agree(
    a: Map<u32, TagModel>,
    b: Map<u32, TagModel>,
    has: Set<(u32, Seq<char>)>,
    tag: TagModel,
)
    requires
        tags_mirror(a, has),
        tags_mirror(b, has),
        a.contains_value(tag),
    ensures
        b.contains_value(tag),
{
    let x = choose|x: u32| a.contains_key(x) && a[x] == tag;
    assert(a.contains_key(x));
    assert(filed_under(has, tag.name) != Set::<u32>::empty());
    assert(tags_named(b, tag.name) != Set::<u32>::empty());
    if forall|y: u32| !tags_named(b, tag.name).contains(y) {
        assert(tags_named(b, tag.name) =~= Set::<u32>::empty());
    }
    let y = choose|y: u32| tags_named(b, tag.name).contains(y);
    assert(b.contains_key(y));
    assert(b[y].count == a[x].count);
    assert(b[y] == tag);
}

/// The sets of the tags of the posts `ids` of `recs`.
pub open spec fn tag_sets(recs: Map<u32, PostModel>, ids: Seq<u32>) -> Seq<Set<Seq<char>>> {
    Seq::new(ids.len(), |k: int| recs[ids[k]].tags.to_set())
}

/// The taggings of one post: each tag of `tags` with `id`.
pub open spec fn pairs_of_post(id: u32, tags: Set<Seq<char>>) -> Set<(u32, Seq<char>)> {
    Set::new(|e: (u32, Seq<char>)| e.0 == id && tags.contains(e.1))
}

proof fn lemma_pairs_of_post(id: u32, tags: Set<Seq<char>>)
    requires
        tags.finite(),
    ensures
        pairs_of_post(id, tags).finite(),
        pairs_of_post(id, tags).len() == tags.len(),
{
    let f = |t: Seq<char>| (id, t);
    assert(tags.map(f) =~= pairs_of_post(id, tags)) by {
        assert forall|e: (u32, Seq<char>)|
            tags.map(f).contains(e) <==> pairs_of_post(id, tags).contains(e) by {
            if pairs_of_post(id, tags).contains(e) {
                assert(f(e.1) == e);
            }
        }
    }
    assert(vstd::relations::injective_on(f, tags));
    vstd::set_lib::lemma_map_size(tags, pairs_of_post(id, tags), f);
}

/// The number of taggings is the number of different tags of each post,
/// added up over the posts, in whatever order `ids` lists them.
pub proof fn lemma_taggings_by_post(recs: Map<u32, PostModel>, ids: Seq<u32>)
    requires
        ids.no_duplicates(),
        ids.to_set() == recs.dom(),
    ensures
        taggings(recs).finite(),
        taggings(recs).len() == sum_of_sizes(tag_sets(recs, ids)),
{
    let sets = tag_sets(recs, ids);
    let pairs = Seq::new(ids.len(), |k: int| pairs_of_post(ids[k], sets[k]));
    assert forall|k: int| 0 <= k < pairs.len() implies (#[trigger] pairs[k]).finite() && pairs[k].len()
        == sets[k].len() by {
        vstd::seq_lib::seq_to_set_is_finite(recs[ids[k]].tags);
        lemma_pairs_of_post(ids[k], sets[k]);
    }
    assert forall|i: int, j: int| 0 <= i < j < pairs.len() implies (#[trigger] pairs[i]).disjoint(
        #[trigger] pairs[j],
    ) by {
        assert(ids[i] != ids[j]);
    }
    lemma_disjoint_sum(pairs);
    lemma_same_sizes(pairs, sets);
    let has = taggings(recs);
    assert forall|e: (u32, Seq<char>)| has.contains(e) <==> union_of(pairs).contains(e) by {
        if has.contains(e) {
            assert(recs.dom().contains(e.0));
            assert(ids.to_set().contains(e.0));
            assert(ids.contains(e.0));
            let k = choose|k: int| 0 <= k < ids.len() && ids[k] == e.0;
            assert(sets[k].contains(e.1));
            assert(pairs[k].contains(e));
        }
        if union_of(pairs).contains(e) {
            let k = choose|k: int| 0 <= k < pairs.len() && (#[trigger] pairs[k]).contains(e);
            assert(ids.contains(ids[k]));
            assert(ids.to_set().contains(ids[k]));
            assert(recs.dom().contains(ids[k]));
        }
    }
    assert(has =~= union_of(pairs));
}

/// The index of the posts by their tags.
pub struct TagIndex {
    keys_index: KeyIndex,
    tag_db: Db<TagDbIndex>,
    recs: Ghost<Map<u32, PostModel>>,
}

fn cut_u32(n: u64) -> (c: u32)
    ensures
        c == n as u32,
{
    #[verifier::truncate]
    (n as u32)
}

impl TagIndex {
    /// The posts that the index holds.
    pub closed spec fn posts(&self) -> Map<u32, PostModel> {
        self.recs@
    }

    /// The tags of the database of tags, by id.
    pub closed spec fn tags(&self) -> Map<u32, TagModel> {
        self.tag_db.records()
    }

    /// The ids of the tags in the order of their counts.
    pub closed spec fn count_order(&self) -> Seq<u32> {
        self.tag_db.index_view().count_order()
    }

    /// Whether the index files exactly `has`, and the database of tags mirrors it.
    pub closed spec fn files(&self, has: Set<(u32, Seq<char>)>) -> bool {
        &&& self.keys_index.wf()
        &&& self.tag_db.wf()
        &&& forall|t: Seq<char>| #[trigger]
            self.keys_index.posting(KeyModel::Text(t)) == filed_under(has, t)
        &&& forall|v: i64| #[trigger] self.keys_index.posting(KeyModel::Int(v)) == Set::<u32>::empty()
        &&& tags_mirror(self.tag_db.records(), has)
    }

    /// The invariant: the index files the tags of its posts.
    pub closed spec fn sound(&self) -> bool {
        self.files(taggings(self.recs@))
    }

    /// The ids that the index files under the tag `t`.
    pub closed spec fn filed(&self, t: Seq<char>) -> Set<u32> {
        self.keys_index.posting(KeyModel::Text(t))
    }

    /// The number of filings: the sizes of all posting lists, added up.
    pub closed spec fn filings(&self) -> nat {
        sum_of_sizes(self.keys_index.sets())
    }

    /// A sound index files under each tag the posts that have it.
    pub proof fn lemma_filed(&self, t: Seq<char>)
        requires
            self.sound(),
        ensures
            self.filed(t) == posts_tagged(self.posts(), t),
    {
    }

    /// A sound index files each of its posts under each tag of the post.
    pub proof fn lemma_files_each_tag(&self, id: u32, t: Seq<char>)
        requires
            self.sound(),
            self.posts().contains_key(id),
            self.posts()[id].tags.contains(t),
        ensures
            self.filed(t).contains(id),
    {
        assert(taggings(self.posts()).contains((id, t)));
    }

    /// The database of tags of a sound index holds one tag for each tag
    /// that a post has, with the number of the posts that have it.
    pub proof fn lemma_tags(&self)
        requires
            self.sound(),
        ensures
            tags_mirror(self.tags(), taggings(self.posts())),
    {
    }

    /// What a sound index files, and which tags with which counts its
    /// database of tags holds, is a matter of its posts alone. The ids of
    /// the tags are not.
    pub proof fn lemma_same_posts_same_tags(&self, other: &TagIndex)
        requires
            self.sound(),
            other.sound(),
            self.posts() == other.posts(),
        ensures
            forall|t: Seq<char>| #[trigger] self.filed(t) == other.filed(t),
            forall|tag: TagModel| #[trigger]
                self.tags().contains_value(tag) == other.tags().contains_value(tag),
    {
        let has = taggings(self.posts());
        assert forall|tag: TagModel|
            self.tags().contains_value(tag) implies #[trigger] other.tags().contains_value(tag) by {
            lemma_mirrors_agree(self.tags(), other.tags(), has, tag);
        }
        assert forall|tag: TagModel|
            other.tags().contains_value(tag) implies #[trigger] self.tags().contains_value(tag) by {
            lemma_mirrors_agree(other.tags(), self.tags(), has, tag);
        }
    }

    /// The sizes of the posting lists of a sound index add up to the number
    /// of different tags of each post, added up over the posts.
    pub proof fn lemma_filings_by_post(&self, ids: Seq<u32>)
        requires
            self.sound(),
            ids.no_duplicates(),
            ids.to_set() == self.posts().dom(),
        ensures
            self.filings() == sum_of_sizes(tag_sets(self.posts(), ids)),
    {
        self.lemma_filings();
        lemma_taggings_by_post(self.posts(), ids);
    }

    /// The sizes of the posting lists of a sound index add up to the number
    /// of taggings: the tags of each post, each counted once for the post.
    pub proof fn lemma_filings(&self)
        requires
            self.sound(),
        ensures
            taggings(self.posts()).finite(),
            self.filings() == taggings(self.posts()).len(),
    {
        let has = taggings(self.posts());
        self.keys_index.lemma_slots();
        let ks = self.keys_index.keys();
        let ps = self.keys_index.sets();
        let pairs = Seq::new(ps.len(), |i: int| pairs_of_slot(ks[i], ps[i]));
        assert forall|i: int| 0 <= i < ks.len() implies (#[trigger] ks[i]) is Text by {
            assert(self.keys_index.posting(ks[i]) == ps[i]);
            assert(ks.contains(ks[i]));
            match ks[i] {
                KeyModel::Int(v) => {
                    assert(self.keys_index.posting(KeyModel::Int(v)) == Set::<u32>::empty());
                },
                KeyModel::Text(t) => {},
            }
        }
        assert forall|i: int| 0 <= i < pairs.len() implies (#[trigger] pairs[i]).finite()
            && pairs[i].len() == ps[i].len() by {
            lemma_pairs_of_slot(ks[i], ps[i]);
        }
        assert forall|i: int, j: int| 0 <= i < j < pairs.len() implies (#[trigger] pairs[i]).disjoint(
            #[trigger] pairs[j],
        ) by {
            assert(ks[i] != ks[j]);
        }
        lemma_disjoint_sum(pairs);
        lemma_same_sizes(pairs, ps);
        assert forall|e: (u32, Seq<char>)| has.contains(e) <==> union_of(pairs).contains(e) by {
            if has.contains(e) {
                assert(filed_under(has, e.1).contains(e.0));
                assert(self.keys_index.posting(KeyModel::Text(e.1)).contains(e.0));
                assert(ks.contains(KeyModel::Text(e.1)));
                let i = choose|i: int| 0 <= i < ks.len() && ks[i] == KeyModel::Text(e.1);
                assert(self.keys_index.posting(ks[i]) == ps[i]);
                assert(pairs[i].contains(e));
            }
            if union_of(pairs).contains(e) {
                let i = choose|i: int| 0 <= i < pairs.len() && (#[trigger] pairs[i]).contains(e);
                assert(self.keys_index.posting(ks[i]) == ps[i]);
                assert(filed_under(has, e.1).contains(e.0));
            }
        }
        assert(has =~= union_of(pairs));
    }

    /// An index without posts.
    pub fn new() -> (r: TagIndex)
        ensures
            r.sound(),
            r.posts() == Map::<u32, PostModel>::empty(),
            r.tags() == Map::<u32, TagModel>::empty(),
    {
        let r = TagIndex {
            keys_index: KeyIndex::new(),
            tag_db: Db::new(TagDbIndex::new()),
            recs: Ghost(Map::empty()),
        };
        proof {
            let has = taggings(r.recs@);
            assert forall|t: Seq<char>| #[trigger]
                r.keys_index.posting(KeyModel::Text(t)) == filed_under(has, t) by {
                assert(filed_under(has, t) =~= Set::<u32>::empty());
            }
            assert forall|t: Seq<char>| filed_under(has, t) == Set::<u32>::empty() by {
                assert(filed_under(has, t) =~= Set::<u32>::empty());
            }
        }
        r
    }

    /// The database of tags.
    pub closed spec fn tag_db_view(&self) -> Db<TagDbIndex> {
        self.tag_db
    }

    /// The database of tags.
    pub fn tag_db(&self) -> (db: &Db<TagDbIndex>)
        ensures
            *db == self.tag_db_view(),
            db.records() == self.tags(),
            db.index_view().count_order() == self.count_order(),
            self.sound() ==> db.wf(),
    {
        &self.tag_db
    }

    /// The posting list of the tag `name`, if a post has the tag.
    pub fn get(&self, name: &str) -> (r: Option<Queryable<'_>>)
        requires
            self.sound(),
        ensures
            match r {
                Some(q) => q.wf() && q is Borrowed && q@ == posts_tagged(self.posts(), name@) && q@
                    != Set::<u32>::empty(),
                None => posts_tagged(self.posts(), name@) == Set::<u32>::empty(),
            },
            posts_tagged(self.posts(), name@) == self.filed(name@),
    {
        self.keys_index.get(&Key::Text(name.to_owned()))
    }

    /// The number of filings: the sizes of all posting lists, added up.
    pub fn total(&self) -> (n: u64)
        requires
            self.sound(),
        ensures
            n == if self.filings() <= u64::MAX {
                self.filings()
            } else {
                u64::MAX as nat
            },
    {
        self.keys_index.total()
    }

    /// The number of posts that have the tag `name`.
    pub fn count(&self, name: &str) -> (n: u64)
        requires
            self.sound(),
        ensures
            n == posts_tagged(self.posts(), name@).len(),
    {
        self.keys_index.count(&Key::Text(name.to_owned()))
    }

    /// Files `id` under the tag `t`, and counts it in the database of tags.
    fn tag_one(&mut self, id: u32, t: &String, Ghost(has): Ghost<Set<(u32, Seq<char>)>>)
        requires
            old(self).files(has),
            old(self).tag_db.records().dom().len() < 0xffff_ffff,
        ensures
            final(self).files(has.insert((id, t@))),
            final(self).recs == old(self).recs,
            final(self).tag_db.records().dom().len() <= old(self).tag_db.records().dom().len() + 1,
            tags_follow(old(self).tag_db.records(), final(self).tag_db.records(), set![t@]),
            forall|tid: u32|
                old(self).tag_db.records().contains_key(tid) ==> final(self).tag_db.records().contains_key(
                    tid,
                ),
            takes_lowest(
                old(self).tag_db.records(),
                final(self).tag_db.records(),
                old(self).tag_db.records(),
            ),
    {
        let key = Key::Text(t.clone());
        let ghost next = has.insert((id, t@));
        let ghost trecs = self.tag_db.records();
        proof {
            self.tag_db.lemma_live();
        }
        let present = match self.keys_index.get(&key) {
            Some(q) => q.contains(id),
            None => false,
        };
        if present {
            proof {
                assert(filed_under(has, t@).contains(id));
                assert(next =~= has);
            }
            return ;
        }
        let before = cut_u32(self.keys_index.count(&key));
        self.keys_index.insert(id, &key);
        let after = cut_u32(self.keys_index.count(&key));
        proof {
            assert forall|x: Seq<char>| #[trigger]
                self.keys_index.posting(KeyModel::Text(x)) == filed_under(next, x) by {
                assert(old(self).keys_index.posting(KeyModel::Text(x)) == filed_under(has, x));
                assert(filed_under(next, x) =~= if x == t@ {
                    filed_under(has, x).insert(id)
                } else {
                    filed_under(has, x)
                });
            }
            assert(filed_under(next, t@).contains(id));
        }
        match self.tag_db.index().id_of(t.as_str()) {
            Some(tid) => {
                let was = Tag::new(t.clone(), before);
                let now = Tag::new(t.clone(), after);
                proof {
                    assert(tags_named(trecs, t@).contains(tid));
                    assert(trecs.contains_key(tid));
                }
                let _ = self.tag_db.update(tid, &was, &now);
                proof {
                    let trecs2 = self.tag_db.records();
                    assert(trecs2 == trecs.insert(tid, now@));
                    assert(trecs2.dom() =~= trecs.dom());
                    assert forall|x: u32| #[trigger] trecs2.contains_key(x) implies filed_under(
                        next,
                        trecs2[x].name,
                    ) != Set::<u32>::empty() && trecs2[x].count == filed_under(
                        next,
                        trecs2[x].name,
                    ).len() as u32 by {
                        if x != tid {
                            assert(trecs.contains_key(x));
                            assert(trecs[x].name != t@);
                            assert(filed_under(next, trecs[x].name) =~= filed_under(
                                has,
                                trecs[x].name,
                            ));
                        }
                    }
                    assert forall|x: Seq<char>|
                        filed_under(next, x) != Set::<u32>::empty() implies #[trigger] tags_named(
                        trecs2,
                        x,
                    ) != Set::<u32>::empty() by {
                        if x == t@ {
                            assert(tags_named(trecs2, x).contains(tid));
                        } else {
                            assert(filed_under(next, x) =~= filed_under(has, x));
                            assert(tags_named(trecs, x) != Set::<u32>::empty());
                            let y = choose|y: u32| tags_named(trecs, x).contains(y);
                            if forall|y: u32| !tags_named(trecs, x).contains(y) {
                                assert(tags_named(trecs, x) =~= Set::<u32>::empty());
                            }
                            assert(tags_named(trecs2, x).contains(y));
                        }
                    }
                }
            },
            None => {
                proof {
                    lemma_some_id_left(trecs.dom());
                    if filed_under(has, t@) != Set::<u32>::empty() {
                        assert(tags_named(trecs, t@) != Set::<u32>::empty());
                    }
                    assert(filed_under(has, t@) == Set::<u32>::empty());
                }
                match self.tag_db.next_id() {
                    None => {
                        proof {
                            let free = choose|x: u32| !trecs.dom().contains(x);
                            assert(trecs.contains_key(free));
                        }
                    },
                    Some(tid) => {
                        let now = Tag::new(t.clone(), after);
                        let _ = self.tag_db.insert(tid, &now);
                        proof {
                            let trecs2 = self.tag_db.records();
                            assert(trecs2 == trecs.insert(tid, now@));
                            assert(trecs2.dom() =~= trecs.dom().insert(tid));
                            assert forall|x: u32| #[trigger]
                                trecs2.contains_key(x) implies filed_under(next, trecs2[x].name)
                                != Set::<u32>::empty() && trecs2[x].count == filed_under(
                                next,
                                trecs2[x].name,
                            ).len() as u32 by {
                                if x != tid {
                                    assert(trecs.contains_key(x));
                                    if trecs[x].name == t@ {
                                        assert(tags_named(trecs, t@).contains(x));
                                    }
                                    assert(filed_under(next, trecs[x].name) =~= filed_under(
                                        has,
                                        trecs[x].name,
                                    ));
                                }
                            }
                            assert forall|x: Seq<char>|
                                filed_under(next, x)
                                    != Set::<u32>::empty() implies #[trigger] tags_named(trecs2, x)
                                != Set::<u32>::empty() by {
                                if x == t@ {
                                    assert(tags_named(trecs2, x).contains(tid));
                                } else {
                                    assert(filed_under(next, x) =~= filed_under(has, x));
                                    assert(tags_named(trecs, x) != Set::<u32>::empty());
                                    if forall|y: u32| !tags_named(trecs, x).contains(y) {
                                        assert(tags_named(trecs, x) =~= Set::<u32>::empty());
                                    }
                                    let y = choose|y: u32| tags_named(trecs, x).contains(y);
                                    assert(tags_named(trecs2, x).contains(y));
                                }
                            }
                            assert forall|a: u32, b: u32|
                                trecs2.contains_key(a) && trecs2.contains_key(b) && trecs2[a].name
                                    == trecs2[b].name implies a == b by {
                                if a == tid && b != tid {
                                    assert(tags_named(trecs, t@).contains(b));
                                }
                                if b == tid && a != tid {
                                    assert(tags_named(trecs, t@).contains(a));
                                }
                            }
                        }
                    },
                }
            },
        }
    }

    /// Takes `id` away from the tag `t`, and counts it out of the database of tags.
    fn untag_one(&mut self, id: u32, t: &String, Ghost(has): Ghost<Set<(u32, Seq<char>)>>)
        requires
            old(self).files(has),
        ensures
            final(self).files(has.remove((id, t@))),
            final(self).recs == old(self).recs,
            final(self).tag_db.records().dom().len() <= old(self).tag_db.records().dom().len(),
            tags_follow(old(self).tag_db.records(), final(self).tag_db.records(), set![t@]),
            forall|tid: u32|
                final(self).tag_db.records().contains_key(tid) ==> old(self).tag_db.records().contains_key(
                    tid,
                ),
    {
        let key = Key::Text(t.clone());
        let ghost next = has.remove((id, t@));
        let ghost trecs = self.tag_db.records();
        proof {
            self.tag_db.lemma_live();
        }
        let present = match self.keys_index.get(&key) {
            Some(q) => q.contains(id),
            None => false,
        };
        if !present {
            proof {
                assert(!filed_under(has, t@).contains(id));
                assert(next =~= has);
            }
            return ;
        }
        let before = cut_u32(self.keys_index.count(&key));
        self.keys_index.remove(id, &key);
        let after = cut_u32(self.keys_index.count(&key));
        let gone = self.keys_index.get(&key).is_none();
        proof {
            assert forall|x: Seq<char>| #[trigger]
                self.keys_index.posting(KeyModel::Text(x)) == filed_under(next, x) by {
                assert(old(self).keys_index.posting(KeyModel::Text(x)) == filed_under(has, x));
                assert(filed_under(next, x) =~= if x == t@ {
                    filed_under(has, x).remove(id)
                } else {
                    filed_under(has, x)
                });
            }
            assert(filed_under(has, t@).contains(id));
            assert(tags_named(trecs, t@) != Set::<u32>::empty());
        }
        match self.tag_db.index().id_of(t.as_str()) {
            None => {},
            Some(tid) => {
                let was = Tag::new(t.clone(), before);
                proof {
                    assert(tags_named(trecs, t@).contains(tid));
                    assert(trecs.contains_key(tid));
                }
                if gone {
                    let _ = self.tag_db.remove(tid, &was);
                } else {
                    let now = Tag::new(t.clone(), after);
                    let _ = self.tag_db.update(tid, &was, &now);
                }
                proof {
                    let trecs2 = self.tag_db.records();
                    if gone {
                        assert(trecs2.dom() =~= trecs.dom().remove(tid));
                    } else {
                        assert(trecs2.dom() =~= trecs.dom());
                    }
                    assert forall|x: u32| #[trigger] trecs2.contains_key(x) implies filed_under(
                        next,
                        trecs2[x].name,
                    ) != Set::<u32>::empty() && trecs2[x].count == filed_under(
                        next,
                        trecs2[x].name,
                    ).len() as u32 by {
                        if x != tid {
                            assert(trecs.contains_key(x));
                            assert(trecs[x].name != t@);
                            assert(filed_under(next, trecs[x].name) =~= filed_under(
                                has,
                                trecs[x].name,
                            ));
                        }
                    }
                    assert forall|x: Seq<char>|
                        filed_under(next, x) != Set::<u32>::empty() implies #[trigger] tags_named(
                        trecs2,
                        x,
                    ) != Set::<u32>::empty() by {
                        if x == t@ {
                            assert(tags_named(trecs2, x).contains(tid));
                        } else {
                            assert(filed_under(next, x) =~= filed_under(has, x));
                            assert(tags_named(trecs, x) != Set::<u32>::empty());
                            if forall|y: u32| !tags_named(trecs, x).contains(y) {
                                assert(tags_named(trecs, x) =~= Set::<u32>::empty());
                            }
                            let y = choose|y: u32| tags_named(trecs, x).contains(y);
                            assert(tags_named(trecs2, x).contains(y));
                        }
                    }
                }
            },
        }
    }
}

/// The ids of the posts of `recs` that have a tag whose record in `trecs`
/// has an id among `tids`.
pub open spec fn posts_tagged_any(
    recs: Map<u32, PostModel>,
    trecs: Map<u32, TagModel>,
    tids: Set<u32>,
) -> Set<u32> {
    Set::new(
        |id: u32|
            exists|tid: u32|
                tids.contains(tid) && trecs.contains_key(tid) && #[trigger] posts_tagged(
                    recs,
                    trecs[tid].name,
                ).contains(id),
    )
}

/// Whether one of the texts that `s` lists, with commas between, is among `tags`.
pub open spec fn any_listed(s: Seq<char>, tags: Seq<Seq<char>>) -> bool
    decreases s.len(),
{
    let i = index_of(s, ',');
    if 0 <= i < s.len() {
        tags.contains(s.take(i)) || any_listed(s.skip(i + 1), tags)
    } else {
        tags.contains(s)
    }
}

/// Whether `t` is among `names` or one of the texts that `rest` lists is among `tags`.
pub open spec fn named_or_left(names: Set<Seq<char>>, rest: Seq<char>, tags: Seq<Seq<char>>) -> bool {
    (exists|t: Seq<char>| names.contains(t) && #[trigger] tags.contains(t)) || any_listed(rest, tags)
}

/// The ids of the posts of `recs` that have one of the tags that `s` lists.
pub open spec fn posts_tagged_listed(recs: Map<u32, PostModel>, s: Seq<char>) -> Set<u32> {
    Set::new(|id: u32| recs.contains_key(id) && any_listed(s, recs[id].tags))
}

/// The posts that have the tag `part`, as a list of one set, and the empty
/// list where no post has it.
pub open spec fn part_tagged(recs: Map<u32, PostModel>, part: Seq<char>) -> Seq<Set<u32>> {
    if posts_tagged(recs, part) == Set::<u32>::empty() {
        Seq::empty()
    } else {
        seq![posts_tagged(recs, part)]
    }
}

/// For each tag that `s` lists and that a post of `recs` has, the posts
/// that have it, in the order of the list.
pub open spec fn sets_tagged_listed(recs: Map<u32, PostModel>, s: Seq<char>) -> Seq<Set<u32>>
    decreases s.len(),
{
    let i = index_of(s, ',');
    if 0 <= i < s.len() {
        part_tagged(recs, s.take(i)) + sets_tagged_listed(recs, s.skip(i + 1))
    } else {
        part_tagged(recs, s)
    }
}

/// For each of the tags `tids`, in their order, the posts that have it.
pub open spec fn sets_tagged_by(
    recs: Map<u32, PostModel>,
    trecs: Map<u32, TagModel>,
    tids: Seq<u32>,
) -> Seq<Set<u32>> {
    Seq::new(tids.len(), |i: int| posts_tagged(recs, trecs[tids[i]].name))
}

/// Whether a text asks for tags by a pattern: it begins or ends with a star.
pub open spec fn is_wild(text: Seq<char>) -> bool {
    text.len() > 0 && (text[0] == '*' || text.last() == '*')
}

/// What `text` denotes among the posts `recs`, where `trecs` are the tags
/// and `count_order` their ids by rising count. A pattern denotes the posts
/// with a tag that meets it. An abbreviation behind a slash denotes the
/// posts of the tag of that abbreviation that comes last in the order of the
/// counts. A list denotes the posts with one of its tags, and any other text
/// the posts with that tag. Where no tag or no post is found, the text
/// denotes nothing.
pub open spec fn tagged_lookup(
    recs: Map<u32, PostModel>,
    trecs: Map<u32, TagModel>,
    count_order: Seq<u32>,
    text: Seq<char>,
) -> Option<Set<u32>> {
    if is_wild(text) {
        match name_lookup(trecs, text) {
            Some(tids) => Some(posts_tagged_any(recs, trecs, tids)),
            None => None,
        }
    } else if text.len() > 0 && text[0] == '/' {
        match name_lookup(trecs, text) {
            Some(tids) => {
                let m = matches_in(count_order.reverse(), tids);
                if m.len() > 0 && trecs.contains_key(m[0]) {
                    some_if_any(posts_tagged(recs, trecs[m[0]].name))
                } else {
                    None
                }
            },
            None => None,
        }
    } else if index_of(text, ',') < text.len() {
        some_if_any(posts_tagged_listed(recs, text))
    } else {
        some_if_any(posts_tagged(recs, text))
    }
}

/// The form of the query that the index gives for `text`. For a pattern it
/// is the disjunction of the stored postings of the tags that the pattern
/// finds, the tag with the highest count first, and of tags with one count
/// the one with the higher id first. For a list it is the disjunction of the
/// stored postings of the listed tags that posts have, in the order of the
/// list. For any other text it is one stored posting.
pub open spec fn tagged_form<'a>(
    recs: Map<u32, PostModel>,
    trecs: Map<u32, TagModel>,
    count_order: Seq<u32>,
    text: Seq<char>,
    q: Query<Queryable<'a>>,
) -> bool {
    if is_wild(text) {
        let tids = match name_lookup(trecs, text) {
            Some(tids) => tids,
            None => Set::<u32>::empty(),
        };
        stored_chain(q, sets_tagged_by(recs, trecs, matches_in(count_order.reverse(), tids)))
    } else if text.len() > 0 && text[0] == '/' {
        q.item matches Item::Single(p) && p is Borrowed
    } else if index_of(text, ',') < text.len() {
        stored_chain(q, sets_tagged_listed(recs, text))
    } else {
        q.item matches Item::Single(p) && p is Borrowed
    }
}

/// The ids of the posts of `recs` that have a tag that meets the pattern
/// `p`; none where the text of the pattern is empty.
pub open spec fn posts_tagged_like(recs: Map<u32, PostModel>, p: TextPattern) -> Set<u32> {
    Set::new(
        |id: u32|
            recs.contains_key(id) && p.text().len() > 0 && exists|t: Seq<char>|
                #[trigger] recs[id].tags.contains(t) && p.accepts(t),
    )
}

/// Where the tags mirror the posts, the posts of the tags that meet a
/// pattern are the posts that have a tag that meets it.
pub proof fn lemma_tagged_like(recs: Map<u32, PostModel>, trecs: Map<u32, TagModel>, p: TextPattern)
    requires
        tags_mirror(trecs, taggings(recs)),
    ensures
        posts_tagged_any(recs, trecs, tags_like(trecs, p)) == posts_tagged_like(recs, p),
{
    let has = taggings(recs);
    let a = posts_tagged_any(recs, trecs, tags_like(trecs, p));
    let b = posts_tagged_like(recs, p);
    assert forall|id: u32| a.contains(id) <==> b.contains(id) by {
        if a.contains(id) {
            let tid = choose|tid: u32|
                tags_like(trecs, p).contains(tid) && trecs.contains_key(tid)
                    && #[trigger] posts_tagged(recs, trecs[tid].name).contains(id);
            assert(has.contains((id, trecs[tid].name)));
            assert(recs[id].tags.contains(trecs[tid].name));
        }
        if b.contains(id) {
            let t = choose|t: Seq<char>| #[trigger] recs[id].tags.contains(t) && p.accepts(t);
            assert(has.contains((id, t)));
            assert(filed_under(has, t).contains(id));
            assert(tags_named(trecs, t) != Set::<u32>::empty());
            if forall|y: u32| !tags_named(trecs, t).contains(y) {
                assert(tags_named(trecs, t) =~= Set::<u32>::empty());
            }
            let tid = choose|tid: u32| tags_named(trecs, t).contains(tid);
            assert(tags_like(trecs, p).contains(tid));
            assert(posts_tagged(recs, trecs[tid].name).contains(id));
        }
    }
    assert(a =~= b);
}

impl TagIndex {
    /// A pattern that does not begin with a slash denotes, in a sound
    /// index, the posts that have a tag that meets it.
    pub proof fn lemma_pattern_lookup(&self, text: Seq<char>)
        requires
            self.sound(),
            is_wild(text),
            text[0] != '/',
        ensures
            tagged_lookup(self.posts(), self.tags(), self.count_order(), text) == Some(
                posts_tagged_like(self.posts(), crate::text::pattern_of(text)),
            ),
    {
        lemma_tagged_like(self.posts(), self.tags(), crate::text::pattern_of(text));
    }

    /// An abbreviation behind a slash denotes, in a sound index, the posts
    /// of a tag with that abbreviation that no other such tag exceeds in
    /// count, and nothing where no tag has the abbreviation.
    pub proof fn lemma_abbreviation_lookup(&self, text: Seq<char>)
        requires
            self.sound(),
            text.len() > 0,
            text[0] == '/',
            !is_wild(text),
        ensures
            match tagged_lookup(self.posts(), self.tags(), self.count_order(), text) {
                Some(s) => exists|tid: u32|
                    #![trigger self.tags()[tid]]
                    tags_abbreviated(self.tags(), text.skip(1)).contains(tid) && s == posts_tagged(
                        self.posts(),
                        self.tags()[tid].name,
                    ) && forall|other: u32|
                        tags_abbreviated(self.tags(), text.skip(1)).contains(other)
                            ==> self.tags()[other].count <= self.tags()[tid].count,
                None => tags_abbreviated(self.tags(), text.skip(1)) == Set::<u32>::empty(),
            },
    {
        let trecs = self.tags();
        let recs = self.posts();
        let tids = tags_abbreviated(trecs, text.skip(1));
        let order = self.count_order();
        self.tag_db.lemma_live();
        self.tag_db.index_view().lemma_count_order();
        let dir = order.reverse();
        let n = order.len() as int;
        if tids == Set::<u32>::empty() {
        } else {
            if forall|x: u32| !tids.contains(x) {
                assert(tids =~= Set::<u32>::empty());
            }
            let some = choose|x: u32| tids.contains(x);
            assert(trecs.dom().contains(some));
            assert(order.to_set().contains(some));
            assert(order.contains(some));
            let at = choose|k: int| 0 <= k < n && order[k] == some;
            assert(dir[n - 1 - at] == some);
            // the first element of the reversed order that has the abbreviation
            lemma_least_index(dir, tids, n - 1 - at);
            let first = choose|i: int|
                0 <= i < dir.len() && tids.contains(dir[i]) && forall|j: int|
                    0 <= j < i ==> !tids.contains(dir[j]);
            lemma_first_match(dir, tids, first);
            let best = dir[first];
            assert(best == order[n - 1 - first]);
            assert(trecs.contains_key(best));
            assert(filed_under(taggings(recs), trecs[best].name) != Set::<u32>::empty());
            assert forall|other: u32| tids.contains(other) implies trecs[other].count
                <= trecs[best].count by {
                assert(trecs.dom().contains(other));
                assert(order.to_set().contains(other));
                assert(order.contains(other));
                let k = choose|k: int| 0 <= k < n && order[k] == other;
                assert(dir[n - 1 - k] == other);
                if n - 1 - k < first {
                    assert(!tids.contains(dir[n - 1 - k]));
                }
                if k < n - 1 - first {
                    assert(trecs[order[k]].count <= trecs[order[n - 1 - first]].count);
                }
            }
        }
        if tids == Set::<u32>::empty() {
            lemma_no_match(dir, tids);
        }
    }

    /// The posting lists of the tags `tids`, in their order.
    fn tagged_by<'s>(&'s self, tids: &Vec<u32>) -> (ps: Vec<Queryable<'s>>)
        requires
            self.sound(),
            forall|k: int| 0 <= k < tids@.len() ==> self.tags().contains_key(#[trigger] tids@[k]),
        ensures
            all_ok(ps@, self.posts().dom()),
            union_views(ps@) == posts_tagged_any(self.posts(), self.tags(), tids@.to_set()),
            views_of(ps@) == sets_tagged_by(self.posts(), self.tags(), tids@),
            forall|i: int| 0 <= i < ps@.len() ==> (#[trigger] ps@[i]) is Borrowed,
    {
        let ghost recs = self.recs@;
        let ghost trecs = self.tag_db.records();
        let list = tids;
        let mut ps: Vec<Queryable<'s>> = Vec::new();
        let mut j: usize = 0;
        while j < list.len()
            invariant
                j <= list@.len(),
                self.sound(),
                recs == self.recs@,
                trecs == self.tag_db.records(),
                forall|k: int| 0 <= k < list@.len() ==> trecs.contains_key(#[trigger] list@[k]),
                all_ok(ps@, recs.dom()),
                ps@.len() == j,
                forall|i: int|
                    0 <= i < ps@.len() ==> (#[trigger] ps@[i]) is Borrowed && ps@[i]@ == posts_tagged(
                        recs,
                        trecs[list@[i]].name,
                    ),
                forall|id: u32|
                    union_views(ps@).contains(id) <==> exists|k: int|
                        0 <= k < j && trecs.contains_key(#[trigger] list@[k]) && posts_tagged(
                            recs,
                            trecs[list@[k]].name,
                        ).contains(id),
            decreases list@.len() - j,
        {
            let tid = list[j];
            let ghost before = ps@;
            proof {
                self.tag_db.lemma_live();
                assert(trecs.contains_key(tid));
                assert(filed_under(taggings(recs), trecs[tid].name) != Set::<u32>::empty());
            }
            match self.tag_db.index().name_of(tid) {
                None => {},
                Some(name) => match self.get(name.as_str()) {
                    None => {},
                    Some(p) => {
                        ps.push(p);
                        proof {
                            assert(ps@.drop_last() == before);
                            assert forall|i: int| 0 <= i < ps@.len() implies (#[trigger] ps@[i]).wf()
                                && ps@[i]@.subset_of(recs.dom()) by {
                                if i < before.len() {
                                    assert(ps@[i] == before[i]);
                                }
                            }
                            assert forall|i: int| 0 <= i < ps@.len() implies (
                            #[trigger] ps@[i]) is Borrowed && ps@[i]@ == posts_tagged(
                                recs,
                                trecs[list@[i]].name,
                            ) by {
                                if i < before.len() {
                                    assert(ps@[i] == before[i]);
                                }
                            }
                        }
                    },
                },
            }
            proof {
                let add = posts_tagged(recs, trecs[tid].name);
                assert(union_views(ps@) =~= union_views(before).union(add));
                assert forall|id: u32|
                    union_views(ps@).contains(id) <==> exists|k: int|
                        0 <= k < j + 1 && trecs.contains_key(#[trigger] list@[k]) && posts_tagged(
                            recs,
                            trecs[list@[k]].name,
                        ).contains(id) by {
                    if union_views(before).contains(id) {
                        let k = choose|k: int|
                            0 <= k < j && trecs.contains_key(#[trigger] list@[k]) && posts_tagged(
                                recs,
                                trecs[list@[k]].name,
                            ).contains(id);
                        assert(0 <= k < j + 1);
                    }
                    if add.contains(id) {
                        assert(trecs.contains_key(list@[j as int]));
                    }
                    if exists|k: int|
                        0 <= k < j + 1 && trecs.contains_key(#[trigger] list@[k]) && posts_tagged(
                            recs,
                            trecs[list@[k]].name,
                        ).contains(id) {
                        let k = choose|k: int|
                            0 <= k < j + 1 && trecs.contains_key(#[trigger] list@[k])
                                && posts_tagged(recs, trecs[list@[k]].name).contains(id);
                        if k < j {
                            assert(union_views(before).contains(id));
                        }
                    }
                }
            }
            j += 1;
        }
        proof {
            let want = posts_tagged_any(recs, trecs, list@.to_set());
            assert forall|id: u32| union_views(ps@).contains(id) <==> want.contains(id) by {
                if union_views(ps@).contains(id) {
                    let k = choose|k: int|
                        0 <= k < list@.len() && trecs.contains_key(#[trigger] list@[k])
                            && posts_tagged(recs, trecs[list@[k]].name).contains(id);
                    assert(list@.contains(list@[k]));
                    assert(list@.to_set().contains(list@[k]));
                }
                if want.contains(id) {
                    let tid = choose|tid: u32|
                        list@.to_set().contains(tid) && trecs.contains_key(tid)
                            && #[trigger] posts_tagged(recs, trecs[tid].name).contains(id);
                    assert(list@.contains(tid));
                    let k = choose|k: int| 0 <= k < list@.len() && list@[k] == tid;
                    assert(trecs.contains_key(list@[k]));
                }
            }
            assert(union_views(ps@) =~= want);
            assert(views_of(ps@) =~= sets_tagged_by(recs, trecs, list@));
        }
        ps
    }

    /// The posting lists of the tags that `s` lists.
    fn tagged_listed<'s>(&'s self, s: &Vec<char>) -> (ps: Vec<Queryable<'s>>)
        requires
            self.sound(),
        ensures
            all_ok(ps@, self.posts().dom()),
            union_views(ps@) == posts_tagged_listed(self.posts(), s@),
            ps@.len() == 0 <==> posts_tagged_listed(self.posts(), s@) == Set::<u32>::empty(),
            views_of(ps@) == sets_tagged_listed(self.posts(), s@),
            forall|i: int| 0 <= i < ps@.len() ==> (#[trigger] ps@[i]) is Borrowed,
    {
        let n = s.len();
        let ghost recs = self.recs@;
        let mut ps: Vec<Queryable<'s>> = Vec::new();
        let ghost mut names: Set<Seq<char>> = Set::empty();
        let mut pos: usize = 0;
        proof {
            assert(s@.skip(0) == s@);
            assert(union_views(ps@) =~= Set::new(
                |id: u32|
                    recs.contains_key(id) && exists|t: Seq<char>|
                        names.contains(t) && #[trigger] recs[id].tags.contains(t),
            ));
        }
        loop
            invariant_except_break
                sets_tagged_listed(recs, s@) == views_of(ps@) + sets_tagged_listed(
                    recs,
                    s@.skip(pos as int),
                ),
            invariant
                self.sound(),
                recs == self.recs@,
                n == s@.len(),
                pos <= n,
                all_ok(ps@, recs.dom()),
                forall|i: int| 0 <= i < ps@.len() ==> (#[trigger] ps@[i])@ != Set::<u32>::empty(),
                forall|i: int| 0 <= i < ps@.len() ==> (#[trigger] ps@[i]) is Borrowed,
                union_views(ps@) == Set::new(
                    |id: u32|
                        recs.contains_key(id) && exists|t: Seq<char>|
                            names.contains(t) && #[trigger] recs[id].tags.contains(t),
                ),
                forall|tags: Seq<Seq<char>>| #[trigger]
                    any_listed(s@, tags) == named_or_left(names, s@.skip(pos as int), tags),
            ensures
                all_ok(ps@, recs.dom()),
                forall|i: int| 0 <= i < ps@.len() ==> (#[trigger] ps@[i])@ != Set::<u32>::empty(),
                forall|i: int| 0 <= i < ps@.len() ==> (#[trigger] ps@[i]) is Borrowed,
                union_views(ps@) == posts_tagged_listed(recs, s@),
                sets_tagged_listed(recs, s@) == views_of(ps@),
            decreases n - pos,
        {
            let end = find_char(s, pos, n, ',');
            let ghost rest = s@.skip(pos as int);
            let ghost old_names = names;
            let ghost before = ps@;
            let ghost part = s@.subrange(pos as int, end as int);
            proof {
                assert(rest == s@.subrange(pos as int, n as int));
                assert(rest.take(end - pos) == part);
                if end < n {
                    assert(rest.skip(end - pos + 1) == s@.skip(end + 1));
                }
                names = names.insert(part);
            }
            let name = string_of(&slice_chars(s, pos, end));
            match self.get(name.as_str()) {
                None => {},
                Some(p) => {
                    ps.push(p);
                    proof {
                        assert(ps@.drop_last() == before);
                        assert forall|i: int| 0 <= i < ps@.len() implies (#[trigger] ps@[i]).wf()
                            && ps@[i]@.subset_of(recs.dom()) && ps@[i]@ != Set::<u32>::empty() by {
                            if i < before.len() {
                                assert(ps@[i] == before[i]);
                            }
                        }
                        assert forall|i: int| 0 <= i < ps@.len() implies (
                        #[trigger] ps@[i]) is Borrowed by {
                            if i < before.len() {
                                assert(ps@[i] == before[i]);
                            }
                        }
                    }
                },
            }
            proof {
                assert(views_of(ps@) =~= views_of(before) + part_tagged(recs, part));
                let old_acc = union_views(before);
                assert(union_views(ps@) =~= old_acc.union(posts_tagged(recs, part)));
                assert forall|id: u32|
                    union_views(ps@).contains(id) <==> (recs.contains_key(id) && exists|t: Seq<char>|
                        names.contains(t) && #[trigger] recs[id].tags.contains(t)) by {
                    if old_acc.contains(id) {
                        let t = choose|t: Seq<char>|
                            old_names.contains(t) && #[trigger] recs[id].tags.contains(t);
                        assert(names.contains(t));
                    }
                    if posts_tagged(recs, part).contains(id) {
                        assert(names.contains(part) && recs[id].tags.contains(part));
                    }
                    if recs.contains_key(id) && exists|t: Seq<char>|
                        names.contains(t) && #[trigger] recs[id].tags.contains(t) {
                        let t = choose|t: Seq<char>|
                            names.contains(t) && #[trigger] recs[id].tags.contains(t);
                        if t == part {
                            assert(posts_tagged(recs, part).contains(id));
                        } else {
                            assert(old_names.contains(t));
                            assert(old_acc.contains(id));
                        }
                    }
                }
                assert(union_views(ps@) =~= Set::new(
                    |id: u32|
                        recs.contains_key(id) && exists|t: Seq<char>|
                            names.contains(t) && #[trigger] recs[id].tags.contains(t),
                ));
                assert forall|tags: Seq<Seq<char>>| #[trigger]
                    any_listed(s@, tags) == ((exists|t: Seq<char>|
                        names.contains(t) && #[trigger] tags.contains(t)) || (end < n && any_listed(
                        s@.skip(end + 1),
                        tags,
                    ))) by {
                    assert(any_listed(s@, tags) == named_or_left(old_names, rest, tags));
                    if exists|t: Seq<char>| old_names.contains(t) && #[trigger] tags.contains(t) {
                        let t = choose|t: Seq<char>|
                            old_names.contains(t) && #[trigger] tags.contains(t);
                        assert(names.contains(t));
                    }
                    if tags.contains(part) {
                        assert(names.contains(part));
                    }
                    if exists|t: Seq<char>| names.contains(t) && #[trigger] tags.contains(t) {
                        let t = choose|t: Seq<char>| names.contains(t) && #[trigger] tags.contains(t);
                        if t != part {
                            assert(old_names.contains(t));
                        }
                    }
                }
            }
            if end == n {
                proof {
                    assert(union_views(ps@) =~= posts_tagged_listed(recs, s@));
                    assert(part == rest);
                    assert(sets_tagged_listed(recs, rest) == part_tagged(recs, part));
                }
                break ;
            }
            proof {
                assert(sets_tagged_listed(recs, rest) == part_tagged(recs, part)
                    + sets_tagged_listed(recs, s@.skip(end + 1)));
                assert(views_of(before) + (part_tagged(recs, part) + sets_tagged_listed(
                    recs,
                    s@.skip(end + 1),
                )) =~= views_of(ps@) + sets_tagged_listed(recs, s@.skip(end + 1)));
            }
            pos = end + 1;
        }
        proof {
            if ps@.len() > 0 {
                let last = ps@.last();
                assert(last@ != Set::<u32>::empty());
                if forall|id: u32| !last@.contains(id) {
                    assert(last@ =~= Set::<u32>::empty());
                }
                let id = choose|id: u32| last@.contains(id);
                assert(union_views(ps@).contains(id));
            }
        }
        ps
    }
}

/// Whether one of `tags` has the text of `t`.
fn has_tag(tags: &Vec<String>, t: &String) -> (b: bool)
    ensures
        b == texts_of(tags@).contains(t@),
{
    let mut i: usize = 0;
    while i < tags.len()
        invariant
            i <= tags@.len(),
            forall|j: int| 0 <= j < i ==> texts_of(tags@)[j] != t@,
        decreases tags@.len() - i,
    {
        if tags[i] == *t {
            assert(texts_of(tags@)[i as int] == t@);
            return true;
        }
        i += 1;
    }
    false
}

/// The taggings of `id` with the first `n` of `tags`.
pub open spec fn first_taggings(id: u32, tags: Seq<Seq<char>>, n: int) -> Set<(u32, Seq<char>)> {
    Set::new(|e: (u32, Seq<char>)| e.0 == id && exists|k: int| 0 <= k < n && tags[k] == e.1)
}

/// The taggings of `id` with those of the first `n` of `tags` that are not among `keep`.
pub open spec fn dropped_taggings(
    id: u32,
    tags: Seq<Seq<char>>,
    keep: Seq<Seq<char>>,
    n: int,
) -> Set<(u32, Seq<char>)> {
    Set::new(
        |e: (u32, Seq<char>)|
            e.0 == id && !keep.contains(e.1) && exists|k: int| 0 <= k < n && tags[k] == e.1,
    )
}

impl Index for TagIndex {
    type Record = BooruPost;

    open spec fn wf(&self) -> bool {
        self.sound()
    }

    open spec fn records(&self) -> Map<u32, PostModel> {
        self.posts()
    }

    open spec fn room_for(&self, record: PostModel) -> bool {
        self.tags().dom().len() + record.tags.len() < 0xffff_ffff
    }

    open spec fn follows(
        &self,
        after: TagIndex,
        gone: Option<PostModel>,
        come: Option<PostModel>,
    ) -> bool {
        tags_after(self.tags(), after.tags(), gone, come)
    }

    fn has_room(&self, record: &BooruPost) -> (b: bool) {
        proof {
            self.tag_db.lemma_live();
        }
        let used = self.tag_db.occupied().popcount();
        let more = record.tags.len();
        assert(record@.tags.len() == more);
        more < 0xffff_ffff && used < 0xffff_ffff - more as u64
    }

    open spec fn lookup(&self, term: TermModel) -> Result<Option<Set<u32>>, QueryError> {
        Ok(tagged_lookup(self.posts(), self.tags(), self.count_order(), term.text))
    }

    proof fn lemma_lookup_within(&self, term: TermModel) {
    }

    fn query<'s>(&'s self, ident: Option<&str>, text: &str, inverse: bool) -> (r: Result<
        Option<Query<Queryable<'s>>>,
        QueryError,
    >)
        ensures
            r matches Ok(Some(q)) ==> tagged_form(
                self.posts(),
                self.tags(),
                self.count_order(),
                text@,
                q,
            ),
    {
        let s = chars_of(text);
        let n = s.len();
        let ghost recs = self.recs@;
        let ghost trecs = self.tag_db.records();
        proof {
            self.tag_db.lemma_live();
            assert(s@.subrange(0, n as int) == s@);
        }
        let wild = n > 0 && (s[0] == '*' || s[n - 1] == '*');
        let slash = n > 0 && s[0] == '/';
        if wild || slash {
            let found = match self.tag_db.index().query(None, text, false) {
                Err(e) => {
                    return Ok(None);
                },
                Ok(None) => {
                    return Ok(None);
                },
                Ok(Some(q)) => q,
            };
            let tids = evaluate(&found, self.tag_db.occupied());
            if wild {
                let order = self.tag_db.index().count_ids();
                let ids = tids.get_sorted(order, 0, order.len(), true);
                proof {
                    let dir = self.count_order().reverse();
                    let m = matches_in(dir, tids@);
                    lemma_matches_members(dir, tids@);
                    self.tag_db.index_view().lemma_count_order();
                    assert(order@ == self.count_order());
                    assert(directed(order@, true) == dir);
                    assert(m.len() <= dir.len() == order@.len());
                    assert(ids@ == page_of(m, 0, order@.len()));
                    assert(ids@ =~= m);
                    assert forall|k: int| 0 <= k < ids@.len() implies trecs.contains_key(
                        #[trigger] ids@[k],
                    ) by {
                        assert(m.contains(m[k]));
                    }
                    assert forall|x: u32| tids@.contains(x) implies m.contains(x) by {
                        assert(trecs.dom().contains(x));
                        assert(self.count_order().to_set().contains(x));
                        assert(self.count_order().contains(x));
                        let at = choose|at: int|
                            0 <= at < self.count_order().len() && self.count_order()[at] == x;
                        assert(dir[dir.len() - 1 - at] == x);
                    }
                    assert(ids@.to_set() =~= tids@);
                }
                let ps = self.tagged_by(&ids);
                Ok(Some(or_chain(ps, inverse)))
            } else {
                let order = self.tag_db.index().count_ids();
                let best = tids.get_sorted(order, 0, 1, true);
                if best.len() == 0 {
                    return Ok(None);
                }
                let tid = best[0];
                proof {
                    let m = matches_in(self.count_order().reverse(), tids@);
                    assert(best@[0] == m[0]);
                }
                match self.tag_db.index().name_of(tid) {
                    None => Ok(None),
                    Some(name) => match self.get(name.as_str()) {
                        None => Ok(None),
                        Some(p) => Ok(Some(Query::new(Item::Single(p), inverse))),
                    },
                }
            }
        } else if find_char(&s, 0, n, ',') < n {
            let ps = self.tagged_listed(&s);
            if ps.len() == 0 {
                Ok(None)
            } else {
                Ok(Some(or_chain(ps, inverse)))
            }
        } else {
            match self.get(text) {
                None => Ok(None),
                Some(p) => Ok(Some(Query::new(Item::Single(p), inverse))),
            }
        }
    }

    fn insert(&mut self, id: u32, record: &BooruPost) {
        let ghost recs = self.recs@;
        let ghost has0 = taggings(recs);
        let ghost texts = texts_of(record.tags@);
        let ghost names = texts.to_set();
        let ghost tags0 = self.tag_db.records();
        let ghost len0 = self.tag_db.records().dom().len();
        let mut j: usize = 0;
        proof {
            assert(has0.union(first_taggings(id, texts, 0)) =~= has0);
        }
        while j < record.tags.len()
            invariant
                j <= record.tags@.len(),
                texts == texts_of(record.tags@),
                names == texts.to_set(),
                self.recs@ == recs,
                self.files(has0.union(first_taggings(id, texts, j as int))),
                self.tag_db.records().dom().len() <= len0 + j,
                len0 + record.tags@.len() < 0xffff_ffff,
                tags_follow(tags0, self.tag_db.records(), names),
                forall|tid: u32|
                    tags0.contains_key(tid) ==> self.tag_db.records().contains_key(tid),
                takes_lowest(tags0, self.tag_db.records(), self.tag_db.records()),
            decreases record.tags@.len() - j,
        {
            let ghost cur = has0.union(first_taggings(id, texts, j as int));
            let ghost tags1 = self.tag_db.records();
            self.tag_one(id, &record.tags[j], Ghost(cur));
            proof {
                assert(texts[j as int] == record.tags@[j as int]@);
                assert(cur.insert((id, texts[j as int])) =~= has0.union(
                    first_taggings(id, texts, j + 1),
                ));
                assert(texts.contains(texts[j as int]));
                lemma_follow_step(tags0, tags1, self.tag_db.records(), names, texts[j as int]);
            }
            j += 1;
        }
        self.recs = Ghost(recs.insert(id, record@));
        proof {
            let after = recs.insert(id, record@);
            assert(record@.tags == texts);
            assert forall|e: (u32, Seq<char>)|
                taggings(after).contains(e) <==> has0.union(
                    first_taggings(id, texts, texts.len() as int),
                ).contains(e) by {
                if e.0 == id {
                    if texts.contains(e.1) {
                        let k = choose|k: int| 0 <= k < texts.len() && texts[k] == e.1;
                        assert(first_taggings(id, texts, texts.len() as int).contains(e));
                    }
                }
            }
            assert(taggings(after) =~= has0.union(first_taggings(id, texts, texts.len() as int)));
            assert(tags_of(None::<PostModel>).union(tags_of(Some(record@))) =~= names);
        }
    }

    fn remove(&mut self, id: u32, record: &BooruPost) {
        let ghost recs = self.recs@;
        let ghost has0 = taggings(recs);
        let ghost texts = texts_of(record.tags@);
        let ghost names = texts.to_set();
        let ghost tags0 = self.tag_db.records();
        let mut j: usize = 0;
        proof {
            assert(has0.difference(first_taggings(id, texts, 0)) =~= has0);
        }
        while j < record.tags.len()
            invariant
                j <= record.tags@.len(),
                texts == texts_of(record.tags@),
                names == texts.to_set(),
                self.recs@ == recs,
                self.files(has0.difference(first_taggings(id, texts, j as int))),
                tags_follow(tags0, self.tag_db.records(), names),
                forall|tid: u32|
                    self.tag_db.records().contains_key(tid) ==> tags0.contains_key(tid),
            decreases record.tags@.len() - j,
        {
            let ghost cur = has0.difference(first_taggings(id, texts, j as int));
            let ghost tags1 = self.tag_db.records();
            self.untag_one(id, &record.tags[j], Ghost(cur));
            proof {
                assert(texts[j as int] == record.tags@[j as int]@);
                assert(cur.remove((id, texts[j as int])) =~= has0.difference(
                    first_taggings(id, texts, j + 1),
                ));
                assert(texts.contains(texts[j as int]));
                lemma_follow_step(tags0, tags1, self.tag_db.records(), names, texts[j as int]);
            }
            j += 1;
        }
        proof {
            lemma_stay(tags0, tags0, self.tag_db.records());
        }
        self.recs = Ghost(recs.remove(id));
        proof {
            let after = recs.remove(id);
            assert(record@.tags == texts);
            assert forall|e: (u32, Seq<char>)|
                taggings(after).contains(e) <==> has0.difference(
                    first_taggings(id, texts, texts.len() as int),
                ).contains(e) by {
                if e.0 == id {
                    if has0.contains(e) {
                        assert(texts.contains(e.1));
                        let k = choose|k: int| 0 <= k < texts.len() && texts[k] == e.1;
                        assert(first_taggings(id, texts, texts.len() as int).contains(e));
                    }
                }
            }
            assert(taggings(after) =~= has0.difference(
                first_taggings(id, texts, texts.len() as int),
            ));
            assert(tags_of(Some(record@)).union(tags_of(None::<PostModel>)) =~= names);
        }
    }

    fn update(&mut self, id: u32, before: &BooruPost, after: &BooruPost) {
        let ghost recs = self.recs@;
        let ghost has0 = taggings(recs);
        let ghost was = texts_of(before.tags@);
        let ghost now = texts_of(after.tags@);
        let ghost names = was.to_set().union(now.to_set());
        let ghost tags0 = self.tag_db.records();
        let ghost len0 = self.tag_db.records().dom().len();
        let mut k: usize = 0;
        proof {
            assert(has0.union(first_taggings(id, now, 0)) =~= has0);
        }
        while k < after.tags.len()
            invariant
                k <= after.tags@.len(),
                now == texts_of(after.tags@),
                names == was.to_set().union(now.to_set()),
                self.recs@ == recs,
                self.files(has0.union(first_taggings(id, now, k as int))),
                self.tag_db.records().dom().len() <= len0 + k,
                len0 + after.tags@.len() < 0xffff_ffff,
                tags_follow(tags0, self.tag_db.records(), names),
                forall|tid: u32|
                    tags0.contains_key(tid) ==> self.tag_db.records().contains_key(tid),
            decreases after.tags@.len() - k,
        {
            let ghost cur = has0.union(first_taggings(id, now, k as int));
            let ghost tags1 = self.tag_db.records();
            self.tag_one(id, &after.tags[k], Ghost(cur));
            proof {
                assert(now[k as int] == after.tags@[k as int]@);
                assert(cur.insert((id, now[k as int])) =~= has0.union(
                    first_taggings(id, now, k + 1),
                ));
                assert(now.contains(now[k as int]));
                lemma_follow_step(tags0, tags1, self.tag_db.records(), names, now[k as int]);
            }
            k += 1;
        }
        let ghost has1 = has0.union(first_taggings(id, now, now.len() as int));
        let ghost mid = self.tag_db.records();
        let mut j: usize = 0;
        proof {
            assert(has1.difference(dropped_taggings(id, was, now, 0)) =~= has1);
        }
        while j < before.tags.len()
            invariant
                j <= before.tags@.len(),
                was == texts_of(before.tags@),
                now == texts_of(after.tags@),
                names == was.to_set().union(now.to_set()),
                self.recs@ == recs,
                self.files(has1.difference(dropped_taggings(id, was, now, j as int))),
                tags_follow(tags0, self.tag_db.records(), names),
                tags_follow(tags0, mid, names),
                forall|tid: u32| tags0.contains_key(tid) ==> mid.contains_key(tid),
                forall|tid: u32|
                    self.tag_db.records().contains_key(tid) ==> mid.contains_key(tid)
                        && self.tag_db.records()[tid].name == mid[tid].name,
                forall|a: u32, b: u32|
                    mid.contains_key(a) && mid.contains_key(b) && mid[a].name == mid[b].name ==> a
                        == b,
            decreases before.tags@.len() - j,
        {
            let ghost cur = has1.difference(dropped_taggings(id, was, now, j as int));
            let ghost tags1 = self.tag_db.records();
            proof {
                assert(was[j as int] == before.tags@[j as int]@);
            }
            if !has_tag(&after.tags, &before.tags[j]) {
                self.untag_one(id, &before.tags[j], Ghost(cur));
                proof {
                    assert(cur.remove((id, was[j as int])) =~= has1.difference(
                        dropped_taggings(id, was, now, j + 1),
                    ));
                    assert(was.contains(was[j as int]));
                    lemma_follow_step(tags0, tags1, self.tag_db.records(), names, was[j as int]);
                    let tags2 = self.tag_db.records();
                    assert forall|tid: u32| tags2.contains_key(tid) implies mid.contains_key(tid)
                        && tags2[tid].name == mid[tid].name by {
                        assert(tags1.contains_key(tid));
                        assert(tags2[tid].name == tags1[tid].name);
                    }
                }
            } else {
                proof {
                    assert(cur =~= has1.difference(dropped_taggings(id, was, now, j + 1)));
                }
            }
            j += 1;
        }
        self.recs = Ghost(recs.insert(id, after@));
        proof {
            let next = recs.insert(id, after@);
            let got = has1.difference(dropped_taggings(id, was, now, was.len() as int));
            assert(after@.tags == now);
            assert(before@.tags == was);
            assert forall|e: (u32, Seq<char>)| taggings(next).contains(e) <==> got.contains(e) by {
                if e.0 == id {
                    if now.contains(e.1) {
                        let i = choose|i: int| 0 <= i < now.len() && now[i] == e.1;
                        assert(first_taggings(id, now, now.len() as int).contains(e));
                    } else if has0.contains(e) {
                        assert(was.contains(e.1));
                        let i = choose|i: int| 0 <= i < was.len() && was[i] == e.1;
                        assert(dropped_taggings(id, was, now, was.len() as int).contains(e));
                    }
                }
            }
            assert(taggings(next) =~= got);
            lemma_stay(tags0, mid, self.tag_db.records());
            assert(tags_of(Some(before@)).union(tags_of(Some(after@))) =~= names);
        }
    }
}

/// Where an element of a list is in a set, there is a first such element.
proof fn lemma_least_index(list: Seq<u32>, set: Set<u32>, k: int)
    requires
        0 <= k < list.len(),
        set.contains(list[k]),
    ensures
        exists|i: int|
            0 <= i < list.len() && set.contains(list[i]) && forall|j: int|
                0 <= j < i ==> !set.contains(list[j]),
    decreases k,
{
    if exists|j: int| 0 <= j < k && set.contains(list[j]) {
        let j = choose|j: int| 0 <= j < k && set.contains(list[j]);
        lemma_least_index(list, set, j);
    } else {
        assert(0 <= k < list.len() && set.contains(list[k]) && forall|j: int|
            0 <= j < k ==> !set.contains(list[j]));
    }
}

} // verus!
