//! The database of tags: one record for each tag that some post has, with
//! the number of posts that have it.

use crate::index::{name_view, Index, QueryError, TermModel};
use crate::key::{Key, KeyModel};
use crate::key_index::KeyIndex;
use crate::ngram::{list_has, GramEntry, NgramIndex};
use crate::posting::Queryable;
use crate::query::{Item, Query};
use crate::range_index::{RangeIndex, RangeQuery};
use crate::text::{
    chars_of, lemma_accepts_has_part, pattern_of, same_text, slice_chars, string_of, TextPattern,
    TextQuery,
};
use crate::value::{range_in, read_range, ValueKind};
use std::collections::HashMap;
use vstd::prelude::*;

verus! {

/// A tag and the number of posts that have it.
pub struct Tag {
    name: String,
    count: u32,
}

/// What a tag stands for in contracts.
pub struct TagModel {
    pub name: Seq<char>,
    pub count: u32,
}

impl View for Tag {
    type V = TagModel;

    closed spec fn view(&self) -> TagModel {
        TagModel { name: self.name@, count: self.count }
    }
}

impl Tag {
    /// A tag.
    pub fn new(name: String, count: u32) -> (t: Tag)
        ensures
            t@ == (TagModel { name: name@, count }),
    {
        Tag { name, count }
    }

    /// The name of the tag.
    pub fn name(&self) -> (n: &String)
        ensures
            n@ == self@.name,
    {
        &self.name
    }

    /// The number of posts that have the tag.
    pub fn count(&self) -> (c: u32)
        ensures
            c == self@.count,
    {
        self.count
    }
}

/// Whether `c` is a bracket, which an abbreviation passes over.
pub open spec fn is_bracket(c: char) -> bool {
    c == '(' || c == ')'
}

/// The first characters of the parts of `t` that underscores divide.
pub open spec fn initials(t: Seq<char>) -> Seq<char>
    decreases t.len(),
{
    if t.len() == 0 {
        Seq::empty()
    } else {
        let rest = initials(t.drop_last());
        if t.last() != '_' && (t.len() == 1 || t[t.len() - 2] == '_') {
            rest.push(t.last())
        } else {
            rest
        }
    }
}

/// Which characters an abbreviation looks at: all but brackets.
pub open spec fn not_bracket() -> spec_fn(char) -> bool {
    |c: char| !is_bracket(c)
}

/// The abbreviation of a tag name: its brackets taken out, the first
/// character of each part between underscores.
pub open spec fn abbreviation(name: Seq<char>) -> Seq<char> {
    initials(name.filter(not_bracket()))
}

/// The abbreviation of a tag name.
pub fn abbreviate(text: &str) -> (r: String)
    ensures
        r@ == abbreviation(text@),
{
    let s = chars_of(text);
    let ghost keep = not_bracket();
    let mut out: Vec<char> = Vec::new();
    let mut at_start = true;
    let mut i: usize = 0;
    while i < s.len()
        invariant
            i <= s@.len(),
            keep == not_bracket(),
            out@ == initials(s@.take(i as int).filter(keep)),
            at_start == (s@.take(i as int).filter(keep).len() == 0 || s@.take(i as int).filter(
                keep,
            ).last() == '_'),
        decreases s@.len() - i,
    {
        let c = s[i];
        proof {
            let head = s@.take(i as int);
            let f = head.filter(keep);
            assert(s@.take(i + 1) == head.push(c));
            head.lemma_filter_push(c, keep);
            assert(keep(c) == !is_bracket(c));
            if keep(c) {
                let t = f.push(c);
                assert(s@.take(i + 1).filter(keep) == t);
                assert(t.drop_last() == f);
                assert(t.last() == c);
                if f.len() > 0 {
                    assert(t[t.len() - 2] == f.last());
                }
            } else {
                assert(s@.take(i + 1).filter(keep) == f);
            }
        }
        if c == '(' || c == ')' {
        } else if c == '_' {
            at_start = true;
        } else {
            if at_start {
                out.push(c);
            }
            at_start = false;
        }
        i += 1;
    }
    assert(s@.take(i as int) == s@);
    string_of(&out)
}

/// The ids of the tags of `recs` that are named `t`.
pub open spec fn tags_named(recs: Map<u32, TagModel>, t: Seq<char>) -> Set<u32> {
    Set::new(|id: u32| recs.contains_key(id) && recs[id].name == t)
}

/// The ids of the tags of `recs` whose abbreviation is `a`.
pub open spec fn tags_abbreviated(recs: Map<u32, TagModel>, a: Seq<char>) -> Set<u32> {
    Set::new(|id: u32| recs.contains_key(id) && abbreviation(recs[id].name) == a)
}

/// The ids of the tags of `recs` whose name meets the pattern `p`; none
/// where the text of the pattern is empty.
pub open spec fn tags_like(recs: Map<u32, TagModel>, p: TextPattern) -> Set<u32> {
    Set::new(|id: u32| recs.contains_key(id) && p.text().len() > 0 && p.accepts(recs[id].name))
}

/// The ids of the tags of `recs` whose count lies in `range`.
pub open spec fn tags_counted(recs: Map<u32, TagModel>, range: RangeQuery) -> Set<u32> {
    Set::new(|id: u32| recs.contains_key(id) && range.matches(recs[id].count as i64))
}

/// The names of the tags with their ids, as an n-gram index files them.
pub open spec fn named_entries(recs: Map<u32, TagModel>) -> Set<(Seq<char>, u32)> {
    Set::new(|e: (Seq<char>, u32)| recs.contains_key(e.1) && recs[e.1].name == e.0)
}

/// The index between the ids of tags and their names.
pub struct TagDbIdIndex {
    name_to_id: KeyIndex,
    id_to_name: HashMap<u32, String>,
}

impl TagDbIdIndex {
    /// Whether the index holds the tags `recs`, each id under its name and
    /// each name under its id.
    pub closed spec fn holds(&self, recs: Map<u32, TagModel>) -> bool {
        &&& self.name_to_id.wf()
        &&& forall|t: Seq<char>| #[trigger]
            self.name_to_id.posting(KeyModel::Text(t)) == tags_named(recs, t)
        &&& self.id_to_name@.dom() == recs.dom()
        &&& forall|id: u32| #[trigger] recs.contains_key(id) ==> self.id_to_name@[id]@ == recs[id].name
    }

    fn new() -> (r: TagDbIdIndex)
        ensures
            r.holds(Map::empty()),
    {
        let r = TagDbIdIndex { name_to_id: KeyIndex::new(), id_to_name: HashMap::new() };
        proof {
            let recs = Map::<u32, TagModel>::empty();
            assert forall|t: Seq<char>| #[trigger]
                r.name_to_id.posting(KeyModel::Text(t)) == tags_named(recs, t) by {
                assert(tags_named(recs, t) =~= Set::<u32>::empty());
            }
            assert(r.id_to_name@.dom() =~= recs.dom());
        }
        r
    }

    /// The name of the tag `id`.
    pub(crate) fn name_of(&self, id: u32, Ghost(recs): Ghost<Map<u32, TagModel>>) -> (r: Option<&String>)
        requires
            self.holds(recs),
        ensures
            match r {
                Some(n) => recs.contains_key(id) && n@ == recs[id].name,
                None => !recs.contains_key(id),
            },
    {
        broadcast use vstd::std_specs::hash::group_hash_axioms;

        self.id_to_name.get(&id)
    }

    /// The lowest id of a tag named `name`.
    pub(crate) fn id_of(&self, name: &str, Ghost(recs): Ghost<Map<u32, TagModel>>) -> (r: Option<u32>)
        requires
            self.holds(recs),
        ensures
            match r {
                Some(id) => tags_named(recs, name@).contains(id) && forall|x: u32|
                    x < id ==> !tags_named(recs, name@).contains(x),
                None => tags_named(recs, name@) == Set::<u32>::empty(),
            },
    {
        let key = Key::Text(name.to_owned());
        match self.name_to_id.get(&key) {
            None => None,
            Some(q) => match q {
                Queryable::Borrowed(b) => b.first(),
                _ => None,
            },
        }
    }

    fn insert(&mut self, id: u32, tag: &Tag, Ghost(recs): Ghost<Map<u32, TagModel>>)
        requires
            old(self).holds(recs),
            !recs.contains_key(id),
        ensures
            final(self).holds(recs.insert(id, tag@)),
    {
        broadcast use vstd::std_specs::hash::group_hash_axioms;

        let ghost after = recs.insert(id, tag@);
        self.name_to_id.insert(id, &Key::Text(tag.name.clone()));
        self.id_to_name.insert(id, tag.name.clone());
        proof {
            assert forall|t: Seq<char>| #[trigger]
                self.name_to_id.posting(KeyModel::Text(t)) == tags_named(after, t) by {
                assert(old(self).name_to_id.posting(KeyModel::Text(t)) == tags_named(recs, t));
                assert(tags_named(after, t) =~= if t == tag@.name {
                    tags_named(recs, t).insert(id)
                } else {
                    tags_named(recs, t)
                });
            }
            assert(self.id_to_name@.dom() =~= after.dom());
        }
    }

    fn remove(&mut self, id: u32, tag: &Tag, Ghost(recs): Ghost<Map<u32, TagModel>>)
        requires
            old(self).holds(recs),
            recs.contains_pair(id, tag@),
        ensures
            final(self).holds(recs.remove(id)),
    {
        broadcast use vstd::std_specs::hash::group_hash_axioms;

        let ghost after = recs.remove(id);
        self.name_to_id.remove(id, &Key::Text(tag.name.clone()));
        self.id_to_name.remove(&id);
        proof {
            assert forall|t: Seq<char>| #[trigger]
                self.name_to_id.posting(KeyModel::Text(t)) == tags_named(after, t) by {
                assert(old(self).name_to_id.posting(KeyModel::Text(t)) == tags_named(recs, t));
                assert(tags_named(after, t) =~= if t == tag@.name {
                    tags_named(recs, t).remove(id)
                } else {
                    tags_named(recs, t)
                });
            }
            assert(self.id_to_name@.dom() =~= after.dom());
        }
    }
}

impl TagDbIdIndex {
    fn update(&mut self, id: u32, before: &Tag, after: &Tag, Ghost(recs): Ghost<Map<u32, TagModel>>)
        requires
            old(self).holds(recs),
            recs.contains_pair(id, before@),
        ensures
            final(self).holds(recs.insert(id, after@)),
    {
        let ghost next = recs.insert(id, after@);
        if before.name == after.name {
            proof {
                assert forall|t: Seq<char>| #[trigger]
                    self.name_to_id.posting(KeyModel::Text(t)) == tags_named(next, t) by {
                    assert(tags_named(next, t) =~= tags_named(recs, t));
                }
                assert(self.id_to_name@.dom() =~= next.dom());
            }
        } else {
            self.remove(id, before, Ghost(recs));
            self.insert(id, after, Ghost(recs.remove(id)));
            assert(recs.remove(id).insert(id, after@) =~= next);
        }
    }
}

/// The index of the tags by their counts.
pub struct TagDbCountIndex {
    range_index: RangeIndex,
}

impl TagDbCountIndex {
    /// Whether the index holds the tags `recs`, each under its count.
    pub closed spec fn holds(&self, recs: Map<u32, TagModel>) -> bool {
        &&& self.range_index.wf()
        &&& self.range_index.value_of() == Map::new(
            |id: u32| recs.contains_key(id),
            |id: u32| recs[id].count as i64,
        )
    }

    /// The ids of the tags in the order of their counts.
    pub closed spec fn order(&self) -> Seq<u32> {
        self.range_index.order()
    }

    /// What the order of the counts holds: every tag once, counts rising.
    pub proof fn lemma_order(&self, recs: Map<u32, TagModel>)
        requires
            self.holds(recs),
        ensures
            self.order().no_duplicates(),
            self.order().to_set() == recs.dom(),
            forall|i: int, j: int|
                0 <= i < j < self.order().len() ==> recs[#[trigger] self.order()[i]].count
                    <= recs[#[trigger] self.order()[j]].count,
    {
        self.range_index.lemma_order();
        assert(self.range_index.value_of().dom() =~= recs.dom());
        assert forall|i: int, j: int| 0 <= i < j < self.order().len() implies recs[#[trigger] self.order()[i]].count
            <= recs[#[trigger] self.order()[j]].count by {
            let a = self.order()[i];
            let b = self.order()[j];
            assert(self.order().to_set().contains(a));
            assert(self.order().to_set().contains(b));
            assert(self.range_index.value_of()[a] == self.range_index.values()[i]);
            assert(self.range_index.value_of()[b] == self.range_index.values()[j]);
        }
    }

    fn new() -> (r: TagDbCountIndex)
        ensures
            r.holds(Map::empty()),
    {
        let r = TagDbCountIndex { range_index: RangeIndex::new() };
        proof {
            let recs = Map::<u32, TagModel>::empty();
            assert(r.range_index.value_of() =~= Map::new(
                |id: u32| recs.contains_key(id),
                |id: u32| recs[id].count as i64,
            ));
        }
        r
    }

    /// The ids of the tags in the order of their counts.
    pub fn ids(&self) -> (r: &Vec<u32>)
        ensures
            r@ == self.order(),
    {
        self.range_index.ids()
    }

    fn query<'s>(&'s self, text: &str, Ghost(recs): Ghost<Map<u32, TagModel>>) -> (r: Option<
        Queryable<'s>,
    >)
        requires
            self.holds(recs),
        ensures
            match r {
                Some(p) => {
                    &&& p.wf()
                    &&& range_in(ValueKind::U32, text@) matches Some(range)
                    &&& p@ == tags_counted(recs, range)
                    &&& p matches Queryable::RangeSlice { order, lo, hi }
                    &&& order@ == self.order()
                },
                None => range_in(ValueKind::U32, text@) is None,
            },
    {
        match read_range(ValueKind::U32, text) {
            None => None,
            Some(range) => {
                let p = self.range_index.get(&range);
                assert(p@ =~= tags_counted(recs, range));
                Some(p)
            },
        }
    }

    fn insert(&mut self, id: u32, tag: &Tag, Ghost(recs): Ghost<Map<u32, TagModel>>)
        requires
            old(self).holds(recs),
            !recs.contains_key(id),
        ensures
            final(self).holds(recs.insert(id, tag@)),
    {
        let ghost after = recs.insert(id, tag@);
        self.range_index.insert(id, tag.count as i64);
        assert(self.range_index.value_of() =~= Map::new(
            |i: u32| after.contains_key(i),
            |i: u32| after[i].count as i64,
        ));
    }

    fn remove(&mut self, id: u32, tag: &Tag, Ghost(recs): Ghost<Map<u32, TagModel>>)
        requires
            old(self).holds(recs),
            recs.contains_pair(id, tag@),
        ensures
            final(self).holds(recs.remove(id)),
    {
        let ghost after = recs.remove(id);
        self.range_index.remove(id, tag.count as i64);
        assert(self.range_index.value_of() =~= Map::new(
            |i: u32| after.contains_key(i),
            |i: u32| after[i].count as i64,
        ));
    }
}

impl TagDbCountIndex {
    fn update(&mut self, id: u32, before: &Tag, after: &Tag, Ghost(recs): Ghost<Map<u32, TagModel>>)
        requires
            old(self).holds(recs),
            recs.contains_pair(id, before@),
        ensures
            final(self).holds(recs.insert(id, after@)),
    {
        let ghost next = recs.insert(id, after@);
        if before.count != after.count {
            self.range_index.remove(id, before.count as i64);
            self.range_index.insert(id, after.count as i64);
        }
        assert(self.range_index.value_of() =~= Map::new(
            |i: u32| next.contains_key(i),
            |i: u32| next[i].count as i64,
        ));
    }
}

/// The ids of the entries of `list` whose text meets `q`.
fn ids_matching(list: &Vec<GramEntry>, q: &TextQuery) -> (ids: Vec<u32>)
    ensures
        forall|id: u32|
            ids@.contains(id) <==> exists|j: int|
                0 <= j < list@.len() && (#[trigger] list@[j]).id == id && q@.accepts(list@[j].text@),
{
    let mut ids: Vec<u32> = Vec::new();
    let mut i: usize = 0;
    while i < list.len()
        invariant
            i <= list@.len(),
            forall|id: u32|
                ids@.contains(id) <==> exists|j: int|
                    0 <= j < i && (#[trigger] list@[j]).id == id && q@.accepts(list@[j].text@),
        decreases list@.len() - i,
    {
        let ghost before = ids@;
        let e = &list[i];
        let hit = q.accepts(&e.text);
        if hit {
            ids.push(e.id);
        }
        proof {
            assert forall|id: u32|
                ids@.contains(id) <==> exists|j: int|
                    0 <= j < i + 1 && (#[trigger] list@[j]).id == id && q@.accepts(
                        list@[j].text@,
                    ) by {
                if hit {
                    assert(ids@ == before.push(e.id));
                    assert(ids@[before.len() as int] == e.id);
                }
                if ids@.contains(id) {
                    if before.contains(id) {
                        let j = choose|j: int|
                            0 <= j < i && (#[trigger] list@[j]).id == id && q@.accepts(
                                list@[j].text@,
                            );
                        assert(0 <= j < i + 1 && list@[j].id == id);
                    } else {
                        assert(hit && id == e.id);
                        assert(list@[i as int].id == id);
                    }
                }
                if exists|j: int|
                    0 <= j < i + 1 && (#[trigger] list@[j]).id == id && q@.accepts(list@[j].text@) {
                    let j = choose|j: int|
                        0 <= j < i + 1 && (#[trigger] list@[j]).id == id && q@.accepts(
                            list@[j].text@,
                        );
                    if j < i {
                        assert(before.contains(id));
                        let k = choose|k: int| 0 <= k < before.len() && before[k] == id;
                        assert(ids@[k] == id);
                    } else {
                        assert(hit);
                    }
                }
            }
        }
        i += 1;
    }
    ids
}

/// The index of the tags by their names: by abbreviation, and by the
/// grams of one and two characters that the names hold.
pub struct TagDbNameIndex {
    abbreviations: KeyIndex,
    n1gram_index: NgramIndex,
    n2gram_index: NgramIndex,
}

/// What a text denotes among the tags `recs` by name: behind a slash, the
/// tags with that abbreviation, and nothing where there is none; else the
/// tags whose name meets the pattern that the text writes.
pub open spec fn name_lookup(recs: Map<u32, TagModel>, text: Seq<char>) -> Option<Set<u32>> {
    if text.len() > 0 && text[0] == '/' {
        if tags_abbreviated(recs, text.skip(1)) == Set::<u32>::empty() {
            None
        } else {
            Some(tags_abbreviated(recs, text.skip(1)))
        }
    } else {
        Some(tags_like(recs, pattern_of(text)))
    }
}

impl TagDbNameIndex {
    /// Whether the index holds the names of the tags `recs`.
    pub closed spec fn holds(&self, recs: Map<u32, TagModel>) -> bool {
        &&& self.abbreviations.wf()
        &&& forall|a: Seq<char>| #[trigger]
            self.abbreviations.posting(KeyModel::Text(a)) == tags_abbreviated(recs, a)
        &&& self.n1gram_index.wf()
        &&& self.n1gram_index.width() == 1
        &&& self.n1gram_index.entries() == named_entries(recs)
        &&& self.n2gram_index.wf()
        &&& self.n2gram_index.width() == 2
        &&& self.n2gram_index.entries() == named_entries(recs)
    }

    fn new() -> (r: TagDbNameIndex)
        ensures
            r.holds(Map::empty()),
    {
        let r = TagDbNameIndex {
            abbreviations: KeyIndex::new(),
            n1gram_index: NgramIndex::new(1),
            n2gram_index: NgramIndex::new(2),
        };
        proof {
            let recs = Map::<u32, TagModel>::empty();
            assert forall|a: Seq<char>| #[trigger]
                r.abbreviations.posting(KeyModel::Text(a)) == tags_abbreviated(recs, a) by {
                assert(tags_abbreviated(recs, a) =~= Set::<u32>::empty());
            }
            assert(named_entries(recs) =~= Set::<(Seq<char>, u32)>::empty());
        }
        r
    }

    /// The posting of the tags that `text` denotes by name.
    fn query<'s>(&'s self, text: &str, Ghost(recs): Ghost<Map<u32, TagModel>>) -> (r: Option<
        Queryable<'s>,
    >)
        requires
            self.holds(recs),
        ensures
            match r {
                Some(p) => {
                    &&& p.wf()
                    &&& name_lookup(recs, text@) == Some(p@)
                    &&& if text@.len() > 0 && text@[0] == '/' {
                        p is Borrowed
                    } else {
                        p is IdsOwned
                    }
                },
                None => name_lookup(recs, text@) is None,
            },
    {
        let s = chars_of(text);
        if s.len() > 0 && s[0] == '/' {
            let abv = string_of(&slice_chars(&s, 1, s.len()));
            assert(s@.skip(1) == s@.subrange(1, s@.len() as int));
            return self.abbreviations.get(&Key::Text(abv));
        }
        let query = TextQuery::parse(text);
        let q = query.text();
        let found = if q.len() == 0 {
            None
        } else if q.len() == 1 {
            self.n1gram_index.query(q)
        } else {
            self.n2gram_index.query(q)
        };
        let ghost want = tags_like(recs, query@);
        match found {
            None => {
                let p = Queryable::IdsOwned(Vec::new());
                proof {
                    assert forall|id: u32| !want.contains(id) by {
                        if want.contains(id) {
                            assert(named_entries(recs).contains((recs[id].name, id)));
                            lemma_accepts_has_part(query@, recs[id].name);
                        }
                    }
                    assert(p@ =~= want);
                }
                Some(p)
            },
            Some(list) => {
                let ids = ids_matching(list, &query);
                let p = Queryable::from_ids(&ids);
                proof {
                    assert forall|id: u32| p@.contains(id) <==> want.contains(id) by {
                        if ids@.contains(id) {
                            let j = choose|j: int|
                                0 <= j < list@.len() && (#[trigger] list@[j]).id == id
                                    && query@.accepts(list@[j].text@);
                            assert(named_entries(recs).contains((list@[j].text@, list@[j].id)));
                        }
                        if want.contains(id) {
                            let name = recs[id].name;
                            assert(named_entries(recs).contains((name, id)));
                            lemma_accepts_has_part(query@, name);
                            assert(list_has(list@, name, id));
                            let j = choose|j: int|
                                0 <= j < list@.len() && (#[trigger] list@[j]).text@ == name
                                    && list@[j].id == id;
                            assert(list@[j].id == id && query@.accepts(list@[j].text@));
                        }
                    }
                    assert(p@ =~= want);
                }
                Some(p)
            },
        }
    }

    fn insert(&mut self, id: u32, tag: &Tag, Ghost(recs): Ghost<Map<u32, TagModel>>)
        requires
            old(self).holds(recs),
            !recs.contains_key(id),
        ensures
            final(self).holds(recs.insert(id, tag@)),
    {
        let ghost after = recs.insert(id, tag@);
        let abv = abbreviate(tag.name.as_str());
        self.abbreviations.insert(id, &Key::Text(abv));
        let name = chars_of(tag.name.as_str());
        self.n1gram_index.insert(id, &name);
        self.n2gram_index.insert(id, &name);
        proof {
            assert forall|a: Seq<char>| #[trigger]
                self.abbreviations.posting(KeyModel::Text(a)) == tags_abbreviated(after, a) by {
                assert(old(self).abbreviations.posting(KeyModel::Text(a)) == tags_abbreviated(
                    recs,
                    a,
                ));
                assert(tags_abbreviated(after, a) =~= if a == abbreviation(tag@.name) {
                    tags_abbreviated(recs, a).insert(id)
                } else {
                    tags_abbreviated(recs, a)
                });
            }
            assert(named_entries(after) =~= named_entries(recs).insert((tag@.name, id)));
        }
    }

    fn remove(&mut self, id: u32, tag: &Tag, Ghost(recs): Ghost<Map<u32, TagModel>>)
        requires
            old(self).holds(recs),
            recs.contains_pair(id, tag@),
        ensures
            final(self).holds(recs.remove(id)),
    {
        let ghost after = recs.remove(id);
        let abv = abbreviate(tag.name.as_str());
        self.abbreviations.remove(id, &Key::Text(abv));
        let name = chars_of(tag.name.as_str());
        self.n1gram_index.remove(id, &name);
        self.n2gram_index.remove(id, &name);
        proof {
            assert forall|a: Seq<char>| #[trigger]
                self.abbreviations.posting(KeyModel::Text(a)) == tags_abbreviated(after, a) by {
                assert(old(self).abbreviations.posting(KeyModel::Text(a)) == tags_abbreviated(
                    recs,
                    a,
                ));
                assert(tags_abbreviated(after, a) =~= if a == abbreviation(tag@.name) {
                    tags_abbreviated(recs, a).remove(id)
                } else {
                    tags_abbreviated(recs, a)
                });
            }
            assert(named_entries(after) =~= named_entries(recs).remove((tag@.name, id)));
        }
    }
}

impl TagDbNameIndex {
    fn update(&mut self, id: u32, before: &Tag, after: &Tag, Ghost(recs): Ghost<Map<u32, TagModel>>)
        requires
            old(self).holds(recs),
            recs.contains_pair(id, before@),
        ensures
            final(self).holds(recs.insert(id, after@)),
    {
        let ghost next = recs.insert(id, after@);
        if before.name == after.name {
            proof {
                assert forall|a: Seq<char>| #[trigger]
                    self.abbreviations.posting(KeyModel::Text(a)) == tags_abbreviated(next, a) by {
                    assert(tags_abbreviated(next, a) =~= tags_abbreviated(recs, a));
                }
                assert(named_entries(next) =~= named_entries(recs));
            }
        } else {
            self.remove(id, before, Ghost(recs));
            self.insert(id, after, Ghost(recs.remove(id)));
            assert(recs.remove(id).insert(id, after@) =~= next);
        }
    }
}

/// What a term denotes among the tags `recs`: without a name of an index,
/// what its text denotes by name; under `count`, the tags whose count lies
/// in the range that the text writes, and nothing where it writes none;
/// under `id`, nothing. Any other name of an index is refused.
pub open spec fn tag_lookup(recs: Map<u32, TagModel>, term: TermModel) -> Result<
    Option<Set<u32>>,
    QueryError,
> {
    match term.ident {
        None => Ok(name_lookup(recs, term.text)),
        Some(i) => if i == "count"@ {
            Ok(
                match range_in(ValueKind::U32, term.text) {
                    Some(range) => Some(tags_counted(recs, range)),
                    None => None,
                },
            )
        } else if i == "id"@ {
            Ok(None)
        } else {
            Err(QueryError::UnknownIdentifier)
        },
    }
}

/// The form of the query that the indexes of the tags give for a term: one
/// posting, which is the stored posting of an abbreviation, a materialized
/// list of ids for a pattern, and a slice of the order `order` of the counts
/// for a range of counts.
pub open spec fn tag_form<'a>(order: Seq<u32>, term: TermModel, q: Query<Queryable<'a>>) -> bool {
    q.item matches Item::Single(p) && match term.ident {
        None => if term.text.len() > 0 && term.text[0] == '/' {
            p is Borrowed
        } else {
            p is IdsOwned
        },
        Some(i) => p matches Queryable::RangeSlice { order: o, lo, hi } && o@ == order,
    }
}

/// The indexes of the database of tags: by id, by count and by name.
pub struct TagDbIndex {
    ids: TagDbIdIndex,
    count: TagDbCountIndex,
    names: TagDbNameIndex,
    recs: Ghost<Map<u32, TagModel>>,
}

impl TagDbIndex {
    /// The tags that the indexes hold.
    pub closed spec fn tags(&self) -> Map<u32, TagModel> {
        self.recs@
    }

    /// The ids of the tags in the order of their counts; tags of equal
    /// count in the order of their ids.
    pub closed spec fn count_order(&self) -> Seq<u32> {
        self.count.order()
    }

    /// The invariant: each index holds the tags.
    pub closed spec fn sound(&self) -> bool {
        &&& self.ids.holds(self.recs@)
        &&& self.count.holds(self.recs@)
        &&& self.names.holds(self.recs@)
    }

    /// What the order of the counts holds: every tag once, counts rising.
    pub proof fn lemma_count_order(&self)
        requires
            self.sound(),
        ensures
            self.count_order().no_duplicates(),
            self.count_order().to_set() == self.tags().dom(),
            forall|i: int, j: int|
                0 <= i < j < self.count_order().len() ==> self.tags()[#[trigger] self.count_order()[i]].count
                    <= self.tags()[#[trigger] self.count_order()[j]].count,
    {
        self.count.lemma_order(self.recs@);
    }

    /// Indexes without tags.
    pub fn new() -> (r: TagDbIndex)
        ensures
            r.sound(),
            r.tags() == Map::<u32, TagModel>::empty(),
    {
        TagDbIndex {
            ids: TagDbIdIndex::new(),
            count: TagDbCountIndex::new(),
            names: TagDbNameIndex::new(),
            recs: Ghost(Map::empty()),
        }
    }

    /// The name of the tag `id`.
    pub fn name_of(&self, id: u32) -> (r: Option<&String>)
        requires
            self.sound(),
        ensures
            match r {
                Some(n) => self.tags().contains_key(id) && n@ == self.tags()[id].name,
                None => !self.tags().contains_key(id),
            },
    {
        self.ids.name_of(id, Ghost(self.recs@))
    }

    /// The lowest id of a tag named `name`.
    pub fn id_of(&self, name: &str) -> (r: Option<u32>)
        requires
            self.sound(),
        ensures
            match r {
                Some(id) => tags_named(self.tags(), name@).contains(id) && forall|x: u32|
                    x < id ==> !tags_named(self.tags(), name@).contains(x),
                None => tags_named(self.tags(), name@) == Set::<u32>::empty(),
            },
    {
        self.ids.id_of(name, Ghost(self.recs@))
    }

    /// The ids of the tags in the order of their counts.
    pub fn count_ids(&self) -> (r: &Vec<u32>)
        ensures
            r@ == self.count_order(),
    {
        self.count.ids()
    }
}

impl Index for TagDbIndex {
    type Record = Tag;

    open spec fn wf(&self) -> bool {
        self.sound()
    }

    open spec fn records(&self) -> Map<u32, TagModel> {
        self.tags()
    }

    open spec fn lookup(&self, term: TermModel) -> Result<Option<Set<u32>>, QueryError> {
        tag_lookup(self.tags(), term)
    }

    open spec fn room_for(&self, record: TagModel) -> bool {
        true
    }

    open spec fn follows(&self, after: TagDbIndex, gone: Option<TagModel>, come: Option<TagModel>) -> bool {
        true
    }

    fn has_room(&self, record: &Tag) -> (b: bool) {
        true
    }

    proof fn lemma_lookup_within(&self, term: TermModel) {
    }

    fn query<'s>(&'s self, ident: Option<&str>, text: &str, inverse: bool) -> (r: Result<
        Option<Query<Queryable<'s>>>,
        QueryError,
    >)
        ensures
            r matches Ok(Some(q)) ==> tag_form(
                self.count_order(),
                TermModel { ident: name_view(ident), text: text@ },
                q,
            ),
    {
        let found = match ident {
            None => self.names.query(text, Ghost(self.recs@)),
            Some(name) => {
                if same_text(name, "count") {
                    self.count.query(text, Ghost(self.recs@))
                } else if same_text(name, "id") {
                    None
                } else {
                    return Err(QueryError::UnknownIdentifier);
                }
            },
        };
        match found {
            None => Ok(None),
            Some(p) => Ok(Some(Query::new(Item::Single(p), inverse))),
        }
    }

    fn insert(&mut self, id: u32, record: &Tag) {
        self.ids.insert(id, record, Ghost(self.recs@));
        self.count.insert(id, record, Ghost(self.recs@));
        self.names.insert(id, record, Ghost(self.recs@));
        self.recs = Ghost(self.recs@.insert(id, record@));
    }

    fn remove(&mut self, id: u32, record: &Tag) {
        self.ids.remove(id, record, Ghost(self.recs@));
        self.count.remove(id, record, Ghost(self.recs@));
        self.names.remove(id, record, Ghost(self.recs@));
        self.recs = Ghost(self.recs@.remove(id));
    }

    fn update(&mut self, id: u32, before: &Tag, after: &Tag) {
        self.ids.update(id, before, after, Ghost(self.recs@));
        self.count.update(id, before, after, Ghost(self.recs@));
        self.names.update(id, before, after, Ghost(self.recs@));
        self.recs = Ghost(self.recs@.insert(id, after@));
    }
}

} // verus!
