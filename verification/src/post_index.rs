//! The indexes of the posts: one for each field, and the index of the tags
//! as the default.

use crate::db::Db;
use crate::field::{field_named, Field, FIELD_COUNT};
use crate::field_index::{field_form, field_lookup, first_posts, FieldIndex};
use crate::index::{name_view, Index, QueryError, TermModel};
use crate::post::{BooruPost, PostModel};
use crate::posting::Queryable;
use crate::query::Query;
use crate::range_index::{entries_map, RangeIndex, RangeQuery};
use crate::tag::{tagged_form, TagIndex};
use vstd::prelude::*;

verus! {

/// The indexes of the posts.
pub struct PostIndex {
    fields: Vec<FieldIndex>,
    tags: TagIndex,
}

/// A database of posts.
pub type PostDb = Db<PostIndex>;

/// What a term denotes among the posts: without a name of an index, what
/// the index of the tags says; under the name of a field, what the index of
/// the field says. Any other name is refused.
pub open spec fn post_lookup(tags: TagIndex, term: TermModel) -> Result<
    Option<Set<u32>>,
    QueryError,
> {
    match term.ident {
        None => tags.lookup(term),
        Some(name) => match field_named(name) {
            Some(f) => Ok(field_lookup(f, tags.posts(), term.text)),
            None => Err(QueryError::UnknownIdentifier),
        },
    }
}

impl PostIndex {
    /// The index of the tags.
    pub closed spec fn tag_index(&self) -> TagIndex {
        self.tags
    }

    /// The posts that the indexes hold.
    pub open spec fn posts(&self) -> Map<u32, PostModel> {
        self.tag_index().posts()
    }

    /// The index of the field at the place `i`.
    pub closed spec fn field_index(&self, i: int) -> FieldIndex {
        self.fields@[i]
    }

    /// The invariant: there is a sound index for each field and for the
    /// tags, and all hold the same posts.
    pub closed spec fn sound(&self) -> bool {
        &&& self.tags.sound()
        &&& self.fields@.len() == FIELD_COUNT
        &&& forall|i: int|
            0 <= i < FIELD_COUNT ==> (#[trigger] self.fields@[i]).sound()
                && self.fields@[i].field().ordinal() == i && self.fields@[i].posts()
                == self.tags.posts()
    }

    /// The form of the query that the indexes give for a term: without a
    /// name of an index the form that the index of the tags gives it, and
    /// under the name of a field the form that the index of the field gives.
    pub open spec fn form_of<'a>(&self, term: TermModel, q: Query<Queryable<'a>>) -> bool {
        match term.ident {
            None => tagged_form(
                self.posts(),
                self.tag_index().tags(),
                self.tag_index().count_order(),
                term.text,
                q,
            ),
            Some(name) => match field_named(name) {
                Some(f) => field_form(
                    f,
                    self.posts(),
                    self.field_index(f.ordinal()).order(),
                    term.text,
                    q,
                ),
                None => true,
            },
        }
    }

    /// What soundness says of the index of each field.
    pub proof fn lemma_fields(&self, f: Field)
        requires
            self.sound(),
        ensures
            self.tag_index().sound(),
            self.field_index(f.ordinal()).sound(),
            self.field_index(f.ordinal()).field() == f,
            self.field_index(f.ordinal()).posts() == self.posts(),
    {
        let g = self.fields@[f.ordinal()].field();
        assert(g.ordinal() == f.ordinal());
    }

    /// Sound indexes find each post: the index of each field under the
    /// value that the post has in the field, and the index of the tags under
    /// each tag of the post.
    pub proof fn lemma_finds_each_post(&self, id: u32, f: Field)
        requires
            self.sound(),
            self.posts().contains_key(id),
        ensures
            self.field_index(f.ordinal()).filed(f.value(self.posts()[id])).contains(id),
            forall|t: Seq<char>|
                self.posts()[id].tags.contains(t) ==> #[trigger] self.tag_index().filed(t).contains(id),
    {
        self.lemma_fields(f);
        self.field_index(f.ordinal()).lemma_files_each_post(id);
        assert forall|t: Seq<char>| self.posts()[id].tags.contains(t) implies #[trigger] self.tag_index().filed(
            t,
        ).contains(id) by {
            self.tag_index().lemma_files_each_tag(id, t);
        }
    }

    /// What sound indexes hold is a matter of their posts alone: two that
    /// hold the same posts, by whatever inserts, updates and removals they
    /// came to hold them, file the same ids under each value of each field
    /// and under each tag, keep the same orders, and have the same tags with
    /// the same counts in their databases of tags.
    pub proof fn lemma_same_posts_same_state(&self, other: &PostIndex)
        requires
            self.sound(),
            other.sound(),
            self.posts() == other.posts(),
        ensures
            forall|f: Field, v: i64| #[trigger]
                self.field_index(f.ordinal()).filed(v) == other.field_index(f.ordinal()).filed(v),
            forall|f: Field| #[trigger]
                self.field_index(f.ordinal()).order() == other.field_index(f.ordinal()).order(),
            forall|t: Seq<char>| #[trigger] self.tag_index().filed(t) == other.tag_index().filed(t),
            forall|tag: crate::tag_db::TagModel| #[trigger]
                self.tag_index().tags().contains_value(tag) == other.tag_index().tags().contains_value(
                    tag,
                ),
    {
        assert forall|f: Field, v: i64| #[trigger]
            self.field_index(f.ordinal()).filed(v) == other.field_index(f.ordinal()).filed(v) by {
            self.lemma_fields(f);
            other.lemma_fields(f);
            self.field_index(f.ordinal()).lemma_same_posts_same_files(
                &other.field_index(f.ordinal()),
            );
        }
        assert forall|f: Field| #[trigger]
            self.field_index(f.ordinal()).order() == other.field_index(f.ordinal()).order() by {
            self.lemma_fields(f);
            other.lemma_fields(f);
            self.field_index(f.ordinal()).lemma_same_posts_same_files(
                &other.field_index(f.ordinal()),
            );
        }
        self.tag_index().lemma_same_posts_same_tags(&other.tag_index());
    }

    /// Indexes without posts.
    pub fn new() -> (r: PostIndex)
        ensures
            r.sound(),
            r.posts() == Map::<u32, PostModel>::empty(),
    {
        let tags = TagIndex::new();
        let mut fields: Vec<FieldIndex> = Vec::new();
        let mut i: usize = 0;
        while i < FIELD_COUNT
            invariant
                i <= FIELD_COUNT,
                fields@.len() == i,
                forall|j: int|
                    0 <= j < i ==> (#[trigger] fields@[j]).sound() && fields@[j].field().ordinal()
                        == j && fields@[j].posts() == Map::<u32, PostModel>::empty(),
            decreases FIELD_COUNT - i,
        {
            fields.push(FieldIndex::new(Field::at(i)));
            i += 1;
        }
        PostIndex { fields, tags }
    }

    /// The index of the field `f`.
    pub fn field(&self, f: Field) -> (r: &FieldIndex)
        requires
            self.sound(),
        ensures
            *r == self.field_index(f.ordinal()),
            r.sound(),
            r.field() == f,
            r.posts() == self.posts(),
    {
        proof {
            self.lemma_fields(f);
        }
        &self.fields[f.position()]
    }

    /// The index of the tags.
    pub fn tags(&self) -> (r: &TagIndex)
        ensures
            *r == self.tag_index(),
            self.sound() ==> r.sound(),
    {
        &self.tags
    }

    /// The index of the ids of the posts.
    pub fn id_index(&self) -> (r: IdIndex<'_>)
        requires
            self.sound(),
        ensures
            r.wf(),
            r.posts() == self.posts(),
    {
        IdIndex { index: self.field(Field::Id) }
    }
}

/// The index between the dense ids of the posts and the ids that the posts carry.
pub struct IdIndex<'a> {
    index: &'a FieldIndex,
}

impl<'a> IdIndex<'a> {
    /// The posts that the index holds.
    pub closed spec fn posts(&self) -> Map<u32, PostModel> {
        self.index.posts()
    }

    /// The invariant: the index holds each post under the id it carries.
    pub closed spec fn wf(&self) -> bool {
        self.index.sound() && self.index.field() == Field::Id
    }

    /// The id that the post with the dense id `id` carries.
    pub fn id_to_post_id(&self, id: u32) -> (r: Option<u32>)
        requires
            self.wf(),
        ensures
            r == if self.posts().contains_key(id) {
                Some(self.posts()[id].id)
            } else {
                None
            },
    {
        match self.index.range() {
            None => None,
            Some(range_index) => match range_index.value(id) {
                Some(v) => Some(v as u32),
                None => None,
            },
        }
    }

    /// The dense id of a post that carries the id `post_id`: the lowest, if
    /// there are several.
    pub fn post_id_to_id(&self, post_id: u32) -> (r: Option<u32>)
        requires
            self.wf(),
        ensures
            match r {
                Some(id) => self.posts().contains_key(id) && self.posts()[id].id == post_id
                    && forall|x: u32|
                    self.posts().contains_key(x) && self.posts()[x].id == post_id ==> id <= x,
                None => forall|x: u32| self.posts().contains_key(x) ==> self.posts()[x].id != post_id,
            },
    {
        let range_index = match self.index.range() {
            None => {
                return None;
            },
            Some(range_index) => range_index,
        };
        let q = range_index.get(&RangeQuery::Exactly(post_id as i64));
        match q {
            Queryable::RangeSlice { order, lo, hi } => {
                if lo < hi {
                    let id = order[lo];
                    proof {
                        range_index.lemma_order();
                        let part = order@.subrange(lo as int, hi as int);
                        assert(part[0] == id);
                        assert(part.to_set().contains(id));
                        assert forall|x: u32|
                            self.posts().contains_key(x) && self.posts()[x].id == post_id implies id
                            <= x by {
                            assert(q@.contains(x));
                            assert(part.contains(x));
                            let j = choose|j: int| 0 <= j < part.len() && part[j] == x;
                            assert(order@[lo + j] == x);
                            if j > 0 {
                                assert(crate::range_index::entry_lt(
                                    range_index.values()[lo as int],
                                    order@[lo as int],
                                    range_index.values()[lo + j],
                                    order@[lo + j],
                                ));
                            }
                        }
                    }
                    Some(id)
                } else {
                    proof {
                        assert(order@.subrange(lo as int, hi as int).to_set() =~= Set::<u32>::empty());
                        assert forall|x: u32| self.posts().contains_key(x) implies self.posts()[x].id
                            != post_id by {
                            if self.posts()[x].id == post_id {
                                assert(q@.contains(x));
                            }
                        }
                    }
                    None
                }
            },
            _ => None,
        }
    }
}

impl Index for PostIndex {
    type Record = BooruPost;

    open spec fn wf(&self) -> bool {
        self.sound()
    }

    open spec fn records(&self) -> Map<u32, PostModel> {
        self.posts()
    }

    open spec fn room_for(&self, record: PostModel) -> bool {
        self.tag_index().room_for(record)
    }

    open spec fn lookup(&self, term: TermModel) -> Result<Option<Set<u32>>, QueryError> {
        post_lookup(self.tag_index(), term)
    }

    open spec fn follows(
        &self,
        after: PostIndex,
        gone: Option<PostModel>,
        come: Option<PostModel>,
    ) -> bool {
        self.tag_index().follows(after.tag_index(), gone, come)
    }

    fn has_room(&self, record: &BooruPost) -> (b: bool) {
        self.tags.has_room(record)
    }

    proof fn lemma_lookup_within(&self, term: TermModel) {
        self.tag_index().lemma_lookup_within(term);
    }

    fn query<'s>(&'s self, ident: Option<&str>, text: &str, inverse: bool) -> (r: Result<
        Option<Query<Queryable<'s>>>,
        QueryError,
    >)
        ensures
            r matches Ok(Some(q)) ==> self.form_of(
                TermModel { ident: name_view(ident), text: text@ },
                q,
            ),
    {
        match ident {
            None => self.tags.query(None, text, inverse),
            Some(name) => match Field::from_name(name) {
                None => Err(QueryError::UnknownIdentifier),
                Some(f) => {
                    proof {
                        self.lemma_fields(f);
                    }
                    self.fields[f.position()].query(ident, text, inverse)
                },
            },
        }
    }

    fn insert(&mut self, id: u32, record: &BooruPost) {
        let ghost before = self.tags.posts();
        let ghost after = before.insert(id, record@);
        let mut i: usize = 0;
        while i < FIELD_COUNT
            invariant
                i <= FIELD_COUNT,
                self.tags == old(self).tags,
                self.fields@.len() == FIELD_COUNT,
                !before.contains_key(id),
                after == before.insert(id, record@),
                forall|j: int|
                    0 <= j < FIELD_COUNT ==> (#[trigger] self.fields@[j]).sound()
                        && self.fields@[j].field().ordinal() == j && self.fields@[j].posts() == (if j
                        < i {
                        after
                    } else {
                        before
                    }),
            decreases FIELD_COUNT - i,
        {
            let ghost prev = self.fields@;
            self.fields[i].insert(id, record);
            proof {
                assert forall|j: int| 0 <= j < FIELD_COUNT implies (#[trigger] self.fields@[j]).sound()
                    && self.fields@[j].field().ordinal() == j && self.fields@[j].posts() == (if j < i
                    + 1 {
                    after
                } else {
                    before
                }) by {
                    if j != i {
                        assert(self.fields@[j] == prev[j]);
                    }
                }
            }
            i += 1;
        }
        self.tags.insert(id, record);
    }

    fn remove(&mut self, id: u32, record: &BooruPost) {
        let ghost before = self.tags.posts();
        let ghost after = before.remove(id);
        let mut i: usize = 0;
        while i < FIELD_COUNT
            invariant
                i <= FIELD_COUNT,
                self.tags == old(self).tags,
                self.fields@.len() == FIELD_COUNT,
                before.contains_pair(id, record@),
                after == before.remove(id),
                forall|j: int|
                    0 <= j < FIELD_COUNT ==> (#[trigger] self.fields@[j]).sound()
                        && self.fields@[j].field().ordinal() == j && self.fields@[j].posts() == (if j
                        < i {
                        after
                    } else {
                        before
                    }),
            decreases FIELD_COUNT - i,
        {
            let ghost prev = self.fields@;
            self.fields[i].remove(id, record);
            proof {
                assert forall|j: int| 0 <= j < FIELD_COUNT implies (#[trigger] self.fields@[j]).sound()
                    && self.fields@[j].field().ordinal() == j && self.fields@[j].posts() == (if j < i
                    + 1 {
                    after
                } else {
                    before
                }) by {
                    if j != i {
                        assert(self.fields@[j] == prev[j]);
                    }
                }
            }
            i += 1;
        }
        self.tags.remove(id, record);
    }

    fn update(&mut self, id: u32, before: &BooruPost, after: &BooruPost) {
        let ghost recs0 = self.tags.posts();
        let ghost recs1 = recs0.insert(id, after@);
        let mut i: usize = 0;
        while i < FIELD_COUNT
            invariant
                i <= FIELD_COUNT,
                self.tags == old(self).tags,
                self.fields@.len() == FIELD_COUNT,
                recs0.contains_pair(id, before@),
                recs1 == recs0.insert(id, after@),
                forall|j: int|
                    0 <= j < FIELD_COUNT ==> (#[trigger] self.fields@[j]).sound()
                        && self.fields@[j].field().ordinal() == j && self.fields@[j].posts() == (if j
                        < i {
                        recs1
                    } else {
                        recs0
                    }),
            decreases FIELD_COUNT - i,
        {
            let ghost prev = self.fields@;
            self.fields[i].update(id, before, after);
            proof {
                assert forall|j: int| 0 <= j < FIELD_COUNT implies (#[trigger] self.fields@[j]).sound()
                    && self.fields@[j].field().ordinal() == j && self.fields@[j].posts() == (if j < i
                    + 1 {
                    recs1
                } else {
                    recs0
                }) by {
                    if j != i {
                        assert(self.fields@[j] == prev[j]);
                    }
                }
            }
            i += 1;
        }
        self.tags.update(id, before, after);
    }
}

/// Gathers the ids that posts carry, for an index that is built in one go.
pub struct IdIndexLoader {
    entries: Vec<(i64, u32)>,
    posts: Ghost<Map<u32, PostModel>>,
}

impl IdIndexLoader {
    /// The posts that were added.
    pub closed spec fn posts(&self) -> Map<u32, PostModel> {
        self.posts@
    }

    /// The invariant: the entries are the ids that the posts carry.
    pub closed spec fn wf(&self) -> bool {
        entries_map(self.entries@) == Map::new(
            |id: u32| self.posts@.contains_key(id),
            |id: u32| Field::Id.value(self.posts@[id]),
        )
    }

    /// A loader without posts.
    pub fn new() -> (r: IdIndexLoader)
        ensures
            r.wf(),
            r.posts() == Map::<u32, PostModel>::empty(),
    {
        let r = IdIndexLoader { entries: Vec::new(), posts: Ghost(Map::empty()) };
        assert(entries_map(r.entries@) =~= Map::new(
            |id: u32| r.posts@.contains_key(id),
            |id: u32| Field::Id.value(r.posts@[id]),
        ));
        r
    }

    /// Adds the post `post` under the id `id`; of two posts under one id
    /// the later one counts.
    pub fn add(&mut self, id: u32, post: &BooruPost)
        requires
            old(self).wf(),
        ensures
            final(self).wf(),
            final(self).posts() == old(self).posts().insert(id, post@),
    {
        let ghost before = self.entries@;
        let ghost after = self.posts@.insert(id, post@);
        self.entries.push((Field::Id.project(post), id));
        self.posts = Ghost(after);
        proof {
            assert(self.entries@.drop_last() == before);
            assert(entries_map(self.entries@) =~= Map::new(
                |i: u32| after.contains_key(i),
                |i: u32| Field::Id.value(after[i]),
            ));
        }
    }

    /// The index of the ids of the posts that were added.
    pub fn load(self) -> (r: FieldIndex)
        requires
            self.wf(),
        ensures
            r.sound(),
            r.field() == Field::Id,
            r.posts() == self.posts(),
    {
        let range_index = RangeIndex::from_entries(&self.entries);
        FieldIndex::from_range(Field::Id, range_index, Ghost(self.posts@))
    }
}

/// Takes posts into an index of the tags before the index serves queries.
pub struct TagIndexLoader {
    index: TagIndex,
}

impl TagIndexLoader {
    /// The index as it stands.
    pub closed spec fn index(&self) -> TagIndex {
        self.index
    }

    /// A loader without posts.
    pub fn new() -> (r: TagIndexLoader)
        ensures
            r.index().sound(),
            r.index().posts() == Map::<u32, PostModel>::empty(),
    {
        TagIndexLoader { index: TagIndex::new() }
    }

    /// Adds the post `post` under the id `id`, where the index has room
    /// for it; says whether it had.
    pub fn add(&mut self, id: u32, post: &BooruPost) -> (added: bool)
        requires
            old(self).index().sound(),
            !old(self).index().posts().contains_key(id),
        ensures
            final(self).index().sound(),
            added == old(self).index().room_for(post@),
            added ==> final(self).index().posts() == old(self).index().posts().insert(id, post@),
            !added ==> final(self).index() == old(self).index(),
    {
        if self.index.has_room(post) {
            self.index.insert(id, post);
            true
        } else {
            false
        }
    }

    /// The index of the posts that were added.
    pub fn load(self) -> (r: TagIndex)
        ensures
            r == self.index(),
    {
        self.index
    }
}

/// Builds a database of `posts`, each under its place in the list as its
/// id. The build ends before the first post for which there is no id or
/// no room; the number of posts that were taken in comes with the database.
pub fn load_posts(posts: &Vec<BooruPost>) -> (r: (PostDb, usize))
    ensures
        r.0.wf(),
        r.1 <= posts@.len(),
        r.0.records() == first_posts(posts@, r.1 as int),
        r.1 < posts@.len() ==> r.1 >= u32::MAX || !r.0.index_view().room_for(posts@[r.1 as int]@),
{
    let mut tags = TagIndex::new();
    let mut n: usize = 0;
    proof {
        assert(tags.posts() =~= first_posts(posts@, 0));
    }
    while n < posts.len()
        invariant
            n <= posts@.len(),
            n <= u32::MAX,
            tags.sound(),
            tags.posts() == first_posts(posts@, n as int),
        ensures
            n <= posts@.len(),
            n <= u32::MAX,
            tags.sound(),
            tags.posts() == first_posts(posts@, n as int),
            n < posts@.len() ==> n >= u32::MAX || !tags.room_for(posts@[n as int]@),
        decreases posts@.len() - n,
    {
        if n >= u32::MAX as usize {
            break ;
        }
        if !tags.has_room(&posts[n]) {
            break ;
        }
        tags.insert(n as u32, &posts[n]);
        proof {
            assert(tags.posts() =~= first_posts(posts@, n + 1));
        }
        n += 1;
    }
    let mut fields: Vec<FieldIndex> = Vec::new();
    let mut i: usize = 0;
    while i < FIELD_COUNT
        invariant
            i <= FIELD_COUNT,
            n <= posts@.len(),
            n <= u32::MAX,
            fields@.len() == i,
            forall|j: int|
                0 <= j < i ==> (#[trigger] fields@[j]).sound() && fields@[j].field().ordinal() == j
                    && fields@[j].posts() == first_posts(posts@, n as int),
        decreases FIELD_COUNT - i,
    {
        fields.push(FieldIndex::load(Field::at(i), posts, n));
        i += 1;
    }
    let index = PostIndex { fields, tags };
    proof {
        assert(index.records().dom() =~= Set::new(|id: u32| id < n as u32));
    }
    (Db::with_index(index, n as u32), n)
}

} // verus!
