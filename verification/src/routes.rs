//! Searches as the service answers them: a query text, a sort order and a
//! page come in, the number of matches and one page of them go out.

use crate::db::Db;
use crate::field::Field;
use crate::index::{Index, QueryError};
use crate::num::{decimal_digits, decimal_text};
use crate::parser::{query_in, ParseError, QueryModel};
use crate::post::PostModel;
use crate::post_index::PostDb;
use crate::posting::{directed, matches_in, page_of};
use crate::query::Query;
use crate::tag::posts_tagged;
use crate::tag_db::TagModel;
use crate::text::{chars_of, same_text, string_of};
use vstd::prelude::*;

verus! {

/// Why a search was not answered.
#[derive(Clone, Copy, Debug, PartialEq, Eq, Structural)]
pub enum SearchError {
    /// The text is no query.
    Parse(ParseError),
    /// The index refuses a term of the query.
    Query(QueryError),
}

/// The order of the posts of a page.
#[derive(Clone, Copy, Debug, PartialEq, Eq, Structural)]
pub enum Sort {
    IdAsc,
    IdDesc,
    ScoreAsc,
    ScoreDesc,
}

/// The order that `t` names: `id` stands for `id_desc` and `score` for `score_desc`.
pub open spec fn sort_named(t: Seq<char>) -> Option<Sort> {
    if t == "id_asc"@ {
        Some(Sort::IdAsc)
    } else if t == "id_desc"@ || t == "id"@ {
        Some(Sort::IdDesc)
    } else if t == "score_asc"@ {
        Some(Sort::ScoreAsc)
    } else if t == "score_desc"@ || t == "score"@ {
        Some(Sort::ScoreDesc)
    } else {
        None
    }
}

impl Sort {
    /// The order that `name` names.
    pub fn from_name(name: &str) -> (r: Option<Sort>)
        ensures
            r == sort_named(name@),
    {
        if same_text(name, "id_asc") {
            Some(Sort::IdAsc)
        } else if same_text(name, "id_desc") || same_text(name, "id") {
            Some(Sort::IdDesc)
        } else if same_text(name, "score_asc") {
            Some(Sort::ScoreAsc)
        } else if same_text(name, "score_desc") || same_text(name, "score") {
            Some(Sort::ScoreDesc)
        } else {
            None
        }
    }

    /// The field by whose values the order goes.
    pub open spec fn field(self) -> Field {
        match self {
            Sort::IdAsc | Sort::IdDesc => Field::Id,
            Sort::ScoreAsc | Sort::ScoreDesc => Field::Score,
        }
    }

    /// Whether the order goes from high to low.
    pub open spec fn descends(self) -> bool {
        self == Sort::IdDesc || self == Sort::ScoreDesc
    }

    /// The field by whose values the order goes.
    pub fn sort_field(&self) -> (f: Field)
        ensures
            f == self.field(),
    {
        match self {
            Sort::IdAsc | Sort::IdDesc => Field::Id,
            Sort::ScoreAsc | Sort::ScoreDesc => Field::Score,
        }
    }

    /// Whether the order goes from high to low.
    pub fn reverse(&self) -> (b: bool)
        ensures
            b == self.descends(),
    {
        match self {
            Sort::IdDesc | Sort::ScoreDesc => true,
            _ => false,
        }
    }
}

impl Default for Sort {
    fn default() -> (s: Sort)
        ensures
            s == Sort::IdDesc,
    {
        Sort::IdDesc
    }
}

/// The number of posts on a page where the request names none.
pub fn posts_default_limit() -> (n: usize)
    ensures
        n == 20,
{
    20
}

/// A request for a page of posts.
pub struct GetPostsQuery {
    pub query: String,
    pub sort: Sort,
    pub page: usize,
    pub limit: usize,
}

impl GetPostsQuery {
    /// The request for the first page of the matches of `query`, in the
    /// default order and with the default number of posts.
    pub fn new(query: String) -> (r: GetPostsQuery)
        ensures
            r.query == query,
            r.sort == Sort::IdDesc,
            r.page == 0,
            r.limit == 20,
    {
        GetPostsQuery { query, sort: Sort::IdDesc, page: 0, limit: posts_default_limit() }
    }
}

/// How long the parts of a search for posts took, in nanoseconds.
#[derive(Clone, Copy, Debug, PartialEq, Eq, Structural)]
pub struct PostsResponseTimings {
    pub query: u64,
    pub sort: u64,
}

impl Default for PostsResponseTimings {
    fn default() -> (t: PostsResponseTimings)
        ensures
            t == (PostsResponseTimings { query: 0, sort: 0 }),
    {
        PostsResponseTimings { query: 0, sort: 0 }
    }
}

/// The answer to a request for posts.
pub struct PostsResponse {
    pub matched: usize,
    pub url: String,
    pub timings: PostsResponseTimings,
}

/// The ids of `ids` in decimal, with commas between.
pub open spec fn joined_ids(ids: Seq<u32>) -> Seq<char>
    decreases ids.len(),
{
    if ids.len() == 0 {
        Seq::empty()
    } else if ids.len() == 1 {
        decimal_digits(ids[0] as nat)
    } else {
        joined_ids(ids.drop_last()) + seq![','] + decimal_digits(ids.last() as nat)
    }
}

/// The address under which the posts `ids` are shown in their order.
pub open spec fn posts_url_of(ids: Seq<u32>) -> Seq<char> {
    "https://danbooru.donmai.us/posts?tags=id:"@ + joined_ids(ids) + "+order:custom"@
}

/// The address under which the posts `post_ids` are shown in their order.
pub fn posts_url(post_ids: &Vec<u32>) -> (url: String)
    ensures
        url@ == posts_url_of(post_ids@),
{
    let mut out = chars_of("https://danbooru.donmai.us/posts?tags=id:");
    let ghost head = out@;
    let mut i: usize = 0;
    while i < post_ids.len()
        invariant
            i <= post_ids@.len(),
            out@ == head + joined_ids(post_ids@.take(i as int)),
        decreases post_ids@.len() - i,
    {
        let ghost done = post_ids@.take(i as int);
        let ghost before = out@;
        if i > 0 {
            out.push(',');
        }
        let mut digits = decimal_text(post_ids[i]);
        out.append(&mut digits);
        proof {
            let next = post_ids@.take(i + 1);
            assert(next.drop_last() == done);
            assert(next.last() == post_ids@[i as int]);
            if i == 0 {
                assert(done.len() == 0);
                assert(joined_ids(next) == decimal_digits(post_ids@[i as int] as nat));
                assert(out@ == head + joined_ids(next));
            } else {
                assert(joined_ids(next) == joined_ids(done) + seq![','] + decimal_digits(
                    post_ids@[i as int] as nat,
                ));
                assert(out@ == head + joined_ids(next));
            }
        }
        i += 1;
    }
    let mut tail = chars_of("+order:custom");
    out.append(&mut tail);
    proof {
        assert(post_ids@.take(i as int) == post_ids@);
    }
    string_of(&out)
}

impl PostsResponse {
    /// The answer for `matched` matches, of which `post_ids` are on the page.
    pub fn new(matched: usize, post_ids: &Vec<u32>, timings: PostsResponseTimings) -> (r:
        PostsResponse)
        ensures
            r.matched == matched,
            r.url@ == posts_url_of(post_ids@),
            r.timings == timings,
    {
        PostsResponse { matched, url: posts_url(post_ids), timings }
    }
}

/// A page of posts: how many posts match in all, and the ids that the
/// posts of the page carry.
pub struct PostsPage {
    pub matched: u64,
    pub post_ids: Vec<u32>,
}

/// The product of `page` and `limit`, or the largest number where it does not fit.
pub fn page_offset(page: usize, limit: usize) -> (offset: usize)
    ensures
        offset == if page * limit <= usize::MAX {
            page * limit
        } else {
            usize::MAX as int
        },
{
    match page.checked_mul(limit) {
        Some(v) => v,
        None => usize::MAX,
    }
}

/// What a query matches in a database: what it denotes among the live
/// ids, or every live id where it denotes nothing.
pub open spec fn matches_of<I: Index>(db: Db<I>, m: QueryModel) -> Set<u32> {
    match m.denote(db.val(), db.live()) {
        Some(s) => s,
        None => db.live(),
    }
}

/// How a search by the text `text` ends in a database, and with which
/// matches: refused where the text is no query, and else where the index
/// refuses a term of the query.
pub open spec fn search_outcome<I: Index>(db: Db<I>, text: Seq<char>) -> Result<
    Set<u32>,
    SearchError,
> {
    match query_in(text) {
        Err(e) => Err(SearchError::Parse(e)),
        Ok(m) => if m.all_terms(db.accepts()) {
            Ok(matches_of(db, m))
        } else {
            Err(SearchError::Query(QueryError::UnknownIdentifier))
        },
    }
}

/// Finds the matches of the query that `text` writes.
pub fn search<'s, I: Index>(db: &'s Db<I>, text: &str) -> (r: Result<
    crate::result::EvalResult<'s>,
    SearchError,
>)
    requires
        db.wf(),
    ensures
        match r {
            Ok(e) => e.wf() && search_outcome(*db, text@) == Ok::<Set<u32>, SearchError>(e@)
                && e@.subset_of(db.live()),
            Err(e) => search_outcome(*db, text@) == Err::<Set<u32>, SearchError>(e),
        },
{
    let parsed = match Query::parse(text) {
        Err(e) => {
            return Err(SearchError::Parse(e));
        },
        Ok(q) => q,
    };
    let ghost q0 = parsed;
    let query = parsed.simplified();
    proof {
        crate::parser::lemma_model_denotes(q0, db.val(), db.live());
        crate::parser::lemma_model_terms(q0, db.accepts());
        assert(query.denote(db.term_val(), db.live()) == q0.denote(db.term_val(), db.live()));
        assert(query.all_atoms(db.resolvable()) == q0.all_atoms(db.resolvable()));
    }
    match db.query(&query) {
        Err(e) => Err(SearchError::Query(e)),
        Ok(result) => Ok(result),
    }
}

/// The ids that the posts `ids` carry.
pub open spec fn carried_ids(recs: Map<u32, PostModel>, ids: Seq<u32>) -> Seq<u32> {
    Seq::new(ids.len(), |k: int| recs[ids[k]].id)
}

/// The page of `set` that a request asks for, in the order `order`.
pub open spec fn page_in(order: Seq<u32>, set: Set<u32>, descends: bool, page: usize, limit: usize) -> Seq<
    u32,
> {
    page_of(matches_in(directed(order, descends), set), (page * limit) as nat, limit as nat)
}

/// Takes the page of `result` that a request asks for.
fn take_page(
    result: &crate::result::EvalResult<'_>,
    order: &Vec<u32>,
    descends: bool,
    page: usize,
    limit: usize,
) -> (ids: Vec<u32>)
    ensures
        ids@ == page_in(order@, result@, descends, page, limit),
        forall|k: int| 0 <= k < ids@.len() ==> result@.contains(#[trigger] ids@[k]),
{
    let offset = page_offset(page, limit);
    let n = order.len();
    let ids = result.get_sorted(order, offset, limit, descends);
    proof {
        let set = result@;
        let dir = directed(order@, descends);
        let full = matches_in(dir, set);
        let want = page_in(order@, set, descends, page, limit);
        dir.lemma_filter_len(|id: u32| set.contains(id));
        assert(dir.len() == order@.len());
        assert(full.len() <= n);
        if page * limit > usize::MAX {
            assert(page_of(full, offset as nat, limit as nat) =~= want);
        }
        assert(ids@ == want);
        assert forall|k: int| 0 <= k < ids@.len() implies set.contains(#[trigger] ids@[k]) by {
            let lo = if page * limit <= full.len() {
                page * limit
            } else {
                full.len() as int
            };
            assert(want[k] == full[lo + k]);
            dir.lemma_filter_pred(|id: u32| set.contains(id), lo + k);
        }
    }
    ids
}

/// The answer to a request for posts: refused as the search by its text
/// is, and else the number of the matches and the ids that the posts of the
/// page carry, in the order of the field that the request sorts by.
pub open spec fn posts_answer(db: PostDb, request: GetPostsQuery, r: Result<PostsPage, SearchError>) -> bool {
    match search_outcome(db, request.query@) {
        Err(e) => r == Err::<PostsPage, SearchError>(e),
        Ok(set) => r matches Ok(page) && page.matched == set.len() && page.post_ids@ == carried_ids(
            db.records(),
            page_in(
                db.index_view().field_index(request.sort.field().ordinal()).order(),
                set,
                request.sort.descends(),
                request.page,
                request.limit,
            ),
        ),
    }
}

/// The page of the matches `result` that a request asks for: the number
/// of the matches, and the ids that the posts of the page carry, in the
/// order of the field by which `sort` goes.
pub fn posts_page(
    db: &PostDb,
    result: &crate::result::EvalResult<'_>,
    sort: Sort,
    page: usize,
    limit: usize,
) -> (r: PostsPage)
    requires
        db.wf(),
        result.wf(),
        result@.subset_of(db.live()),
    ensures
        r.matched == result@.len(),
        r.post_ids@ == carried_ids(
            db.records(),
            page_in(
                db.index_view().field_index(sort.field().ordinal()).order(),
                result@,
                sort.descends(),
                page,
                limit,
            ),
        ),
{
    proof {
        db.lemma_live();
    }
    let matched = result.matched();
    let index = db.index();
    let field_index = index.field(sort.sort_field());
    let mut post_ids: Vec<u32> = Vec::new();
    match field_index.range() {
        None => {},
        Some(range_index) => {
            let ids = take_page(result, range_index.ids(), sort.reverse(), page, limit);
            let id_index = index.id_index();
            let mut k: usize = 0;
            while k < ids.len()
                invariant
                    k <= ids@.len(),
                    id_index.wf(),
                    id_index.posts() == db.records(),
                    forall|j: int| 0 <= j < ids@.len() ==> db.records().contains_key(#[trigger] ids@[j]),
                    post_ids@ == carried_ids(db.records(), ids@.take(k as int)),
                decreases ids@.len() - k,
            {
                match id_index.id_to_post_id(ids[k]) {
                    Some(post_id) => {
                        post_ids.push(post_id);
                    },
                    None => {},
                }
                proof {
                    assert(db.records().contains_key(ids@[k as int]));
                    assert(ids@.take(k + 1) == ids@.take(k as int).push(ids@[k as int]));
                    assert(post_ids@ =~= carried_ids(db.records(), ids@.take(k + 1)));
                }
                k += 1;
            }
            proof {
                assert(ids@.take(k as int) == ids@);
            }
        },
    }
    PostsPage { matched, post_ids }
}

/// Answers a request for posts: reads the query, finds the matches, and
/// takes the page of them in the order of the field that the request sorts by.
pub fn search_posts(db: &PostDb, request: &GetPostsQuery) -> (r: Result<PostsPage, SearchError>)
    requires
        db.wf(),
    ensures
        posts_answer(*db, *request, r),
{
    match search(db, request.query.as_str()) {
        Err(e) => Err(e),
        Ok(result) => {
            let page = posts_page(db, &result, request.sort, request.page, request.limit);
            let r = Ok(page);
            assert(r matches Ok(p) && p == page);
            r
        },
    }
}

/// The order of the tags of a page.
#[derive(Clone, Copy, Debug, PartialEq, Eq, Structural)]
pub enum TagsSort {
    CountAsc,
    CountDesc,
}

/// The order that `t` names: `count` stands for `count_desc`.
pub open spec fn tags_sort_named(t: Seq<char>) -> Option<TagsSort> {
    if t == "count_asc"@ {
        Some(TagsSort::CountAsc)
    } else if t == "count_desc"@ || t == "count"@ {
        Some(TagsSort::CountDesc)
    } else {
        None
    }
}

impl TagsSort {
    /// The order that `name` names.
    pub fn from_name(name: &str) -> (r: Option<TagsSort>)
        ensures
            r == tags_sort_named(name@),
    {
        if same_text(name, "count_asc") {
            Some(TagsSort::CountAsc)
        } else if same_text(name, "count_desc") || same_text(name, "count") {
            Some(TagsSort::CountDesc)
        } else {
            None
        }
    }

    /// Whether the order goes from high to low.
    pub open spec fn descends(self) -> bool {
        self == TagsSort::CountDesc
    }

    /// Whether the order goes from high to low.
    pub fn reverse(&self) -> (b: bool)
        ensures
            b == self.descends(),
    {
        match self {
            TagsSort::CountDesc => true,
            TagsSort::CountAsc => false,
        }
    }
}

impl Default for TagsSort {
    fn default() -> (s: TagsSort)
        ensures
            s == TagsSort::CountDesc,
    {
        TagsSort::CountDesc
    }
}

/// The number of tags on a page where the request names none.
pub fn tags_default_limit() -> (n: usize)
    ensures
        n == 20,
{
    20
}

/// A request for a page of tags.
pub struct GetTagsQuery {
    pub query: String,
    pub sort: TagsSort,
    pub page: usize,
    pub limit: usize,
}

impl GetTagsQuery {
    /// The request for the first page of the matches of `query`, in the
    /// default order and with the default number of tags.
    pub fn new(query: String) -> (r: GetTagsQuery)
        ensures
            r.query == query,
            r.sort == TagsSort::CountDesc,
            r.page == 0,
            r.limit == 20,
    {
        GetTagsQuery { query, sort: TagsSort::CountDesc, page: 0, limit: tags_default_limit() }
    }
}

/// How long the parts of a search for tags took, in nanoseconds.
#[derive(Clone, Copy, Debug, PartialEq, Eq, Structural)]
pub struct TagsResponseTimings {
    pub query: u64,
    pub sort: u64,
}

impl Default for TagsResponseTimings {
    fn default() -> (t: TagsResponseTimings)
        ensures
            t == (TagsResponseTimings { query: 0, sort: 0 }),
    {
        TagsResponseTimings { query: 0, sort: 0 }
    }
}

/// The answer to a request for tags: the names and counts of the tags of
/// the page, and the number of tags that match in all.
pub struct TagsResponse {
    pub tags: Vec<(String, u32)>,
    pub matched: usize,
    pub timings: TagsResponseTimings,
}

/// A page of tags: how many tags match in all, and the names and counts of
/// the tags of the page.
pub struct TagsPage {
    pub matched: u64,
    pub tags: Vec<(String, u32)>,
}

/// Whether `page` holds the tags `tids` of `trecs`, each with its name and
/// with the number of the posts of `recs` that have it.
pub open spec fn lists_tags(
    recs: Map<u32, PostModel>,
    trecs: Map<u32, TagModel>,
    tids: Seq<u32>,
    tags: Seq<(String, u32)>,
) -> bool {
    &&& tags.len() == tids.len()
    &&& forall|k: int|
        0 <= k < tids.len() ==> (#[trigger] tags[k]).0@ == trecs[tids[k]].name && tags[k].1
            == posts_tagged(recs, trecs[tids[k]].name).len() as u32
}

fn cut_count(n: u64) -> (c: u32)
    ensures
        c == n as u32,
{
    #[verifier::truncate]
    (n as u32)
}

/// The answer to a request for tags: refused as the search by its text is
/// in the database of tags, and else the number of the matches and the tags
/// of the page, in the order of their counts.
pub open spec fn tags_answer(db: PostDb, request: GetTagsQuery, r: Result<TagsPage, SearchError>) -> bool {
    let tags = db.index_view().tag_index().tag_db_view();
    match search_outcome(tags, request.query@) {
        Err(e) => r == Err::<TagsPage, SearchError>(e),
        Ok(set) => r matches Ok(page) && page.matched == set.len() && lists_tags(
            db.records(),
            tags.records(),
            page_in(
                tags.index_view().count_order(),
                set,
                request.sort.descends(),
                request.page,
                request.limit,
            ),
            page.tags@,
        ),
    }
}

/// The page of the matching tags `result` that a request asks for: the
/// number of the matches, and the tags of the page with their names and
/// counts, in the order of their counts.
pub fn tags_page(
    db: &PostDb,
    result: &crate::result::EvalResult<'_>,
    sort: TagsSort,
    page: usize,
    limit: usize,
) -> (r: TagsPage)
    requires
        db.wf(),
        result.wf(),
        result@.subset_of(db.index_view().tag_index().tag_db_view().live()),
    ensures
        r.matched == result@.len(),
        lists_tags(
            db.records(),
            db.index_view().tag_index().tag_db_view().records(),
            page_in(
                db.index_view().tag_index().tag_db_view().index_view().count_order(),
                result@,
                sort.descends(),
                page,
                limit,
            ),
            r.tags@,
        ),
{
    proof {
        db.lemma_live();
    }
    let tag_index = db.index().tags();
    let tag_db = tag_index.tag_db();
    proof {
        tag_db.lemma_live();
    }
    let matched = result.matched();
    let tids = take_page(result, tag_db.index().count_ids(), sort.reverse(), page, limit);
    let mut tags: Vec<(String, u32)> = Vec::new();
    let mut k: usize = 0;
    while k < tids.len()
        invariant
            k <= tids@.len(),
            db.wf(),
            tag_index.sound(),
            tag_index.posts() == db.records(),
            tag_db.wf(),
            tag_db.index_view().sound(),
            forall|j: int| 0 <= j < tids@.len() ==> tag_db.records().contains_key(#[trigger] tids@[j]),
            lists_tags(db.records(), tag_db.records(), tids@.take(k as int), tags@),
        decreases tids@.len() - k,
    {
        let ghost before = tags@;
        match tag_db.index().name_of(tids[k]) {
            None => {},
            Some(name) => {
                let count = cut_count(tag_index.count(name.as_str()));
                tags.push((name.clone(), count));
            },
        }
        proof {
            assert(tag_db.records().contains_key(tids@[k as int]));
            let next = tids@.take(k + 1);
            assert(next.len() == k + 1);
            assert forall|j: int| 0 <= j < next.len() implies (#[trigger] tags@[j]).0@
                == tag_db.records()[next[j]].name && tags@[j].1 == posts_tagged(
                db.records(),
                tag_db.records()[next[j]].name,
            ).len() as u32 by {
                if j < k {
                    assert(tags@[j] == before[j]);
                    assert(next[j] == tids@.take(k as int)[j]);
                }
            }
        }
        k += 1;
    }
    proof {
        assert(tids@.take(k as int) == tids@);
    }
    TagsPage { matched, tags }
}

/// Answers a request for tags: reads the query, finds the matching tags in
/// the database of tags, and takes the page of them in the order of their
/// counts.
pub fn search_tags(db: &PostDb, request: &GetTagsQuery) -> (r: Result<TagsPage, SearchError>)
    requires
        db.wf(),
    ensures
        tags_answer(*db, *request, r),
{
    proof {
        db.lemma_live();
    }
    let tag_db = db.index().tags().tag_db();
    match search(tag_db, request.query.as_str()) {
        Err(e) => Err(e),
        Ok(result) => {
            let page = tags_page(db, &result, request.sort, request.page, request.limit);
            let r = Ok(page);
            assert(r matches Ok(p) && p == page);
            r
        },
    }
}

impl GetTagsQuery {
    /// Whether the page goes from high counts to low.
    pub fn reverse_order(&self) -> (b: bool)
        ensures
            b == self.sort.descends(),
    {
        self.sort.reverse()
    }
}

} // verus!
