use booru_index::db::{CorpusError, Db};
use booru_index::field::Field;
use booru_index::index::{Index, QueryError, Term};
use booru_index::post::{BooruPost, FileExt, Rating, Status};
use booru_index::field_index::FieldIndex;
use booru_index::post_index::{load_posts, IdIndexLoader, PostDb, PostIndex, TagIndexLoader};
use booru_index::query::{Item, Query};
use booru_index::routes::{
    page_offset, posts_default_limit, posts_page, posts_url, search_posts, search_tags, tags_default_limit,
    tags_page, GetPostsQuery, GetTagsQuery, PostsResponse, PostsResponseTimings, SearchError, Sort,
    TagsSort,
};
use booru_index::parser::ParseError;
use booru_index::sync::{apply_change, channel_kind, Change, ChangeError, ChangeKind};
use booru_index::tag_db::Tag;

fn post(id: u32, tags: &[&str], up: i32) -> BooruPost {
    BooruPost {
        id,
        parent_id: if id % 2 == 0 { None } else { Some(id - 1) },
        pixiv_id: if id % 3 == 0 { Some(id * 10) } else { None },
        uploader_id: 1,
        approver_id: None,
        status: if id % 2 == 0 { Status::Active } else { Status::Deleted },
        created_at: 1_000 * id as i64,
        updated_at: 2_000 * id as i64,
        fav_count: id,
        up_score: up,
        down_score: 0,
        source: String::new(),
        width: 1600,
        height: 900,
        file_ext: if id % 2 == 0 { FileExt::JPG } else { FileExt::PNG },
        file_size: 1000 + id,
        rating: Rating::Q,
        tags: tags.iter().map(|t| t.to_string()).collect(),
        tag_count_general: tags.len() as u16,
        tag_count_artist: 0,
        tag_count_character: 0,
        tag_count_copyright: 0,
        tag_count_meta: 0,
    }
}

fn sample() -> Vec<BooruPost> {
    vec![
        post(100, &["cat", "long_hair"], 3),
        post(101, &["cat", "blue_eyes", "cat"], 9),
        post(102, &["dog"], -2),
        post(103, &["bird", "long_hair", "low_hp"], 0),
        post(104, &[], 5),
        post(105, &["cat", "bird"], 9),
    ]
}

fn loaded() -> PostDb {
    let (db, n) = load_posts(&sample());
    assert_eq!(n, 6);
    db
}

fn ids_of(db: &PostDb, text: &str) -> Vec<u32> {
    let query: Query<Term> = Query::parse(text).unwrap().simplified();
    db.query(&query).unwrap().bits().iter()
}

#[test]
fn corpus_errors() {
    let posts = sample();
    let mut db = loaded();
    assert_eq!(db.insert(0, &posts[0]), Err(CorpusError::Occupied));
    assert_eq!(db.remove(9, &posts[0]), Err(CorpusError::Vacant));
    assert_eq!(db.update(9, &posts[0], &posts[1]), Err(CorpusError::Vacant));
    assert_eq!(db.next_id(), Some(6));
    assert_eq!(db.occupied().popcount(), 6);
    assert_eq!(db.remove(0, &posts[0]), Ok(()));
    assert_eq!(db.next_id(), Some(0));
    assert_eq!(db.remove(0, &posts[0]), Err(CorpusError::Vacant));
    assert_eq!(db.occupied().iter(), vec![1, 2, 3, 4, 5]);
}

#[test]
fn unknown_identifiers_are_refused() {
    let db = loaded();
    let query = Query::parse("cat colour:red").unwrap();
    assert!(matches!(db.query(&query), Err(QueryError::UnknownIdentifier)));
    let nested = Query::parse("cat -(dog ~uploader:1)").unwrap();
    assert!(matches!(db.query(&nested), Err(QueryError::UnknownIdentifier)));
    let request = GetPostsQuery::new("colour:red".to_string());
    assert!(matches!(
        search_posts(&db, &request),
        Err(SearchError::Query(QueryError::UnknownIdentifier))
    ));
    let broken = GetPostsQuery::new("(cat".to_string());
    assert!(matches!(
        search_posts(&db, &broken),
        Err(SearchError::Parse(ParseError::UnbalancedParens))
    ));
    let tags = GetTagsQuery::new("name:cat".to_string());
    assert!(matches!(
        search_tags(&db, &tags),
        Err(SearchError::Query(QueryError::UnknownIdentifier))
    ));
}

#[test]
fn terms_without_a_value_put_no_constraint() {
    let db = loaded();
    assert_eq!(ids_of(&db, "cat"), vec![0, 1, 5]);
    assert_eq!(ids_of(&db, "cat unicorn"), vec![0, 1, 5]);
    assert_eq!(ids_of(&db, "cat pixiv_id:xyz"), vec![0, 1, 5]);
    assert_eq!(ids_of(&db, "unicorn"), vec![0, 1, 2, 3, 4, 5]);
    assert_eq!(ids_of(&db, ""), vec![0, 1, 2, 3, 4, 5]);
    assert_eq!(ids_of(&db, "~cat ~unicorn"), vec![0, 1, 5]);
    assert_eq!(ids_of(&db, "-unicorn dog"), vec![2]);
    assert_eq!(ids_of(&db, "-cat"), vec![2, 3, 4]);
    assert_eq!(ids_of(&db, "-(cat bird)"), vec![0, 1, 2, 3, 4]);
    assert_eq!(ids_of(&db, "~dog ~(cat bird)"), vec![2, 5]);
}

#[test]
fn field_queries() {
    let db = loaded();
    assert_eq!(ids_of(&db, "id:102"), vec![2]);
    assert_eq!(ids_of(&db, "id:100,105,999,x"), vec![0, 5]);
    assert_eq!(ids_of(&db, "id:101..103"), vec![1, 2, 3]);
    assert_eq!(ids_of(&db, "id:>103"), vec![4, 5]);
    assert_eq!(ids_of(&db, "dog id:7,8"), vec![2]);
    assert_eq!(ids_of(&db, "status:deleted"), vec![1, 3, 5]);
    assert_eq!(ids_of(&db, "status:ACTIVE"), vec![0, 2, 4]);
    assert_eq!(ids_of(&db, "status:active,deleted,banned"), vec![0, 1, 2, 3, 4, 5]);
    assert_eq!(ids_of(&db, "-status:active"), vec![1, 3, 5]);
    assert_eq!(ids_of(&db, "cat status:banned"), vec![0, 1, 5]);
    assert_eq!(ids_of(&db, "parent_id:none"), vec![0, 2, 4]);
    assert_eq!(ids_of(&db, "parent_id:100"), vec![1]);
    assert_eq!(ids_of(&db, "parent_id:100,104"), vec![1, 5]);
    assert_eq!(ids_of(&db, "pixiv_id:none"), vec![0, 1, 3, 4]);
    assert_eq!(ids_of(&db, "pixiv_id:1020"), vec![2]);
    assert_eq!(ids_of(&db, "pixiv_id:>none"), vec![2, 5]);
    assert_eq!(ids_of(&db, "approver:none"), vec![0, 1, 2, 3, 4, 5]);
    assert_eq!(ids_of(&db, "file_ext:png"), vec![1, 3, 5]);
    assert_eq!(ids_of(&db, "rating:q"), vec![0, 1, 2, 3, 4, 5]);
    assert_eq!(ids_of(&db, "-rating:q"), Vec::<u32>::new());
    assert_eq!(ids_of(&db, "score:9"), vec![1, 5]);
    assert_eq!(ids_of(&db, "score:1,2"), vec![0, 1, 2, 3, 4, 5]);
    assert_eq!(ids_of(&db, "score:<0"), vec![2]);
    assert_eq!(ids_of(&db, "upvotes:3..5 -cat"), vec![4]);
    assert_eq!(ids_of(&db, "downvotes:0"), vec![0, 1, 2, 3, 4, 5]);
    assert_eq!(ids_of(&db, "favcount:..101"), vec![0, 1]);
    assert_eq!(ids_of(&db, "created_at:102000.."), vec![2, 3, 4, 5]);
    assert_eq!(ids_of(&db, "updated_at:=210000"), vec![5]);
    assert_eq!(ids_of(&db, "width:1600 height:900"), vec![0, 1, 2, 3, 4, 5]);
    assert_eq!(ids_of(&db, "ratio:16/9"), vec![0, 1, 2, 3, 4, 5]);
    assert_eq!(ids_of(&db, "ratio:>1.78"), Vec::<u32>::new());
    assert_eq!(ids_of(&db, "mpixel:1.44"), vec![0, 1, 2, 3, 4, 5]);
    assert_eq!(ids_of(&db, "mpixel:<1.44"), Vec::<u32>::new());
    assert_eq!(ids_of(&db, "file_size:1102..1103"), vec![2, 3]);
    assert_eq!(ids_of(&db, "tagcount:0"), vec![4]);
    assert_eq!(ids_of(&db, "tagcount:3"), vec![1, 3]);
    assert_eq!(ids_of(&db, "gentags:2.."), vec![0, 1, 3, 5]);
    assert_eq!(ids_of(&db, "arttags:0 chartags:0 copytags:0 metatags:0 dog"), vec![2]);
}

#[test]
fn tag_queries() {
    let db = loaded();
    assert_eq!(ids_of(&db, "long_hair"), vec![0, 3]);
    assert_eq!(ids_of(&db, "dog,bird"), vec![2, 3, 5]);
    assert_eq!(ids_of(&db, "dog,unicorn"), vec![2]);
    assert_eq!(ids_of(&db, "*_hair"), vec![0, 3]);
    assert_eq!(ids_of(&db, "l*"), vec![0, 3]);
    assert_eq!(ids_of(&db, "*o*"), vec![0, 2, 3]);
    assert_eq!(ids_of(&db, "*zzz*"), Vec::<u32>::new());
    assert_eq!(ids_of(&db, "*"), Vec::<u32>::new());
    assert_eq!(ids_of(&db, "-*o*"), vec![1, 4, 5]);
    assert_eq!(ids_of(&db, "/lh"), vec![0, 3]);
    assert_eq!(ids_of(&db, "/be"), vec![1]);
    assert_eq!(ids_of(&db, "/zz cat"), vec![0, 1, 5]);
    assert_eq!(ids_of(&db, "/c"), vec![0, 1, 5]);
    let tags = db.index().tags();
    assert_eq!(tags.get("cat").unwrap().iter_ids(), vec![0, 1, 5]);
    assert!(tags.get("cow").is_none());
    assert_eq!(tags.count("cat"), 3);
    assert_eq!(tags.count("cow"), 0);
}

#[test]
fn every_index_finds_every_post() {
    let posts = sample();
    let db = loaded();
    let index = db.index();
    for (id, p) in posts.iter().enumerate() {
        for i in 0..24 {
            let field = Field::at(i);
            let found = index.field(field).get(field.project(p)).unwrap();
            assert!(found.contains(id as u32));
        }
        for t in &p.tags {
            assert!(index.tags().get(t).unwrap().contains(id as u32));
        }
        assert_eq!(index.id_index().id_to_post_id(id as u32), Some(p.id));
        assert_eq!(index.id_index().post_id_to_id(p.id), Some(id as u32));
    }
    assert_eq!(index.id_index().id_to_post_id(6), None);
    assert_eq!(index.id_index().post_id_to_id(99), None);
}

#[test]
fn posting_sizes_add_up() {
    let posts = sample();
    let db = loaded();
    let index = db.index();
    for field in [Field::ParentId, Field::Approver, Field::Status, Field::FileExt, Field::Rating] {
        assert_eq!(index.field(field).total(), posts.len() as u64);
    }
    assert_eq!(index.field(Field::Score).total(), 0);
    let mut distinct = 0;
    for p in &posts {
        let mut tags = p.tags.clone();
        tags.sort();
        tags.dedup();
        distinct += tags.len() as u64;
    }
    assert_eq!(distinct, 10);
    assert_eq!(index.tags().total(), distinct);
}

fn state(db: &PostDb) -> Vec<Vec<u32>> {
    let texts = [
        "cat", "dog", "bird", "long_hair", "low_hp", "blue_eyes", "fresh", "*a*", "/lh", "/b",
        "status:active", "status:deleted", "parent_id:none", "score:0..", "score:<5", "id:100..104",
        "file_ext:png", "tagcount:2", "pixiv_id:none", "-cat", "",
    ];
    let mut out: Vec<Vec<u32>> = texts.iter().map(|t| ids_of(db, t)).collect();
    out.push(db.index().field(Field::Score).range().unwrap().ids().clone());
    out.push(db.index().field(Field::Id).range().unwrap().ids().clone());
    out
}

#[test]
fn the_state_follows_the_surviving_posts() {
    let posts = sample();
    let mut worked = loaded();
    let fresh = post(106, &["fresh", "cat"], 1);
    let changed = post(102, &["dog", "long_hair", "fresh"], 7);
    assert_eq!(worked.insert(6, &fresh), Ok(()));
    assert_eq!(worked.update(2, &posts[2], &changed), Ok(()));
    assert_eq!(worked.remove(6, &fresh), Ok(()));
    assert_eq!(worked.remove(3, &posts[3]), Ok(()));
    assert_eq!(worked.update(0, &posts[0], &posts[0]), Ok(()));
    assert_eq!(worked.insert(3, &posts[3]), Ok(()));
    let mut survivors = sample();
    survivors[2] = post(102, &["dog", "long_hair", "fresh"], 7);
    let (rebuilt, _) = load_posts(&survivors);
    assert_eq!(state(&worked), state(&rebuilt));
    let names = |db: &PostDb| {
        let request = GetTagsQuery { query: "**".to_string(), sort: TagsSort::CountAsc, page: 0, limit: 100 };
        let mut tags =
            search_tags(db, &GetTagsQuery { query: "count:0..".to_string(), ..request }).unwrap().tags;
        tags.sort();
        tags
    };
    assert_eq!(names(&worked), names(&rebuilt));
    assert_eq!(names(&worked).len(), 7);
}

#[test]
fn pages_of_posts() {
    let db = loaded();
    let by_score = |page, limit, sort| {
        let request = GetPostsQuery { query: "score:0..".to_string(), sort, page, limit };
        search_posts(&db, &request).unwrap()
    };
    let all = by_score(0, 10, Sort::ScoreDesc);
    assert_eq!(all.matched, 5);
    assert_eq!(all.post_ids, vec![105, 101, 104, 100, 103]);
    assert_eq!(by_score(0, 10, Sort::ScoreAsc).post_ids, vec![103, 100, 104, 101, 105]);
    assert_eq!(by_score(0, 10, Sort::IdAsc).post_ids, vec![100, 101, 103, 104, 105]);
    assert_eq!(by_score(0, 10, Sort::IdDesc).post_ids, vec![105, 104, 103, 101, 100]);
    let mut seen = Vec::new();
    for page in 0..4 {
        let part = by_score(page, 2, Sort::ScoreDesc);
        assert_eq!(part.matched, 5);
        seen.extend(part.post_ids);
    }
    assert_eq!(seen, all.post_ids);
    assert_eq!(by_score(usize::MAX, 2, Sort::IdAsc).post_ids, Vec::<u32>::new());
    assert_eq!(by_score(0, 0, Sort::IdAsc).post_ids, Vec::<u32>::new());
    let first = search_posts(&db, &GetPostsQuery::new("".to_string())).unwrap();
    assert_eq!(first.matched, 6);
    assert_eq!(first.post_ids, vec![105, 104, 103, 102, 101, 100]);
}

#[test]
fn pages_of_tags() {
    let db = loaded();
    let find = |query: &str, sort, page, limit| {
        let request = GetTagsQuery { query: query.to_string(), sort, page, limit };
        search_tags(&db, &request).unwrap()
    };
    let named = |name: &str, n: u32| (name.to_string(), n);
    let all = find("count:1..", TagsSort::CountDesc, 0, 20);
    assert_eq!(all.matched, 6);
    assert_eq!(all.tags[0], named("cat", 3));
    assert_eq!(all.tags.len(), 6);
    let counts: Vec<u32> = all.tags.iter().map(|t| t.1).collect();
    assert_eq!(counts, vec![3, 2, 2, 1, 1, 1]);
    let some = find("*o*", TagsSort::CountAsc, 0, 20);
    assert_eq!(some.matched, 3);
    assert_eq!(some.tags.last(), Some(&named("long_hair", 2)));
    assert_eq!(find("*o*", TagsSort::CountDesc, 0, 1).tags, vec![named("long_hair", 2)]);
    assert_eq!(find("*o*", TagsSort::CountDesc, 3, 1).tags, vec![]);
    assert_eq!(find("ir", TagsSort::CountDesc, 0, 20).matched, 2);
    assert_eq!(find("b", TagsSort::CountDesc, 0, 20).matched, 2);
    assert_eq!(find("/lh", TagsSort::CountAsc, 0, 20).tags, vec![named("low_hp", 1), named("long_hair", 2)]);
    assert_eq!(find("/lh count:2..", TagsSort::CountAsc, 0, 20).tags, vec![named("long_hair", 2)]);
    assert_eq!(find("count:2 -*a*", TagsSort::CountAsc, 0, 20).tags, vec![named("bird", 2)]);
    assert_eq!(find("id:1", TagsSort::CountAsc, 0, 20).matched, 6);
    assert_eq!(find("", TagsSort::CountAsc, 0, 20).matched, 6);
    assert_eq!(find("*zz*", TagsSort::CountAsc, 0, 20).matched, 0);
}

#[test]
fn requests_and_answers() {
    assert_eq!(posts_default_limit(), 20);
    assert_eq!(tags_default_limit(), 20);
    assert_eq!(Sort::default(), Sort::IdDesc);
    assert_eq!(TagsSort::default(), TagsSort::CountDesc);
    assert_eq!(Sort::from_name("id"), Some(Sort::IdDesc));
    assert_eq!(Sort::from_name("id_asc"), Some(Sort::IdAsc));
    assert_eq!(Sort::from_name("id_desc"), Some(Sort::IdDesc));
    assert_eq!(Sort::from_name("score"), Some(Sort::ScoreDesc));
    assert_eq!(Sort::from_name("score_asc"), Some(Sort::ScoreAsc));
    assert_eq!(Sort::from_name("score_desc"), Some(Sort::ScoreDesc));
    assert_eq!(Sort::from_name("random"), None);
    assert_eq!(TagsSort::from_name("count"), Some(TagsSort::CountDesc));
    assert_eq!(TagsSort::from_name("count_asc"), Some(TagsSort::CountAsc));
    assert_eq!(TagsSort::from_name("count_desc"), Some(TagsSort::CountDesc));
    assert_eq!(TagsSort::from_name("name"), None);
    assert_eq!((Sort::ScoreAsc.sort_field(), Sort::ScoreAsc.reverse()), (Field::Score, false));
    assert_eq!((Sort::IdDesc.sort_field(), Sort::IdDesc.reverse()), (Field::Id, true));
    assert!(TagsSort::CountDesc.reverse() && !TagsSort::CountAsc.reverse());
    let request = GetPostsQuery::new("cat".to_string());
    assert_eq!((request.query.as_str(), request.sort, request.page, request.limit), ("cat", Sort::IdDesc, 0, 20));
    let tags = GetTagsQuery::new("c*".to_string());
    assert_eq!((tags.query.as_str(), tags.sort, tags.page, tags.limit), ("c*", TagsSort::CountDesc, 0, 20));
    assert!(tags.reverse_order());
    assert_eq!(page_offset(3, 20), 60);
    assert_eq!(page_offset(0, usize::MAX), 0);
    assert_eq!(page_offset(2, usize::MAX), usize::MAX);
    assert_eq!(
        posts_url(&vec![12, 7, 4000]),
        "https://danbooru.donmai.us/posts?tags=id:12,7,4000+order:custom"
    );
    assert_eq!(posts_url(&vec![]), "https://danbooru.donmai.us/posts?tags=id:+order:custom");
    assert_eq!(posts_url(&vec![0]), "https://danbooru.donmai.us/posts?tags=id:0+order:custom");
    let timings = PostsResponseTimings { query: 5, sort: 6 };
    let answer = PostsResponse::new(9, &vec![3, 1], timings);
    assert_eq!(answer.matched, 9);
    assert_eq!(answer.url, "https://danbooru.donmai.us/posts?tags=id:3,1+order:custom");
    assert_eq!(answer.timings, timings);
    assert_eq!(PostsResponseTimings::default(), PostsResponseTimings { query: 0, sort: 0 });
}

#[test]
fn changes_from_the_store() {
    assert_eq!(channel_kind("public_posts_insert"), Some(ChangeKind::Insert));
    assert_eq!(channel_kind("public_posts_update"), Some(ChangeKind::Update));
    assert_eq!(channel_kind("public_posts_delete"), Some(ChangeKind::Delete));
    assert_eq!(channel_kind("public_tags_insert"), None);
    let posts = sample();
    let mut db = loaded();
    let fresh = post(200, &["fresh"], 1);
    assert_eq!(apply_change(&mut db, &Change::Insert(post(200, &["fresh"], 1))), Ok(6));
    assert_eq!(ids_of(&db, "fresh"), vec![6]);
    let after = post(102, &["dog", "fresh"], 0);
    let update = Change::Update { before: post(102, &["dog"], -2), after };
    assert_eq!(apply_change(&mut db, &update), Ok(2));
    assert_eq!(ids_of(&db, "fresh"), vec![2, 6]);
    assert_eq!(ids_of(&db, "score:<0"), Vec::<u32>::new());
    assert_eq!(apply_change(&mut db, &Change::Delete(post(100, &["cat", "long_hair"], 3))), Ok(0));
    assert_eq!(ids_of(&db, "cat"), vec![1, 5]);
    assert_eq!(apply_change(&mut db, &Change::Insert(post(300, &["late"], 0))), Ok(0));
    assert_eq!(ids_of(&db, "late"), vec![0]);
    assert_eq!(
        apply_change(&mut db, &Change::Delete(post(999, &[], 0))),
        Err(ChangeError::UnknownPost)
    );
    let lost = Change::Update { before: post(998, &[], 0), after: post(998, &["x"], 0) };
    assert_eq!(apply_change(&mut db, &lost), Err(ChangeError::UnknownPost));
    assert_eq!(ids_of(&db, "x"), vec![0, 1, 2, 3, 4, 5, 6]);
    assert_eq!(db.occupied().popcount(), 7);
    let _ = (posts, fresh);
}

#[test]
fn the_tag_database_follows_the_posts() {
    let posts = sample();
    let mut db = loaded();
    {
        let tags = db.index().tags().tag_db();
        assert_eq!(tags.occupied().popcount(), 6);
        let cat = tags.index().id_of("cat").unwrap();
        assert_eq!(tags.index().name_of(cat).map(|s| s.as_str()), Some("cat"));
        assert_eq!(tags.index().id_of("cow"), None);
        assert_eq!(tags.index().count_ids().len(), 6);
        let last = *tags.index().count_ids().last().unwrap();
        assert_eq!(last, cat);
    }
    assert_eq!(db.remove(2, &posts[2]), Ok(()));
    {
        let tags = db.index().tags().tag_db();
        assert_eq!(tags.occupied().popcount(), 5);
        assert_eq!(tags.index().id_of("dog"), None);
    }
    assert_eq!(db.insert(2, &post(500, &["eel", "cat"], 0)), Ok(()));
    let tags = db.index().tags().tag_db();
    let eel = tags.index().id_of("eel").unwrap();
    assert!(tags.occupied().get(eel));
    assert_eq!(db.index().tags().count("cat"), 4);
    let t = Tag::new("eel".to_string(), 1);
    assert_eq!((t.name().as_str(), t.count()), ("eel", 1));
    let single: Query<Term> =
        Query::new(Item::Single(Term { ident: Some("count".to_string()), text: "4".to_string() }), false);
    assert_eq!(tags.query(&single).unwrap().matched(), 1);
    let none: Query<Term> =
        Query::new(Item::Single(Term { ident: None, text: "/zz".to_string() }), false);
    assert_eq!(tags.query(&none).unwrap().matched(), 6);
    assert!(tags.index().has_room(&t));
    let empty: PostDb = Db::new(PostIndex::new());
    assert_eq!(empty.next_id(), Some(0));
    assert_eq!(ids_of(&empty, "cat"), Vec::<u32>::new());
}

#[test]
fn loading_is_the_same_as_inserting() {
    let posts = sample();
    let (loaded, n) = load_posts(&posts);
    assert_eq!(n, posts.len());
    let mut built: PostDb = Db::new(PostIndex::new());
    for (id, p) in posts.iter().enumerate() {
        assert_eq!(built.insert(id as u32, p), Ok(()));
    }
    assert_eq!(state(&loaded), state(&built));
    assert_eq!(loaded.occupied().iter(), built.occupied().iter());
    let (empty, n) = load_posts(&vec![]);
    assert_eq!(n, 0);
    assert_eq!(empty.next_id(), Some(0));
    let again: PostDb = Db::with_index(PostIndex::new(), 0);
    assert_eq!(again.occupied().popcount(), 0);
    let scores = FieldIndex::load(Field::Score, &posts, 4);
    assert_eq!(scores.range().unwrap().ids(), &vec![2, 3, 0, 1]);
    let kinds = FieldIndex::load(Field::FileExt, &posts, 6);
    assert_eq!(kinds.total(), 6);
    assert_eq!(kinds.get(5).unwrap().iter_ids(), vec![1, 3, 5]);
}

#[test]
fn loaders_build_indexes_before_they_serve() {
    let posts = sample();
    let mut ids = IdIndexLoader::new();
    let mut tags = TagIndexLoader::new();
    for (id, p) in posts.iter().enumerate().rev() {
        ids.add(id as u32, p);
        assert!(tags.add(id as u32, p));
    }
    let ids = ids.load();
    assert_eq!(ids.range().unwrap().ids(), &vec![0, 1, 2, 3, 4, 5]);
    assert_eq!(ids.range().unwrap().value(3), Some(103));
    assert_eq!(ids.get(104).unwrap().iter_ids(), vec![4]);
    let tags = tags.load();
    assert_eq!(tags.get("cat").unwrap().iter_ids(), vec![0, 1, 5]);
    assert_eq!(tags.total(), 10);
    assert_eq!(tags.tag_db().occupied().popcount(), 6);
}

#[test]
fn pages_of_matches_found_before() {
    let db = loaded();
    let query = Query::parse("score:0.. -bird").unwrap().simplified();
    let result = db.query(&query).unwrap();
    let request = GetPostsQuery { query: "score:0.. -bird".to_string(), sort: Sort::ScoreAsc, page: 0, limit: 3 };
    let whole = search_posts(&db, &request).unwrap();
    let page = posts_page(&db, &result, Sort::ScoreAsc, 0, 3);
    assert_eq!(page.matched, whole.matched);
    assert_eq!(page.post_ids, whole.post_ids);
    assert_eq!(page.matched, result.matched());
    assert_eq!(page.post_ids.len(), 3);
    let rest = posts_page(&db, &result, Sort::ScoreAsc, 1, 3);
    assert_eq!(rest.post_ids.len() as u64, page.matched - 3);
    let tags = db.index().tags().tag_db();
    let query = Query::parse("*o*").unwrap().simplified();
    let result = tags.query(&query).unwrap();
    let page = tags_page(&db, &result, TagsSort::CountDesc, 0, 1);
    assert_eq!(page.matched, 3);
    assert_eq!(page.tags, vec![("long_hair".to_string(), 2)]);
    let request = GetTagsQuery { query: "*o*".to_string(), sort: TagsSort::CountAsc, page: 0, limit: 20 };
    let whole = search_tags(&db, &request).unwrap();
    assert_eq!(tags_page(&db, &result, TagsSort::CountAsc, 0, 20).tags, whole.tags);
}
