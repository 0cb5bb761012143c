use booru_index::db::{CorpusError, Db};
use booru_index::index::Term;
use booru_index::post::{BooruPost, FileExt, Rating, Status};
use booru_index::post_index::{PostDb, PostIndex};
use booru_index::query::Query;
use booru_index::routes::{search_posts, GetPostsQuery, Sort};

fn post(id: u32, tags: &[&str], up: i32, down: i32) -> BooruPost {
    BooruPost {
        id,
        parent_id: None,
        pixiv_id: None,
        uploader_id: 1,
        approver_id: None,
        status: Status::Active,
        created_at: 1_600_000_000_000 + id as i64,
        updated_at: 1_600_000_000_000 + id as i64,
        fav_count: 0,
        up_score: up,
        down_score: down,
        source: String::new(),
        width: 800,
        height: 600,
        file_ext: FileExt::PNG,
        file_size: 1000,
        rating: Rating::G,
        tags: tags.iter().map(|t| t.to_string()).collect(),
        tag_count_general: tags.len() as u16,
        tag_count_artist: 0,
        tag_count_character: 0,
        tag_count_copyright: 0,
        tag_count_meta: 0,
    }
}

fn three_posts() -> (PostDb, Vec<BooruPost>) {
    let posts = vec![
        post(1, &["cat", "furry"], 10, 0),
        post(2, &["cat"], 0, -1),
        post(3, &["dog"], 5, 0),
    ];
    let mut db: PostDb = Db::new(PostIndex::new());
    for p in &posts {
        assert_eq!(db.insert(p.id, p), Ok(()));
    }
    (db, posts)
}

fn ids_of(db: &PostDb, text: &str) -> Vec<u32> {
    let query: Query<Term> = Query::parse(text).unwrap().simplified();
    let result = db.query(&query).unwrap();
    let ids = result.bits().iter();
    assert_eq!(result.matched(), ids.len() as u64);
    ids
}

#[test]
fn tag_queries_over_three_posts() {
    let (db, _) = three_posts();
    let query = Query::parse("cat").unwrap().simplified();
    let result = db.query(&query).unwrap();
    assert_eq!(result.matched(), 2);
    assert_eq!(ids_of(&db, "cat"), vec![1, 2]);
    assert_eq!(ids_of(&db, "cat -furry"), vec![2]);
    assert_eq!(ids_of(&db, "cat,dog"), vec![1, 2, 3]);
    assert_eq!(ids_of(&db, "*at"), vec![1, 2]);
}

#[test]
fn score_ranges() {
    let (db, _) = three_posts();
    assert_eq!(ids_of(&db, "score:0.."), vec![1, 3]);
    assert_eq!(ids_of(&db, "score:<0"), vec![2]);
}

#[test]
fn abbreviation_picks_the_most_popular_tag() {
    let mut db: PostDb = Db::new(PostIndex::new());
    let mut long_hair = Vec::new();
    for id in 0..100u32 {
        let mut tags = vec!["long_hair"];
        if id < 5 {
            tags.push("blue_eyes");
        }
        if id >= 97 {
            tags.push("low_hp");
        }
        assert_eq!(db.insert(id, &post(id, &tags, 0, 0)), Ok(()));
        long_hair.push(id);
    }
    assert_eq!(ids_of(&db, "/lh"), long_hair);
    assert_eq!(ids_of(&db, "long_hair"), long_hair);
    assert_eq!(ids_of(&db, "/be"), vec![0, 1, 2, 3, 4]);
    let tags = db.index().tags();
    assert_eq!(tags.count("long_hair"), 100);
    assert_eq!(tags.count("blue_eyes"), 5);
    assert_eq!(tags.count("low_hp"), 3);
}

#[test]
fn update_moves_a_post_between_tags() {
    let (mut db, posts) = three_posts();
    let after = post(2, &["dog"], 0, -1);
    assert_eq!(db.update(2, &posts[1], &after), Ok(()));
    assert_eq!(ids_of(&db, "cat"), vec![1]);
    assert_eq!(ids_of(&db, "dog"), vec![2, 3]);
    assert_eq!(ids_of(&db, "furry"), vec![1]);
}

#[test]
fn insert_into_a_freed_slot() {
    let mut db: PostDb = Db::new(PostIndex::new());
    let posts = vec![
        post(10, &["cat"], 0, 0),
        post(11, &["cat"], 0, 0),
        post(12, &["dog"], 0, 0),
        post(13, &["dog"], 0, 0),
    ];
    for p in &posts {
        let id = db.next_id().unwrap();
        assert_eq!(db.insert(id, p), Ok(()));
    }
    assert_eq!(db.remove(2, &posts[2]), Ok(()));
    assert_eq!(db.next_id(), Some(2));
    let fresh = post(99, &["bird"], 7, 0);
    assert_eq!(db.insert(2, &fresh), Ok(()));
    assert_eq!(ids_of(&db, "bird"), vec![2]);
    assert_eq!(ids_of(&db, "id:99"), vec![2]);
    assert_eq!(ids_of(&db, "score:7"), vec![2]);
    assert_eq!(ids_of(&db, "dog"), vec![3]);
    assert_eq!(db.insert(2, &fresh), Err(CorpusError::Occupied));
}

#[test]
fn sorted_page_by_score() {
    let mut db: PostDb = Db::new(PostIndex::new());
    for id in 0..5u32 {
        let p = post(100 + id, &["cat"], (id + 1) as i32, 0);
        assert_eq!(db.insert(id, &p), Ok(()));
    }
    let request = GetPostsQuery {
        query: "cat".to_string(),
        sort: Sort::ScoreDesc,
        page: 1,
        limit: 2,
    };
    let page = search_posts(&db, &request).unwrap();
    assert_eq!(page.matched, 5);
    assert_eq!(page.post_ids, vec![102, 101]);
}
