use booru_index::db::Db;
use booru_index::index::Index;
use booru_index::key::Key;
use booru_index::key_index::KeysIndex;
use booru_index::post::{BooruPost, FileExt, Rating, Status};
use booru_index::post_index::{PostDb, PostIndex};
use booru_index::posting::Queryable;
use booru_index::query::{or_chain, Item, Query};
use booru_index::routes::{search, SearchError};
use booru_index::bitset::Bitset;
use booru_index::query::evaluate;

fn keys(names: &[&str]) -> Vec<Key> {
    names.iter().map(|n| Key::Text(n.to_string())).collect()
}

fn ids(index: &KeysIndex, name: &str) -> Vec<u32> {
    match index.get(&Key::Text(name.to_string())) {
        Some(q) => q.iter_ids(),
        None => Vec::new(),
    }
}

#[test]
fn one_id_under_many_keys() {
    let mut index = KeysIndex::new();
    index.insert_all(1, &keys(&["cat", "furry", "cat"]));
    index.insert_all(2, &keys(&["cat"]));
    index.insert_all(3, &keys(&[]));
    assert_eq!(ids(&index, "cat"), vec![1, 2]);
    assert_eq!(ids(&index, "furry"), vec![1]);
    assert_eq!(index.total(), 3);
    assert_eq!(index.len(), 2);
    index.update_all(1, &keys(&["cat", "furry"]), &keys(&["cat", "dog"]));
    assert_eq!(ids(&index, "cat"), vec![1, 2]);
    assert_eq!(ids(&index, "furry"), Vec::<u32>::new());
    assert_eq!(ids(&index, "dog"), vec![1]);
    index.update_all(2, &keys(&["cat"]), &keys(&[]));
    assert_eq!(ids(&index, "cat"), vec![1]);
    index.remove_all(1, &keys(&["dog", "cat", "cow"]));
    assert_eq!(index.len(), 0);
    assert_eq!(index.total(), 0);
}

fn post(id: u32, tags: &[&str]) -> BooruPost {
    BooruPost {
        id,
        parent_id: None,
        pixiv_id: None,
        uploader_id: 1,
        approver_id: None,
        status: if id == 2 { Status::Banned } else { Status::Active },
        created_at: 0,
        updated_at: 0,
        fav_count: 0,
        up_score: 0,
        down_score: 0,
        source: String::new(),
        width: 1,
        height: 1,
        file_ext: FileExt::GIF,
        file_size: 0,
        rating: Rating::E,
        tags: tags.iter().map(|t| t.to_string()).collect(),
        tag_count_general: 0,
        tag_count_artist: 0,
        tag_count_character: 0,
        tag_count_copyright: 0,
        tag_count_meta: 0,
    }
}

fn small() -> PostDb {
    let mut db: PostDb = Db::new(PostIndex::new());
    assert!(db.insert(1, &post(1, &["cat", "furry"])).is_ok());
    assert!(db.insert(2, &post(2, &["cat"])).is_ok());
    assert!(db.insert(3, &post(3, &["dog"])).is_ok());
    db
}

#[test]
fn lists_and_patterns_become_disjunctions() {
    let db = small();
    let index = db.index();
    let list = index.query(None, "cat,dog,cow", false).unwrap().unwrap();
    match &list.item {
        Item::OrChain(cs) => {
            assert_eq!(cs.len(), 2);
            assert!(cs.iter().all(|c| matches!(c.item, Item::Single(Queryable::Borrowed(_))) && !c.inverse));
        }
        _ => panic!("a list is a disjunction"),
    }
    assert!(!list.inverse);
    assert_eq!(evaluate(&list, db.occupied()).bits().iter(), vec![1, 2, 3]);
    let pattern = index.query(None, "*r*", true).unwrap().unwrap();
    assert!(matches!(&pattern.item, Item::OrChain(cs) if cs.len() == 1) && pattern.inverse);
    assert_eq!(evaluate(&pattern, db.occupied()).bits().iter(), vec![2, 3]);
    let none = index.query(None, "*zz*", false).unwrap().unwrap();
    assert!(matches!(&none.item, Item::OrChain(cs) if cs.is_empty()));
    assert!(index.query(None, "cow,ox", false).unwrap().is_none());
    assert!(index.query(None, "cow", false).unwrap().is_none());
    let single = index.query(None, "dog", true).unwrap().unwrap();
    assert!(matches!(single.item, Item::Single(Queryable::Borrowed(_))) && single.inverse);
    let statuses = index.query(Some("status"), "active,banned,deleted", false).unwrap().unwrap();
    assert!(matches!(&statuses.item, Item::OrChain(cs) if cs.len() == 2));
    let posts = index.query(Some("id"), "3,1,3", false).unwrap().unwrap();
    assert!(matches!(&posts.item, Item::Single(Queryable::IdsOwned(v)) if v == &vec![1, 3]));
    let range = index.query(Some("id"), "2..", false).unwrap().unwrap();
    assert!(matches!(range.item, Item::Single(Queryable::RangeSlice { .. })));
    assert!(index.query(Some("id"), "x", false).unwrap().is_none());
    assert!(index.query(Some("colour"), "red", false).is_err());
    assert!(index.has_room(&post(9, &["a", "b"])));
}

#[test]
fn disjunctions_of_postings() {
    let mut a = Bitset::new();
    a.set(1);
    a.set(5);
    let mut u = Bitset::new();
    for id in 0..8 {
        u.set(id);
    }
    let q = or_chain(vec![Queryable::Borrowed(&a), Queryable::from_ids(&vec![2, 5])], false);
    assert_eq!(evaluate(&q, &u).bits().iter(), vec![1, 2, 5]);
    let not = or_chain(vec![Queryable::Borrowed(&a)], true);
    assert_eq!(evaluate(&not, &u).bits().iter(), vec![0, 2, 3, 4, 6, 7]);
    let nothing: Query<Queryable> = or_chain(vec![], false);
    assert_eq!(evaluate(&nothing, &u).matched(), 0);
}

#[test]
fn search_by_text() {
    let db = small();
    assert_eq!(search(&db, "cat -furry").unwrap().bits().iter(), vec![2]);
    assert_eq!(search(&db, "~dog ~furry").unwrap().bits().iter(), vec![1, 3]);
    assert_eq!(search(&db, "((cat))").unwrap().matched(), 2);
    assert_eq!(search(&db, "status:banned").unwrap().bits().iter(), vec![2]);
    assert!(matches!(search(&db, "x)"), Err(SearchError::Parse(_))));
    assert!(matches!(search(&db, "who:me"), Err(SearchError::Query(_))));
    let tags = db.index().tags().tag_db();
    assert_eq!(search(tags, "count:2").unwrap().matched(), 1);
    assert_eq!(search(tags, "*o*").unwrap().matched(), 1);
    assert_eq!(search(tags, "/f").unwrap().matched(), 1);
}

fn posting_ids(q: &Query<Queryable>) -> Vec<u32> {
    match &q.item {
        Item::Single(Queryable::Borrowed(b)) if !q.inverse => b.iter(),
        _ => panic!("a stored posting, not inverted"),
    }
}

fn counted() -> PostDb {
    let mut db: PostDb = Db::new(PostIndex::new());
    assert!(db.insert(1, &post(1, &["bat", "cat"])).is_ok());
    assert!(db.insert(2, &post(2, &["cat"])).is_ok());
    assert!(db.insert(3, &post(3, &["cat", "rat"])).is_ok());
    db
}

#[test]
fn patterns_list_tags_by_falling_count() {
    let db = counted();
    let tags = db.index().tags().tag_db().index();
    assert_eq!(tags.id_of("bat"), Some(0));
    assert_eq!(tags.id_of("cat"), Some(1));
    assert_eq!(tags.id_of("rat"), Some(2));
    for inverse in [false, true] {
        let q = db.index().query(None, "*at", inverse).unwrap().unwrap();
        assert_eq!(q.inverse, inverse);
        match &q.item {
            Item::OrChain(cs) => {
                let lists: Vec<Vec<u32>> = cs.iter().map(posting_ids).collect();
                assert_eq!(lists, vec![vec![1, 2, 3], vec![3], vec![1]]);
            }
            _ => panic!("a pattern is a disjunction"),
        }
    }
    let q = db.index().query(None, "ba*", false).unwrap().unwrap();
    match &q.item {
        Item::OrChain(cs) => assert_eq!(cs.iter().map(posting_ids).collect::<Vec<_>>(), vec![vec![1]]),
        _ => panic!("a pattern is a disjunction"),
    }
    let none = db.index().query(None, "*", false).unwrap().unwrap();
    assert!(matches!(&none.item, Item::OrChain(cs) if cs.is_empty()) && !none.inverse);
}

#[test]
fn lists_keep_the_order_of_the_text() {
    let db = counted();
    let q = db.index().query(None, "rat,cow,cat,rat", true).unwrap().unwrap();
    assert!(q.inverse);
    match &q.item {
        Item::OrChain(cs) => {
            let lists: Vec<Vec<u32>> = cs.iter().map(posting_ids).collect();
            assert_eq!(lists, vec![vec![3], vec![1, 2, 3], vec![3]]);
        }
        _ => panic!("a list is a disjunction"),
    }
    let q = db.index().query(Some("status"), "banned,deleted,active", false).unwrap().unwrap();
    match &q.item {
        Item::OrChain(cs) => {
            let lists: Vec<Vec<u32>> = cs.iter().map(posting_ids).collect();
            assert_eq!(lists, vec![vec![2], vec![1, 3]]);
        }
        _ => panic!("a list is a disjunction"),
    }
    let one = db.index().query(Some("status"), "banned", true).unwrap().unwrap();
    assert!(matches!(&one.item, Item::Single(Queryable::Borrowed(b)) if b.iter() == vec![2]));
    assert!(one.inverse);
    let by_short = db.index().query(None, "/c", false).unwrap().unwrap();
    assert_eq!(posting_ids(&by_short), vec![1, 2, 3]);
    let ids = db.index().query(Some("id"), "3,1", true).unwrap().unwrap();
    assert!(matches!(&ids.item, Item::Single(Queryable::IdsOwned(v)) if v == &vec![1, 3]));
    assert!(ids.inverse);
    let range = db.index().query(Some("id"), "2..", true).unwrap().unwrap();
    match &range.item {
        Item::Single(Queryable::RangeSlice { order, lo, hi }) => {
            assert_eq!((order.to_vec(), *lo, *hi), (vec![1, 2, 3], 1, 3));
        }
        _ => panic!("a range is a slice of the order"),
    }
    assert!(range.inverse);
}

#[test]
fn queries_for_tags() {
    let db = counted();
    let tags = db.index().tags().tag_db().index();
    let like = tags.query(None, "*at", true).unwrap().unwrap();
    assert!(matches!(&like.item, Item::Single(Queryable::IdsOwned(v)) if v == &vec![0, 1, 2]));
    assert!(like.inverse);
    let none = tags.query(None, "*zz*", false).unwrap().unwrap();
    assert!(matches!(&none.item, Item::Single(Queryable::IdsOwned(v)) if v.is_empty()));
    let empty = tags.query(None, "", false).unwrap().unwrap();
    assert!(matches!(&empty.item, Item::Single(Queryable::IdsOwned(v)) if v.is_empty()));
    let short = tags.query(None, "/r", false).unwrap().unwrap();
    assert!(matches!(&short.item, Item::Single(Queryable::Borrowed(b)) if b.iter() == vec![2]));
    assert!(tags.query(None, "/zz", false).unwrap().is_none());
    let counts = tags.query(Some("count"), "1", false).unwrap().unwrap();
    match &counts.item {
        Item::Single(Queryable::RangeSlice { order, lo, hi }) => {
            assert_eq!((order.to_vec(), *lo, *hi), (vec![0, 2, 1], 0, 2));
        }
        _ => panic!("a range is a slice of the order"),
    }
    assert!(tags.query(Some("id"), "1", false).unwrap().is_none());
    assert!(tags.query(Some("name"), "cat", false).is_err());
}

#[test]
fn tags_keep_their_ids() {
    let mut db: PostDb = Db::new(PostIndex::new());
    assert!(db.insert(1, &post(1, &["bat", "cat"])).is_ok());
    assert!(db.insert(2, &post(2, &["dog"])).is_ok());
    let id_of = |db: &PostDb, name: &str| db.index().tags().tag_db().index().id_of(name);
    assert_eq!(id_of(&db, "bat"), Some(0));
    assert_eq!(id_of(&db, "cat"), Some(1));
    assert_eq!(id_of(&db, "dog"), Some(2));
    // a new tag is taken in before the old one is given up
    assert!(db.update(2, &post(2, &["dog"]), &post(2, &["emu"])).is_ok());
    assert_eq!(id_of(&db, "emu"), Some(3));
    assert_eq!(id_of(&db, "dog"), None);
    assert_eq!(id_of(&db, "bat"), Some(0));
    assert_eq!(id_of(&db, "cat"), Some(1));
    // the lowest free id is taken
    assert!(db.insert(3, &post(3, &["fox", "cat"])).is_ok());
    assert_eq!(id_of(&db, "fox"), Some(2));
    assert_eq!(id_of(&db, "cat"), Some(1));
    assert!(db.remove(1, &post(1, &["bat", "cat"])).is_ok());
    assert_eq!(id_of(&db, "bat"), None);
    assert_eq!(id_of(&db, "cat"), Some(1));
    assert_eq!(id_of(&db, "emu"), Some(3));
    assert_eq!(id_of(&db, "fox"), Some(2));
    assert!(db.update(3, &post(3, &["fox", "cat"]), &post(3, &["gnu", "fox"])).is_ok());
    assert_eq!(id_of(&db, "fox"), Some(2));
    assert_eq!(id_of(&db, "gnu"), Some(0));
    assert_eq!(id_of(&db, "cat"), None);
    let tags = db.index().tags().tag_db();
    assert_eq!(tags.index().name_of(0).map(|s| s.as_str()), Some("gnu"));
    assert_eq!(tags.index().name_of(1), None);
    assert_eq!(tags.index().name_of(3).map(|s| s.as_str()), Some("emu"));
    assert_eq!(tags.occupied().iter(), vec![0, 2, 3]);
}
