use booru_index::db::Db;
use booru_index::index::Term;
use booru_index::post::{BooruPost, FileExt, Rating, Status};
use booru_index::post_index::{load_posts, PostDb, PostIndex};
use booru_index::query::Query;
use booru_index::routes::{search_posts, GetPostsQuery, Sort};

struct Dice(u64);

impl Dice {
    fn roll(&mut self, sides: u64) -> u64 {
        self.0 = self.0.wrapping_mul(6364136223846793005).wrapping_add(1442695040888963407);
        (self.0 >> 33) % sides
    }
}

const TAGS: [&str; 8] = ["cat", "dog", "bird", "long_hair", "low_hp", "blue_eyes", "solo", "cat_(animal)"];

fn random_post(dice: &mut Dice, carried: u32) -> BooruPost {
    let mut tags = Vec::new();
    for t in TAGS {
        if dice.roll(3) == 0 {
            tags.push(t.to_string());
        }
    }
    BooruPost {
        id: carried,
        parent_id: if dice.roll(2) == 0 { None } else { Some(dice.roll(5) as u32) },
        pixiv_id: None,
        uploader_id: 0,
        approver_id: None,
        status: [Status::Active, Status::Banned, Status::Pending][dice.roll(3) as usize],
        created_at: dice.roll(1000) as i64,
        updated_at: 0,
        fav_count: dice.roll(10) as u32,
        up_score: dice.roll(20) as i32,
        down_score: -(dice.roll(20) as i32),
        source: String::new(),
        width: 1 + dice.roll(3000) as u16,
        height: 1 + dice.roll(3000) as u16,
        file_ext: [FileExt::JPG, FileExt::PNG][dice.roll(2) as usize],
        file_size: dice.roll(100) as u32,
        rating: [Rating::G, Rating::S, Rating::Q, Rating::E][dice.roll(4) as usize],
        tags,
        tag_count_general: 0,
        tag_count_artist: 0,
        tag_count_character: 0,
        tag_count_copyright: 0,
        tag_count_meta: 0,
    }
}

fn has(p: &BooruPost, tag: &str) -> bool {
    p.tags.iter().any(|t| t == tag)
}

fn ids_of(db: &PostDb, text: &str) -> Vec<u32> {
    let query: Query<Term> = Query::parse(text).unwrap().simplified();
    db.query(&query).unwrap().bits().iter()
}

fn check(db: &PostDb, held: &Vec<Option<BooruPost>>) {
    let by = |keep: &dyn Fn(&BooruPost) -> bool| -> Vec<u32> {
        held.iter()
            .enumerate()
            .filter_map(|(id, p)| p.as_ref().filter(|p| keep(p)).map(|_| id as u32))
            .collect()
    };
    let score = |p: &BooruPost| p.up_score + p.down_score;
    assert_eq!(ids_of(db, ""), by(&|_| true));
    // a term without posts puts no constraint: the comparisons below are
    // for corpora in which every term that is asked for has a post
    let mut asked: Vec<Vec<u32>> = TAGS.iter().map(|t| by(&|p| has(p, t))).collect();
    asked.push(by(&|p| p.parent_id.is_none()));
    asked.push(by(&|p| p.parent_id == Some(1)));
    asked.push(by(&|p| p.status == Status::Banned));
    asked.push(by(&|p| p.rating == Rating::G));
    asked.push(by(&|p| p.file_ext == FileExt::PNG));
    if asked.iter().any(|ids| ids.is_empty()) {
        assert_eq!(ids_of(db, "unicorn"), by(&|_| true));
        return;
    }
    assert_eq!(ids_of(db, "cat"), by(&|p| has(p, "cat")));
    assert_eq!(ids_of(db, "cat_(animal)"), by(&|p| has(p, "cat_(animal)")));
    assert_eq!(ids_of(db, "(cat_(animal) solo)"), by(&|p| has(p, "cat_(animal)") && has(p, "solo")));
    assert_eq!(ids_of(db, "cat -dog"), by(&|p| has(p, "cat") && !has(p, "dog")));
    assert_eq!(ids_of(db, "~cat ~dog bird"), by(&|p| (has(p, "cat") || has(p, "dog")) && has(p, "bird")));
    assert_eq!(ids_of(db, "-(cat ~dog ~solo)"), by(&|p| !(has(p, "cat") && (has(p, "dog") || has(p, "solo")))));
    assert_eq!(ids_of(db, "dog,solo"), by(&|p| has(p, "dog") || has(p, "solo")));
    assert_eq!(ids_of(db, "*o*"), by(&|p| p.tags.iter().any(|t| t.contains('o'))));
    assert_eq!(ids_of(db, "l*"), by(&|p| p.tags.iter().any(|t| t.starts_with('l'))));
    assert_eq!(ids_of(db, "*_hair -*_hp"), by(&|p| has(p, "long_hair") && !has(p, "low_hp")));
    assert_eq!(ids_of(db, "/be"), by(&|p| has(p, "blue_eyes")));
    assert_eq!(ids_of(db, "score:0.."), by(&|p| score(p) >= 0));
    assert_eq!(ids_of(db, "score:-5..5 status:banned"), by(&|p| (-5..=5).contains(&score(p)) && p.status == Status::Banned));
    assert_eq!(ids_of(db, "-score:>3"), by(&|p| score(p) <= 3));
    assert_eq!(ids_of(db, "parent_id:none"), by(&|p| p.parent_id.is_none()));
    assert_eq!(ids_of(db, "parent_id:1,3"), by(&|p| p.parent_id == Some(1) || p.parent_id == Some(3)));
    assert_eq!(ids_of(db, "rating:g,e"), by(&|p| p.rating == Rating::G || p.rating == Rating::E));
    assert_eq!(ids_of(db, "file_ext:png favcount:<5"), by(&|p| p.file_ext == FileExt::PNG && p.fav_count < 5));
    assert_eq!(ids_of(db, "ratio:1.."), by(&|p| p.width as u32 * 1000 / p.height as u32 >= 1000));
    assert_eq!(ids_of(db, "mpixel:..1"), by(&|p| p.width as u32 * p.height as u32 <= 1_000_000));
    assert_eq!(ids_of(db, "tagcount:2..3"), by(&|p| (2..=3).contains(&p.tags.len())));
    assert_eq!(ids_of(db, "created_at:500.."), by(&|p| p.created_at >= 500));
    // a most popular tag of the abbreviation: both candidates begin with "l" and "h"
    let long = by(&|p| has(p, "long_hair"));
    let low = by(&|p| has(p, "low_hp"));
    let lh = ids_of(db, "/lh");
    if long.len() > low.len() {
        assert_eq!(lh, long);
    } else if low.len() > long.len() {
        assert_eq!(lh, low);
    } else {
        assert!(lh == long || lh == low);
    }
    // pages by score, from high to low, and by id among equal scores
    let mut order = by(&|p| has(p, "cat"));
    order.sort_by_key(|id| (score(held[*id as usize].as_ref().unwrap()), *id));
    order.reverse();
    let carried: Vec<u32> = order.iter().map(|id| held[*id as usize].as_ref().unwrap().id).collect();
    let mut pages = Vec::new();
    for page in 0..(carried.len() / 7 + 2) {
        let request = GetPostsQuery { query: "cat".to_string(), sort: Sort::ScoreDesc, page, limit: 7 };
        let part = search_posts(db, &request).unwrap();
        assert_eq!(part.matched, carried.len() as u64);
        pages.extend(part.post_ids);
    }
    assert_eq!(pages, carried);
    let tags = db.index().tags();
    let mut total = 0;
    for t in TAGS {
        let n = by(&|p| has(p, t)).len() as u64;
        assert_eq!(tags.count(t), n);
        total += n;
    }
    assert_eq!(tags.total(), total);
    let used = TAGS.iter().filter(|t| tags.count(t) > 0).count() as u64;
    assert_eq!(tags.tag_db().occupied().popcount(), used);
}

#[test]
fn random_changes_keep_the_indexes_right() {
    let mut dice = Dice(2024);
    let mut db: PostDb = Db::new(PostIndex::new());
    let mut held: Vec<Option<BooruPost>> = Vec::new();
    let mut carried = 1000;
    for step in 0..400 {
        match dice.roll(4) {
            0 | 1 => {
                let id = db.next_id().unwrap();
                let p = random_post(&mut dice, carried);
                carried += 1;
                assert!(db.insert(id, &p).is_ok());
                if id as usize == held.len() {
                    held.push(Some(p));
                } else {
                    assert!(held[id as usize].is_none());
                    held[id as usize] = Some(p);
                }
            }
            2 => {
                if !held.is_empty() {
                    let id = dice.roll(held.len() as u64) as usize;
                    if let Some(p) = held[id].take() {
                        assert!(db.remove(id as u32, &p).is_ok());
                    }
                }
            }
            _ => {
                if !held.is_empty() {
                    let id = dice.roll(held.len() as u64) as usize;
                    if let Some(p) = held[id].take() {
                        let q = random_post(&mut dice, p.id);
                        assert!(db.update(id as u32, &p, &q).is_ok());
                        held[id] = Some(q);
                    }
                }
            }
        }
        if step % 40 == 39 {
            check(&db, &held);
        }
    }
    check(&db, &held);
    let survivors: Vec<BooruPost> = held.iter().flatten().map(|p| random_copy(p)).collect();
    let (rebuilt, n) = load_posts(&survivors);
    assert_eq!(n, survivors.len());
    let dense: Vec<Option<BooruPost>> = survivors.into_iter().map(Some).collect();
    check(&rebuilt, &dense);
}

fn random_copy(p: &BooruPost) -> BooruPost {
    BooruPost {
        id: p.id,
        parent_id: p.parent_id,
        pixiv_id: p.pixiv_id,
        uploader_id: p.uploader_id,
        approver_id: p.approver_id,
        status: p.status,
        created_at: p.created_at,
        updated_at: p.updated_at,
        fav_count: p.fav_count,
        up_score: p.up_score,
        down_score: p.down_score,
        source: p.source.clone(),
        width: p.width,
        height: p.height,
        file_ext: p.file_ext,
        file_size: p.file_size,
        rating: p.rating,
        tags: p.tags.clone(),
        tag_count_general: p.tag_count_general,
        tag_count_artist: p.tag_count_artist,
        tag_count_character: p.tag_count_character,
        tag_count_copyright: p.tag_count_copyright,
        tag_count_meta: p.tag_count_meta,
    }
}
