use booru_index::key::Key;
use booru_index::key_index::KeyIndex;
use booru_index::ngram::NgramIndex;
use booru_index::range_index::{RangeIndex, RangeQuery};
use booru_index::text::TextQuery;

fn text(s: &str) -> Key {
    Key::Text(s.to_string())
}

fn chars(s: &str) -> Vec<char> {
    s.chars().collect()
}

#[test]
fn key_index_files_ids_under_keys() {
    let mut index = KeyIndex::new();
    assert_eq!(index.len(), 0);
    assert!(index.get(&Key::Int(1)).is_none());
    index.insert(3, &Key::Int(1));
    index.insert(4, &Key::Int(1));
    index.insert(5, &Key::Int(-7));
    index.insert(6, &text("cat"));
    index.insert(3, &text("cat"));
    // a number and a text that looks like it are different keys
    index.insert(9, &text("1"));
    assert_eq!(index.len(), 4);
    assert_eq!(index.get(&Key::Int(1)).unwrap().iter_ids(), vec![3, 4]);
    assert_eq!(index.get(&Key::Int(-7)).unwrap().iter_ids(), vec![5]);
    assert_eq!(index.get(&text("cat")).unwrap().iter_ids(), vec![3, 6]);
    assert_eq!(index.get(&text("1")).unwrap().iter_ids(), vec![9]);
    assert_eq!(index.count(&Key::Int(1)), 2);
    assert_eq!(index.count(&text("dog")), 0);
    assert_eq!(index.total(), 6);
    let mut seen = Vec::new();
    for i in 0..index.len() {
        let key = index.key_at(i).duplicate();
        assert_eq!(index.posting_at(i).popcount(), index.count(&key));
        assert!(index.key_at(i).same(&key));
        seen.push(index.count(&key));
    }
    seen.sort();
    assert_eq!(seen, vec![1, 1, 2, 2]);
}

#[test]
fn key_index_drops_empty_postings() {
    let mut index = KeyIndex::new();
    index.insert(1, &text("a"));
    index.insert(2, &text("b"));
    index.insert(3, &text("c"));
    index.remove(1, &text("a"));
    assert!(index.get(&text("a")).is_none());
    assert_eq!(index.len(), 2);
    assert_eq!(index.get(&text("b")).unwrap().iter_ids(), vec![2]);
    assert_eq!(index.get(&text("c")).unwrap().iter_ids(), vec![3]);
    // removing what is not there changes nothing
    index.remove(9, &text("b"));
    index.remove(2, &text("zzz"));
    assert_eq!(index.total(), 2);
    index.remove(3, &text("c"));
    index.remove(2, &text("b"));
    assert_eq!(index.len(), 0);
    assert_eq!(index.total(), 0);
    index.insert(7, &text("a"));
    assert_eq!(index.get(&text("a")).unwrap().iter_ids(), vec![7]);
}

#[test]
fn key_index_update_moves_an_id() {
    let mut index = KeyIndex::new();
    index.insert(1, &Key::Int(10));
    index.insert(2, &Key::Int(10));
    index.update(1, &Key::Int(10), &Key::Int(20));
    assert_eq!(index.get(&Key::Int(10)).unwrap().iter_ids(), vec![2]);
    assert_eq!(index.get(&Key::Int(20)).unwrap().iter_ids(), vec![1]);
    index.update(2, &Key::Int(10), &Key::Int(10));
    assert_eq!(index.get(&Key::Int(10)).unwrap().iter_ids(), vec![2]);
    index.update(2, &Key::Int(10), &Key::Int(20));
    assert!(index.get(&Key::Int(10)).is_none());
    assert_eq!(index.get(&Key::Int(20)).unwrap().iter_ids(), vec![1, 2]);
    assert_eq!(index.total(), 2);
}

fn scores() -> RangeIndex {
    let mut index = RangeIndex::new();
    for (id, v) in [(0u32, 5i64), (1, -3), (2, 5), (3, 100), (4, 0), (5, -3)] {
        index.insert(id, v);
    }
    index
}

#[test]
fn range_index_keeps_ids_in_the_order_of_values() {
    let index = scores();
    assert_eq!(index.ids(), &vec![1, 5, 4, 0, 2, 3]);
    assert_eq!(index.value(3), Some(100));
    assert_eq!(index.value(9), None);
}

#[test]
fn range_queries_return_exactly_the_ids_in_range() {
    let index = scores();
    let values = [5i64, -3, 5, 100, 0, -3];
    let ranges = [
        RangeQuery::Between(-3, 5),
        RangeQuery::Between(0, 4),
        RangeQuery::Between(6, 5),
        RangeQuery::AtLeast(5),
        RangeQuery::AtLeast(i64::MIN),
        RangeQuery::AtMost(-3),
        RangeQuery::AtMost(i64::MAX),
        RangeQuery::Exactly(5),
        RangeQuery::Exactly(7),
        RangeQuery::Below(0),
        RangeQuery::Below(i64::MIN),
        RangeQuery::Above(5),
        RangeQuery::Above(i64::MAX),
    ];
    for range in ranges {
        let got = index.get(&range);
        let mut want = Vec::new();
        for id in 0..6u32 {
            let v = values[id as usize];
            let inside = match range {
                RangeQuery::Between(lo, hi) => lo <= v && v <= hi,
                RangeQuery::AtLeast(lo) => lo <= v,
                RangeQuery::AtMost(hi) => v <= hi,
                RangeQuery::Exactly(x) => v == x,
                RangeQuery::Below(x) => v < x,
                RangeQuery::Above(x) => v > x,
            };
            assert_eq!(got.contains(id), inside);
            if inside {
                want.push(id);
            }
        }
        assert_eq!(got.to_bitset().iter(), want);
        assert_eq!(got.popcount(), want.len() as u64);
    }
    assert_eq!(index.get(&RangeQuery::Between(-3, 5)).iter_ids(), vec![1, 5, 4, 0, 2]);
    assert_eq!(RangeQuery::Below(i64::MIN).bounds(), None);
    assert_eq!(RangeQuery::Above(3).bounds(), Some((4, i64::MAX)));
}

#[test]
fn range_index_remove_and_update() {
    let mut index = scores();
    index.remove(0, 5);
    assert_eq!(index.ids(), &vec![1, 5, 4, 2, 3]);
    // the value has to be the one that is stored
    index.remove(2, 6);
    assert_eq!(index.value(2), Some(5));
    index.update(3, 100, -10);
    assert_eq!(index.ids(), &vec![3, 1, 5, 4, 2]);
    index.update(3, -10, -10);
    assert_eq!(index.value(3), Some(-10));
    // an insert replaces the value that an id had
    index.insert(4, 50);
    assert_eq!(index.ids(), &vec![3, 1, 5, 2, 4]);
    assert_eq!(index.value(4), Some(50));
    assert_eq!(index.get(&RangeQuery::Exactly(0)).popcount(), 0);
}

#[test]
fn ngram_index_finds_texts_by_their_parts() {
    let mut two = NgramIndex::new(2);
    two.insert(1, &chars("cat"));
    two.insert(2, &chars("cattle"));
    two.insert(3, &chars("dog"));
    two.insert(4, &chars("a"));
    assert!(two.query(&chars("c")).is_none());
    assert!(two.query(&chars("zz")).is_none());
    let pattern = TextQuery::parse("*at*");
    let list = two.query(pattern.text()).unwrap();
    let mut ids: Vec<u32> = list.iter().filter(|e| pattern.accepts(&e.text)).map(|e| e.id).collect();
    ids.sort();
    assert_eq!(ids, vec![1, 2]);
    let tail = TextQuery::parse("*og");
    let list = two.query(tail.text()).unwrap();
    assert!(list.iter().any(|e| e.id == 3 && tail.accepts(&e.text)));
    two.remove(1, &chars("cat"));
    let list = two.query(&chars("at")).unwrap();
    assert!(list.iter().all(|e| e.id == 2));
    two.remove(2, &chars("cattle"));
    assert!(two.query(&chars("at")).is_none());
    let mut one = NgramIndex::new(1);
    one.insert(4, &chars("a"));
    one.insert(5, &chars("banana"));
    let list = one.query(&chars("a")).unwrap();
    assert!(list.iter().any(|e| e.id == 4));
    assert!(list.iter().any(|e| e.id == 5));
}

#[test]
fn range_index_from_entries() {
    let entries = vec![(5i64, 0u32), (-3, 1), (5, 2), (100, 3), (0, 4), (-3, 5)];
    let index = RangeIndex::from_entries(&entries);
    assert_eq!(index.ids(), scores().ids());
    for (v, id) in &entries {
        assert_eq!(index.value(*id), Some(*v));
    }
    // of two entries for one id, the later one counts
    let twice = vec![(5i64, 0u32), (7, 1), (9, 0), (1, 2), (7, 1)];
    let index = RangeIndex::from_entries(&twice);
    assert_eq!(index.ids(), &vec![2, 1, 0]);
    assert_eq!(index.value(0), Some(9));
    assert_eq!(index.value(1), Some(7));
    assert_eq!(index.get(&RangeQuery::Exactly(5)).popcount(), 0);
    let none = RangeIndex::from_entries(&vec![]);
    assert_eq!(none.ids().len(), 0);
    let mut many = Vec::new();
    for id in 0..1000u32 {
        many.push((((id * 7919) % 1000) as i64, id));
    }
    let index = RangeIndex::from_entries(&many);
    let values: Vec<i64> = index.ids().iter().map(|id| index.value(*id).unwrap()).collect();
    assert_eq!(values, (0..1000).collect::<Vec<i64>>());
}
