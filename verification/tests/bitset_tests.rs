use booru_index::bitset::{count_ones, Bitset};
use booru_index::posting::Queryable;
use booru_index::result::EvalResult;

fn bits(ids: &[u32]) -> Bitset {
    let mut b = Bitset::new();
    for id in ids {
        b.set(*id);
    }
    b
}

#[test]
fn bitset_set_get_clear() {
    let mut b = Bitset::new();
    assert!(b.is_empty());
    assert!(!b.get(5));
    b.set(5);
    b.set(64);
    b.set(200);
    b.set(5);
    assert!(b.get(5) && b.get(64) && b.get(200));
    assert!(!b.get(6) && !b.get(63) && !b.get(65) && !b.get(100_000));
    assert_eq!(b.popcount(), 3);
    assert_eq!(b.iter(), vec![5, 64, 200]);
    b.clear(64);
    b.clear(9_999);
    assert!(!b.get(64));
    assert_eq!(b.popcount(), 2);
    assert_eq!(b.iter(), vec![5, 200]);
    assert!(!b.is_empty());
    b.clear(5);
    b.clear(200);
    assert!(b.is_empty());
    assert_eq!(b.popcount(), 0);
    assert_eq!(b.first(), None);
}

#[test]
fn bitset_words_pack_sixty_four_ids() {
    let b = bits(&[0, 1, 63, 64, 130]);
    assert_eq!(b.checks(), &vec![(1u64 << 63) | 3, 1, 4]);
    assert_eq!(b.first(), Some(0));
    assert_eq!(bits(&[77, 300]).first(), Some(77));
}

#[test]
fn bitset_popcount_counts_every_bit() {
    let all: Vec<u32> = (0..200).collect();
    let b = bits(&all);
    assert_eq!(b.popcount(), 200);
    assert_eq!(b.iter(), all);
    assert_eq!(bits(&[u32::MAX]).popcount(), 1);
    assert!(bits(&[u32::MAX]).get(u32::MAX));
}

#[test]
fn bitset_algebra() {
    let a = bits(&[1, 2, 3, 70, 200]);
    let b = bits(&[2, 3, 4, 70]);
    assert_eq!(a.union(&b).iter(), vec![1, 2, 3, 4, 70, 200]);
    assert_eq!(a.intersect(&b).iter(), vec![2, 3, 70]);
    assert_eq!(a.difference(&b).iter(), vec![1, 200]);
    assert_eq!(b.difference(&a).iter(), vec![4]);
    assert_eq!(b.union(&a).iter(), a.union(&b).iter());
    assert_eq!(a.intersect(&Bitset::new()).popcount(), 0);
    assert_eq!(a.union(&Bitset::new()).iter(), a.iter());
}

#[test]
fn bitset_complement_is_bounded_by_the_universe() {
    let a = bits(&[1, 3, 64, 500]);
    assert_eq!(a.complement_within(5).iter(), vec![0, 2, 4]);
    assert_eq!(a.complement_within(0).popcount(), 0);
    let c = a.complement_within(66);
    assert_eq!(c.popcount(), 63);
    assert!(c.get(0) && c.get(65) && !c.get(64) && !c.get(66));
    let d = Bitset::new().complement_within(128);
    assert_eq!(d.popcount(), 128);
    assert!(!d.get(128));
    assert_eq!(d.checks().len(), 2);
}

#[test]
fn bitset_first_clear_grows_past_full_words() {
    let mut b = Bitset::new();
    assert_eq!(b.first_clear(), Some(0));
    for id in 0..64 {
        b.set(id);
    }
    assert_eq!(b.first_clear(), Some(64));
    b.set(64);
    b.clear(7);
    assert_eq!(b.first_clear(), Some(7));
}

#[test]
fn posting_handles_agree() {
    let b = bits(&[2, 9, 40]);
    let order = vec![40, 7, 9, 2, 11];
    let forms = vec![
        Queryable::Borrowed(&b),
        Queryable::from_ids(&vec![40, 2, 9, 2, 40]),
        Queryable::RangeSlice { order: &order, lo: 2, hi: 4 },
    ];
    let wants = vec![vec![2, 9, 40], vec![2, 9, 40], vec![9, 2]];
    for (form, want) in forms.iter().zip(wants) {
        assert_eq!(form.iter_ids(), want);
        assert_eq!(form.popcount(), want.len() as u64);
        for id in 0..50 {
            assert_eq!(form.contains(id), want.contains(&id));
        }
        let mut sorted = want.clone();
        sorted.sort();
        assert_eq!(form.to_bitset().iter(), sorted);
    }
    assert!(matches!(Queryable::from_ids(&vec![3, 1]), Queryable::IdsOwned(v) if v == vec![1, 3]));
}

#[test]
fn pages_cover_the_matches_without_gaps() {
    let b = bits(&[1, 2, 3, 5, 8, 13, 21]);
    let result = EvalResult::Borrowed(&b);
    let order: Vec<u32> = vec![21, 4, 13, 1, 8, 6, 2, 5, 3, 40];
    let full = vec![21, 13, 1, 8, 2, 5, 3];
    assert_eq!(result.get_sorted(&order, 0, 100, false), full);
    assert_eq!(result.matched(), 7);
    for limit in 1..9usize {
        let mut seen = Vec::new();
        let mut page = 0;
        loop {
            let part = result.get_sorted(&order, page * limit, limit, false);
            if part.is_empty() {
                break;
            }
            assert!(part.len() <= limit);
            seen.extend(part);
            page += 1;
        }
        assert_eq!(seen, full);
    }
    let mut back = full.clone();
    back.reverse();
    assert_eq!(result.get_sorted(&order, 0, 100, true), back);
    assert_eq!(result.get_sorted(&order, 2, 3, true), vec![2, 8, 1]);
    assert_eq!(result.get_sorted(&order, 7, 3, false), Vec::<u32>::new());
    assert_eq!(result.get_sorted(&order, 0, 0, false), Vec::<u32>::new());
    assert_eq!(result.get_sorted(&order, usize::MAX, usize::MAX, false), Vec::<u32>::new());
    let owned = EvalResult::Owned(bits(&[5]));
    assert!(owned.contains(5) && !owned.contains(6));
    assert_eq!(owned.get_sorted(&order, 0, 1, false), vec![5]);
}

#[test]
fn pages_in_the_order_of_the_ids() {
    let b = bits(&[3, 1, 200, 64, 7]);
    let result = EvalResult::Borrowed(&b);
    assert_eq!(result.get(0, 10, false), vec![1, 3, 7, 64, 200]);
    assert_eq!(result.get(0, 10, true), vec![200, 64, 7, 3, 1]);
    assert_eq!(result.get(1, 2, false), vec![3, 7]);
    assert_eq!(result.get(3, 5, true), vec![3, 1]);
    assert_eq!(result.get(5, 5, false), Vec::<u32>::new());
    assert_eq!(result.get(0, result.matched() as usize, false).len(), 5);
    assert_eq!(EvalResult::Owned(Bitset::new()).get(0, 9, false), Vec::<u32>::new());
}

#[test]
fn bits_of_a_word() {
    assert_eq!(count_ones(0), 0);
    assert_eq!(count_ones(1), 1);
    assert_eq!(count_ones(1 << 63), 1);
    assert_eq!(count_ones(u64::MAX), 64);
    assert_eq!(count_ones(0b1011_0000), 3);
    assert_eq!(count_ones(0x8000_0000_0000_0001), 2);
    let mut w: u64 = 0x9e37_79b9_7f4a_7c15;
    for _ in 0..200 {
        assert_eq!(count_ones(w), w.count_ones());
        w = w.wrapping_mul(6364136223846793005).wrapping_add(1442695040888963407);
    }
}
