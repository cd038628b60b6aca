use dotamoji::double_array::DoubleArray;
use dotamoji::search_cache::{BitCache0, BitCache1, BoolCache, DoubleCheck, NoCache, SearchCache};

fn occupancy() -> Vec<u32> {
    // cells 2..: a mix of occupied runs and holes
    vec![0, 0, 1, 1, 0, 2, 2, 2, 0, 0, 3, 0, 1, 1, 1, 1]
}

fn marked<C: SearchCache>(check: &[u32]) -> C {
    let mut c = C::new(check.len());
    for (i, &v) in check.iter().enumerate() {
        if i >= 2 && v != 0 {
            c.mark(i);
        }
    }
    c
}

#[test]
fn cache_strategies_agree_on_probes() {
    let check = occupancy();
    let nc: NoCache = marked(&check);
    let bc: BoolCache = marked(&check);
    let b0: BitCache0 = marked(&check);
    let b1: BitCache1 = marked(&check);
    for start in 0..check.len() + 3 {
        let expected = nc.find_empty(start, &check);
        assert_eq!(bc.find_empty(start, &check), expected);
        assert_eq!(b0.find_empty(start, &check), expected);
        assert_eq!(b1.find_empty(start, &check), expected);
    }
    for index in 2..check.len() + 3 {
        let expected = nc.is_filled(index, &check);
        assert_eq!(bc.is_filled(index, &check), expected);
        assert_eq!(b0.is_filled(index, &check), expected);
        assert_eq!(b1.is_filled(index, &check), expected);
    }
}

#[test]
fn double_check_strategy_builds_same_dictionary() {
    let mut plain: DoubleArray<u8, i32, NoCache> = DoubleArray::new();
    let mut checked: DoubleArray<u8, i32, DoubleCheck<BitCache1, NoCache>> = DoubleArray::new();
    let words = ["abc", "ad", "ac", "a", "ba", "bb", "aaa"];
    for (i, w) in words.iter().enumerate() {
        plain.insert(*w, i as i32);
        checked.insert(*w, i as i32);
    }
    for w in words.iter() {
        assert_eq!(plain.get(*w), checked.get(*w));
        assert!(checked.get(*w).is_some());
    }
    assert_eq!(plain.count(), checked.count());
}
