use dotamoji::double_array::{check_raw_parts, DoubleArray};
use dotamoji::search_cache::NoCache;

#[test]
fn raw_parts_round_trip_validates() {
    let mut da: DoubleArray<u8, i32, NoCache> = DoubleArray::new();
    da.insert("ab", 1);
    da.insert("ac", 2);
    let (base, check, data) = da.into_raw_parts();
    assert!(check_raw_parts::<u8, i32>(&base, &check, &data));
    let reloaded: DoubleArray<u8, i32, NoCache> =
        DoubleArray::from_raw_parts(base, check, data);
    assert_eq!(reloaded.get("ab"), Some(&[1][..]));
    assert_eq!(reloaded.get("ac"), Some(&[2][..]));
    assert_eq!(reloaded.get("a"), None);
}

#[test]
fn raw_parts_rejects_malformed() {
    // mismatched lengths
    assert!(!check_raw_parts::<u8, i32>(&vec![0, 0], &vec![0, 0, 0], &vec![
        vec![],
        vec![]
    ]));
    // a cell claiming a parent with no base
    assert!(!check_raw_parts::<u8, i32>(
        &vec![0, 0, 0],
        &vec![0, 0, 1],
        &vec![vec![], vec![], vec![]]
    ));
    // values stored on a free cell
    assert!(!check_raw_parts::<u8, i32>(
        &vec![0, 0, 0],
        &vec![0, 0, 0],
        &vec![vec![], vec![], vec![7]]
    ));
    // the root cell may not be claimed
    let mut da: DoubleArray<u8, i32, NoCache> = DoubleArray::new();
    da.insert("a", 1);
    let (base, mut check, data) = da.into_raw_parts();
    check[1] = 9;
    assert!(!check_raw_parts::<u8, i32>(&base, &check, &data));
}

#[test]
fn capacity_probe_matches_limits() {
    let da: DoubleArray<u8, i32, NoCache> = DoubleArray::new();
    assert!(da.can_insert(0));
    assert!(da.can_insert(100));
    assert!(!da.can_insert(100_000));
}
