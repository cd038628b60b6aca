use dotamoji::double_array::DoubleArray;
use dotamoji::search_cache::NoCache;

type Da8<T> = DoubleArray<u8, T, NoCache>;
type Da16<T> = DoubleArray<u16, T, NoCache>;

#[test]
fn double_array_test_not_registered() {
    let pt: Da8<()> = Da8::new();
    assert_eq!(pt.get("abc"), None);
}

#[test]
fn double_array_test_small() {
    let pt: Da8<()> = Da8::new();
    assert_eq!(pt.get("abc"), None);
}

#[test]
fn double_array_test_mid() {
    let mut pt = Da8::new();
    pt.insert("ab", 1);
    assert_eq!(pt.get("abc"), None);
}

#[test]
fn double_array_test_over() {
    let mut pt = Da8::new();
    pt.insert("abcd", 1);
    assert_eq!(pt.get("abc"), None);
}

#[test]
fn double_array_test_no_conflict() {
    let mut pt = Da8::new();
    pt.insert("abc", 1);
    pt.insert("ab", 2);
    assert_eq!(pt.get("abc"), Some(&[1][..]));
    assert_eq!(pt.get("ab"), Some(&[2][..]));
}

#[test]
fn double_array_test_dup_value() {
    let mut pt = Da8::new();
    pt.insert("ab", 1);
    pt.insert("ab", 2);
    assert_eq!(pt.get("ab"), Some(&[1, 2][..]));
}

#[test]
fn double_array_test_conflict() {
    let mut pt = Da8::new();
    pt.insert("abc", 1);
    pt.insert("ad", 2);
    pt.insert("ac", 3);

    assert_eq!(pt.get("abc"), Some(&[1][..]));
    assert_eq!(pt.get("ad"), Some(&[2][..]));
    assert_eq!(pt.get("ac"), Some(&[3][..]));
}

#[test]
fn double_array_test_multibyte() {
    let mut pt = Da8::new();
    pt.insert("おはよう", 1);
    pt.insert("およごう", 2);

    assert_eq!(pt.get("おはよう"), Some(&[1][..]));
    assert_eq!(pt.get("およごう"), Some(&[2][..]));
}

#[test]
fn double_array_test_transite() {
    let mut pt = Da8::new();
    pt.insert("ba", 1);
    pt.insert("bb", 2);

    assert_eq!(pt.get("ba"), Some(&[1][..]));
    assert_eq!(pt.get("bb"), Some(&[2][..]));
}

#[test]
fn double_array_test_prefix() {
    let mut pt = Da8::new();
    pt.insert("abc", 1);
    pt.insert("ad", 2);
    pt.insert("ac", 3);
    pt.insert("a", 4);
    pt.insert("a", 5);

    let vec: Vec<(usize, Vec<i32>)> = pt.each_prefix("abcd");
    assert_eq!(vec, vec![(1, vec![4, 5]), (3, vec![1])]);
}

#[test]
fn double_array_b_test_not_registered() {
    let pt: Da16<()> = Da16::new();
    assert_eq!(pt.get("abc"), None);
}

#[test]
fn double_array_b_test_small() {
    let pt: Da16<()> = Da16::new();
    assert_eq!(pt.get("abc"), None);
}

#[test]
fn double_array_b_test_mid() {
    let mut pt = Da16::new();
    pt.insert("ab", 1);
    assert_eq!(pt.get("abc"), None);
}

#[test]
fn double_array_b_test_over() {
    let mut pt = Da16::new();
    pt.insert("abcd", 1);
    assert_eq!(pt.get("abc"), None);
}

#[test]
fn double_array_b_test_no_conflict() {
    let mut pt = Da16::new();
    pt.insert("abc", 1);
    pt.insert("ab", 2);
    assert_eq!(pt.get("abc"), Some(&[1][..]));
    assert_eq!(pt.get("ab"), Some(&[2][..]));
}

#[test]
fn double_array_b_test_dup_value() {
    let mut pt = Da16::new();
    pt.insert("ab", 1);
    pt.insert("ab", 2);
    assert_eq!(pt.get("ab"), Some(&[1, 2][..]));
}

#[test]
fn double_array_b_test_conflict() {
    let mut pt = Da16::new();
    pt.insert("abc", 1);
    pt.insert("ad", 2);
    pt.insert("ac", 3);

    assert_eq!(pt.get("abc"), Some(&[1][..]));
    assert_eq!(pt.get("ad"), Some(&[2][..]));
    assert_eq!(pt.get("ac"), Some(&[3][..]));
}

#[test]
fn double_array_b_test_multibyte() {
    let mut pt = Da16::new();
    pt.insert("おはよう", 1);
    pt.insert("およごう", 2);

    assert_eq!(pt.get("おはよう"), Some(&[1][..]));
    assert_eq!(pt.get("およごう"), Some(&[2][..]));
}

#[test]
fn double_array_b_test_transite() {
    let mut pt = Da16::new();
    pt.insert("ba", 1);
    pt.insert("bb", 2);

    assert_eq!(pt.get("ba"), Some(&[1][..]));
    assert_eq!(pt.get("bb"), Some(&[2][..]));
}

#[test]
fn double_array_b_test_prefix() {
    let mut pt = Da16::new();
    pt.insert("abc", 1);
    pt.insert("ad", 2);
    pt.insert("ac", 3);
    pt.insert("a", 4);
    pt.insert("a", 5);

    let units: Vec<u16> = "abcd".encode_utf16().collect();
    let mut vec: Vec<(String, Vec<i32>)> = Vec::new();
    for (len, data) in pt.each_prefix("abcd") {
        vec.push((String::from_utf16_lossy(&units[..len]), data));
    }
    assert_eq!(
        vec,
        vec![("a".to_string(), vec![4, 5]), ("abc".to_string(), vec![1])]
    );
}
