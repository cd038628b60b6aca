use dotamoji::trie2::Trie;
use dotamoji::trie_to_double_array::transform;

#[test]
fn transform_test_single() {
    let mut trie: Trie<u16, i32> = Trie::new();
    trie.insert("a", 1);
    trie.insert("b", 2);
    trie.insert("c", 3);
    let count = trie.count();
    let ary = transform(trie);
    assert_eq!(count, ary.count());
    assert_eq!(&[1], ary.get("a").unwrap());
    assert_eq!(&[2], ary.get("b").unwrap());
    assert_eq!(&[3], ary.get("c").unwrap());
    assert_eq!(None, ary.get("d"));
}

#[test]
fn transform_test_multi() {
    let mut trie: Trie<u16, i32> = Trie::new();
    trie.insert("a", 1);
    trie.insert("b", 2);
    trie.insert("b", 3);
    trie.insert("c", 4);
    trie.insert("c", 5);
    trie.insert("c", 6);
    let count = trie.count();
    let ary = transform(trie);
    assert_eq!(count, ary.count());
    assert_eq!(&[1], ary.get("a").unwrap());
    assert_eq!(&[2, 3], ary.get("b").unwrap());
    assert_eq!(&[4, 5, 6], ary.get("c").unwrap());
    assert_eq!(None, ary.get("d"));
}

#[test]
fn transform_test_nest() {
    let mut trie: Trie<u16, i32> = Trie::new();
    trie.insert("a", 1);
    trie.insert("aa", 2);
    trie.insert("aaa", 3);
    let count = trie.count();
    let ary = transform(trie);
    assert_eq!(count, ary.count());
    assert_eq!(&[1], ary.get("a").unwrap());
    assert_eq!(&[2], ary.get("aa").unwrap());
    assert_eq!(&[3], ary.get("aaa").unwrap());
    assert_eq!(None, ary.get("aaaa"));
}

#[test]
fn transform_test_multi_nest() {
    let mut trie: Trie<u16, i32> = Trie::new();
    trie.insert("a", 1);
    trie.insert("aa", 2);
    trie.insert("ab", 3);
    trie.insert("b", 4);
    trie.insert("ba", 5);
    trie.insert("bb", 6);
    let count = trie.count();
    let ary = transform(trie);
    assert_eq!(count, ary.count());
    assert_eq!(&[1], ary.get("a").unwrap());
    assert_eq!(&[2], ary.get("aa").unwrap());
    assert_eq!(&[3], ary.get("ab").unwrap());
    assert_eq!(&[4], ary.get("b").unwrap());
    assert_eq!(&[5], ary.get("ba").unwrap());
    assert_eq!(&[6], ary.get("bb").unwrap());
    assert_eq!(None, ary.get("aaaa"));
}

#[test]
fn trie_to_double_array_test_single() {
    let mut trie: Trie<u8, i32> = Trie::new();
    trie.insert("a", 1);
    trie.insert("b", 2);
    trie.insert("c", 3);
    let count = trie.count();
    let ary = transform(trie);
    assert_eq!(count, ary.count());
    assert_eq!(&[1], ary.get("a").unwrap());
    assert_eq!(&[2], ary.get("b").unwrap());
    assert_eq!(&[3], ary.get("c").unwrap());
    assert_eq!(None, ary.get("d"));
}

#[test]
fn trie_to_double_array_test_multi() {
    let mut trie: Trie<u8, i32> = Trie::new();
    trie.insert("a", 1);
    trie.insert("b", 2);
    trie.insert("b", 3);
    trie.insert("c", 4);
    trie.insert("c", 5);
    trie.insert("c", 6);
    let count = trie.count();
    let ary = transform(trie);
    assert_eq!(count, ary.count());
    assert_eq!(&[1], ary.get("a").unwrap());
    assert_eq!(&[2, 3], ary.get("b").unwrap());
    assert_eq!(&[4, 5, 6], ary.get("c").unwrap());
    assert_eq!(None, ary.get("d"));
}

#[test]
fn trie_to_double_array_test_nest() {
    let mut trie: Trie<u8, i32> = Trie::new();
    trie.insert("a", 1);
    trie.insert("aa", 2);
    trie.insert("aaa", 3);
    let count = trie.count();
    let ary = transform(trie);
    assert_eq!(count, ary.count());
    assert_eq!(&[1], ary.get("a").unwrap());
    assert_eq!(&[2], ary.get("aa").unwrap());
    assert_eq!(&[3], ary.get("aaa").unwrap());
    assert_eq!(None, ary.get("aaaa"));
}

#[test]
fn trie_to_double_array_test_multi_nest() {
    let mut trie: Trie<u8, i32> = Trie::new();
    trie.insert("a", 1);
    trie.insert("aa", 2);
    trie.insert("ab", 3);
    trie.insert("b", 4);
    trie.insert("ba", 5);
    trie.insert("bb", 6);
    let count = trie.count();
    let ary = transform(trie);
    assert_eq!(count, ary.count());
    assert_eq!(&[1], ary.get("a").unwrap());
    assert_eq!(&[2], ary.get("aa").unwrap());
    assert_eq!(&[3], ary.get("ab").unwrap());
    assert_eq!(&[4], ary.get("b").unwrap());
    assert_eq!(&[5], ary.get("ba").unwrap());
    assert_eq!(&[6], ary.get("bb").unwrap());
    assert_eq!(None, ary.get("aaaa"));
}
