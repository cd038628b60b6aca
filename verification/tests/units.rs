use dotamoji::as_chars::{AsChars, AsUsize, IntoString};
use dotamoji::double_array::DoubleArray;
use dotamoji::search_cache::NoCache;
use dotamoji::trie2::Trie;

#[test]
fn units_of_str_follow_encoding() {
    let bytes: Vec<u8> = AsChars::<u8>::as_chars("abc");
    assert_eq!(bytes, vec![97, 98, 99]);
    let utf16: Vec<u16> = AsChars::<u16>::as_chars("あ");
    assert_eq!(utf16, vec![0x3042]);
    let chars: Vec<char> = AsChars::<char>::as_chars("あb");
    assert_eq!(chars, vec!['あ', 'b']);
}

#[test]
fn into_string_decodes() {
    assert_eq!(<u8 as IntoString>::into_string(&[97, 98]), "ab");
    assert_eq!(<u16 as IntoString>::into_string(&[0x3042]), "あ");
    assert_eq!(<char as IntoString>::into_string(&['あ', 'b']), "あb");
}

#[test]
fn unit_round_trip() {
    assert_eq!(u8::from_usize(200u8.as_usize()), 200);
    assert_eq!(u16::from_usize(60000u16.as_usize()), 60000);
    assert_eq!(char::from_usize('あ'.as_usize()), 'あ');
    assert_eq!(<u8 as AsUsize>::max_value(), 255);
    assert_eq!(<u16 as AsUsize>::max_value(), 65535);
}

#[test]
fn round_trip_order_independent() {
    // the round-trip law on concrete values, in both insertion orders
    let mut a: DoubleArray<u8, i32, NoCache> = DoubleArray::new();
    a.insert("left", 1);
    a.insert("right", 2);
    let mut b: DoubleArray<u8, i32, NoCache> = DoubleArray::new();
    b.insert("right", 2);
    b.insert("left", 1);
    assert_eq!(a.get("left"), Some(&[1][..]));
    assert_eq!(a.get("right"), Some(&[2][..]));
    assert_eq!(a.get("left"), b.get("left"));
    assert_eq!(a.get("right"), b.get("right"));
    assert_eq!(a.get("l"), None);
    assert_eq!(b.get("l"), None);
}

#[test]
fn repeated_queries_identical() {
    let mut dic: Trie<u16, i32> = Trie::new();
    dic.insert("ab", 1);
    dic.insert("a", 2);
    let g1 = dic.get("ab").map(|s| s.to_vec());
    let g2 = dic.get("ab").map(|s| s.to_vec());
    assert_eq!(g1, g2);
    let p1: Vec<(usize, Vec<i32>)> = dic.each_prefix("abc");
    let p2: Vec<(usize, Vec<i32>)> = dic.each_prefix("abc");
    assert_eq!(p1, p2);
    assert_eq!(p1, vec![(1, vec![2]), (2, vec![1])]);
}

#[test]
fn counts_track_insertions() {
    let mut da: DoubleArray<u8, i32, NoCache> = DoubleArray::new();
    assert_eq!(da.count(), 0);
    da.insert("a", 1);
    da.insert("a", 2);
    da.insert("bc", 3);
    assert_eq!(da.count(), 3);

    let mut t: Trie<u8, i32> = Trie::new();
    assert_eq!(t.count(), 0);
    t.insert("a", 1);
    t.insert("bc", 2);
    assert_eq!(t.count(), 2);
}

#[test]
fn deep_rebase_chain() {
    // force repeated collisions and relocations, then check every key
    let mut da: DoubleArray<u8, usize, NoCache> = DoubleArray::new();
    let words = [
        "a", "b", "ab", "ba", "abc", "abd", "acd", "bcd", "aa", "aaa", "aab", "ca", "cb", "cc",
    ];
    for (i, w) in words.iter().enumerate() {
        da.insert(*w, i);
    }
    for (i, w) in words.iter().enumerate() {
        assert_eq!(da.get(*w), Some(&[i][..]));
    }
    assert_eq!(da.get("abcd"), None);
    assert_eq!(da.count(), words.len());
}
