use dotamoji::trie2::Trie;

type Dic16<T> = Trie<u16, T>;
type Dic8<T> = Trie<u8, T>;

#[test]
fn trie2_test_not_registered() {
    {
        let dic: Dic16<()> = Dic16::new();
        assert_eq!(dic.get("abc"), None);
    }
    {
        let dic: Dic8<()> = Dic8::new();
        assert_eq!(dic.get("abc"), None);
    }
}

#[test]
fn trie2_test_small() {
    {
        let dic: Dic16<()> = Dic16::new();
        assert_eq!(dic.get("abc"), None);
    }
    {
        let dic: Dic8<()> = Dic8::new();
        assert_eq!(dic.get("abc"), None);
    }
}

#[test]
fn trie2_test_mid() {
    {
        let mut dic = Dic16::new();
        dic.insert("ab", 1);
        assert_eq!(dic.get("abc"), None);
    }
    {
        let mut dic = Dic8::new();
        dic.insert("ab", 1);
        assert_eq!(dic.get("abc"), None);
    }
}

#[test]
fn trie2_test_over() {
    {
        let mut dic = Dic16::new();
        dic.insert("abcd", 1);
        assert_eq!(dic.get("abc"), None);
    }
    {
        let mut dic = Dic8::new();
        dic.insert("abcd", 1);
        assert_eq!(dic.get("abc"), None);
    }
}

#[test]
fn trie2_test_no_conflict() {
    {
        let mut dic = Dic16::new();
        dic.insert("abc", 1);
        dic.insert("ab", 2);
        assert_eq!(dic.get("abc"), Some(&[1][..]));
        assert_eq!(dic.get("ab"), Some(&[2][..]));
    }
    {
        let mut dic = Dic8::new();
        dic.insert("abc", 1);
        dic.insert("ab", 2);
        assert_eq!(dic.get("abc"), Some(&[1][..]));
        assert_eq!(dic.get("ab"), Some(&[2][..]));
    }
}

#[test]
fn trie2_test_dup_value() {
    {
        let mut dic = Dic16::new();
        dic.insert("ab", 1);
        dic.insert("ab", 2);
        assert_eq!(dic.get("ab"), Some(&[1, 2][..]));
    }
    {
        let mut dic = Dic8::new();
        dic.insert("ab", 1);
        dic.insert("ab", 2);
        assert_eq!(dic.get("ab"), Some(&[1, 2][..]));
    }
}

#[test]
fn trie2_test_conflict() {
    {
        let mut dic = Dic16::new();
        dic.insert("abc", 1);
        dic.insert("ad", 2);
        dic.insert("ac", 3);

        assert_eq!(dic.get("abc"), Some(&[1][..]));
        assert_eq!(dic.get("ad"), Some(&[2][..]));
        assert_eq!(dic.get("ac"), Some(&[3][..]));
    }
    {
        let mut dic = Dic8::new();
        dic.insert("abc", 1);
        dic.insert("ad", 2);
        dic.insert("ac", 3);

        assert_eq!(dic.get("abc"), Some(&[1][..]));
        assert_eq!(dic.get("ad"), Some(&[2][..]));
        assert_eq!(dic.get("ac"), Some(&[3][..]));
    }
}

#[test]
fn trie2_test_multibyte() {
    {
        let mut dic = Dic16::new();
        dic.insert("おはよう", 1);
        dic.insert("およごう", 2);
        dic.insert("🍣", 3);
        dic.insert("🍺", 4);

        assert_eq!(dic.get("おはよう"), Some(&[1][..]));
        assert_eq!(dic.get("およごう"), Some(&[2][..]));
        assert_eq!(dic.get("🍣"), Some(&[3][..]));
        assert_eq!(dic.get("🍺"), Some(&[4][..]));
    }
    {
        let mut dic = Dic8::new();
        dic.insert("おはよう", 1);
        dic.insert("およごう", 2);
        dic.insert("🍣", 3);
        dic.insert("🍺", 4);

        assert_eq!(dic.get("おはよう"), Some(&[1][..]));
        assert_eq!(dic.get("およごう"), Some(&[2][..]));
        assert_eq!(dic.get("🍣"), Some(&[3][..]));
        assert_eq!(dic.get("🍺"), Some(&[4][..]));
    }
}

#[test]
fn trie2_test_transite() {
    {
        let mut dic = Dic16::new();
        dic.insert("ba", 1);
        dic.insert("bb", 2);

        assert_eq!(dic.get("ba"), Some(&[1][..]));
        assert_eq!(dic.get("bb"), Some(&[2][..]));
    }
    {
        let mut dic = Dic8::new();
        dic.insert("ba", 1);
        dic.insert("bb", 2);

        assert_eq!(dic.get("ba"), Some(&[1][..]));
        assert_eq!(dic.get("bb"), Some(&[2][..]));
    }
}

#[test]
fn trie2_test_prefix() {
    {
        let mut dic = Dic16::new();
        dic.insert("abc", 1);
        dic.insert("ad", 2);
        dic.insert("ac", 3);
        dic.insert("a", 4);
        dic.insert("a", 5);

        let vec: Vec<(usize, Vec<i32>)> = dic.each_prefix("abcd");
        assert_eq!(vec, vec![(1, vec![4, 5]), (3, vec![1])]);
    }
    {
        let mut dic = Dic8::new();
        dic.insert("abc", 1);
        dic.insert("ad", 2);
        dic.insert("ac", 3);
        dic.insert("a", 4);
        dic.insert("a", 5);

        let vec: Vec<(usize, Vec<i32>)> = dic.each_prefix("abcd");
        assert_eq!(vec, vec![(1, vec![4, 5]), (3, vec![1])]);
    }
}
