use dotamoji::analyze::{analyze, UNKNOWN_COST, UNKNOWN_ID};
use dotamoji::double_array::DoubleArray;
use dotamoji::info::Info;
use dotamoji::matrix::Matrix;
use dotamoji::search_cache::NoCache;

type Dict = DoubleArray<u16, Info, NoCache>;

#[test]
fn analyzer_minimal_cost_path() {
    let mut dic = Dict::new();
    dic.insert("東京", Info::new(1, 1, 100));
    dic.insert("京都", Info::new(1, 1, 50));
    let matrix = Matrix::new(1300, 1300);

    let analyzed = analyze("京都", &dic, &matrix).unwrap();
    assert_eq!(analyzed.cost, 50);

    let expected: Vec<u16> = "京都".encode_utf16().collect();
    let mut iter = analyzed.iter();
    let token = iter.next().unwrap();
    assert_eq!(token.word, expected);
    assert_eq!(token.id, 1);
    assert_eq!(token.cost, 50);
    assert!(iter.next().is_none());
}

#[test]
fn analyzer_unknown_word_fallback() {
    let dic = Dict::new();
    let matrix = Matrix::new(1300, 1300);

    let analyzed = analyze("xy", &dic, &matrix).unwrap();
    assert_eq!(analyzed.cost, 2 * UNKNOWN_COST as i32);

    let mut iter = analyzed.iter();
    let first = iter.next().unwrap();
    assert_eq!(first.word, "x".encode_utf16().collect::<Vec<u16>>());
    assert_eq!(first.id, UNKNOWN_ID);
    assert_eq!(first.cost, UNKNOWN_COST as i32);
    let second = iter.next().unwrap();
    assert_eq!(second.word, "y".encode_utf16().collect::<Vec<u16>>());
    assert_eq!(second.id, UNKNOWN_ID);
    assert_eq!(second.cost, UNKNOWN_COST as i32);
    assert!(iter.next().is_none());
}

#[test]
fn analyzer_known_beats_fallback_pair() {
    let mut dic = Dict::new();
    dic.insert("ab", Info::new(2, 3, 7));
    let matrix = Matrix::new(1300, 1300);

    let analyzed = analyze("ab", &dic, &matrix).unwrap();
    assert_eq!(analyzed.cost, 7);

    let mut iter = analyzed.iter();
    let token = iter.next().unwrap();
    assert_eq!(token.word, "ab".encode_utf16().collect::<Vec<u16>>());
    assert_eq!(token.id, 2);
    assert!(iter.next().is_none());
}

#[test]
fn analyzer_transition_costs_choose_segmentation() {
    // "abc" can be read as "a"+"bc" or "ab"+"c"; the transition matrix makes
    // the second pairing cheaper even though the word costs are equal
    let mut dic = Dict::new();
    dic.insert("a", Info::new(1, 1, 10));
    dic.insert("bc", Info::new(2, 2, 10));
    dic.insert("ab", Info::new(3, 3, 10));
    dic.insert("c", Info::new(4, 4, 10));
    let mut matrix = Matrix::new(5, 5);
    // joining "a" to "bc" costs 100, joining "ab" to "c" costs 1
    matrix.set_cost(1, 2, 100);
    matrix.set_cost(3, 4, 1);

    let analyzed = analyze("abc", &dic, &matrix).unwrap();
    assert_eq!(analyzed.cost, 21);

    let mut iter = analyzed.iter();
    let first = iter.next().unwrap();
    assert_eq!(first.word, "ab".encode_utf16().collect::<Vec<u16>>());
    // incremental cost: the word's own cost plus the join into "c"
    assert_eq!(first.cost, 11);
    let second = iter.next().unwrap();
    assert_eq!(second.word, "c".encode_utf16().collect::<Vec<u16>>());
    // the last word joins the boundary context at cost 0
    assert_eq!(second.cost, 10);
    assert!(iter.next().is_none());
}

#[test]
fn analyzer_empty_sentence() {
    let dic = Dict::new();
    let matrix = Matrix::new(1, 1);
    let analyzed = analyze("", &dic, &matrix).unwrap();
    assert_eq!(analyzed.cost, 0);
    let mut iter = analyzed.iter();
    assert!(iter.next().is_none());
}

#[test]
fn analyzer_restartable_iterator() {
    let mut dic = Dict::new();
    dic.insert("ab", Info::new(1, 1, 5));
    let matrix = Matrix::new(1300, 1300);
    let analyzed = analyze("ab", &dic, &matrix).unwrap();

    let mut first_pass: Vec<u16> = Vec::new();
    let mut iter = analyzed.iter();
    while let Some(token) = iter.next() {
        first_pass.extend(token.word);
    }
    let mut second_pass: Vec<u16> = Vec::new();
    let mut iter2 = analyzed.iter();
    while let Some(token) = iter2.next() {
        second_pass.extend(token.word);
    }
    assert_eq!(first_pass, second_pass);
    assert_eq!(first_pass, "ab".encode_utf16().collect::<Vec<u16>>());
}

#[test]
fn analyzer_reports_fallback_out_of_matrix() {
    // the fallback entry's context pair does not fit this matrix, so a
    // sentence that needs the fallback is a typed failure
    let dic = Dict::new();
    let matrix = Matrix::new(2, 2);
    assert!(analyze("xy", &dic, &matrix).is_err());
}
