use dotamoji::matrix::{read_int, Matrix};

#[test]
fn matrix_zero_by_default() {
    let m = Matrix::new(3, 4);
    assert_eq!(m.get(0, 0), 0);
    assert_eq!(m.get(2, 3), 0);
}

#[test]
fn matrix_overlay_and_get() {
    let mut m = Matrix::new(3, 4);
    m.set_cost(1, 2, -7);
    m.set_cost(2, 3, 25);
    assert_eq!(m.get(1, 2), -7);
    assert_eq!(m.get(2, 3), 25);
    assert_eq!(m.get(0, 0), 0);
    assert_eq!(m.get(1, 3), 0);
}

#[test]
fn matrix_overlay_last_wins() {
    let mut m = Matrix::new(2, 2);
    m.set_cost(1, 1, 5);
    m.set_cost(1, 1, -9);
    assert_eq!(m.get(1, 1), -9);
}

#[test]
fn read_int_plain() {
    assert_eq!(read_int(b"123"), Some(123));
    assert_eq!(read_int(b"0"), Some(0));
}

#[test]
fn read_int_negative() {
    assert_eq!(read_int(b"-45"), Some(-45));
    assert_eq!(read_int(b"-0"), Some(0));
}

#[test]
fn read_int_rejects_junk() {
    assert_eq!(read_int(b""), None);
    assert_eq!(read_int(b"-"), None);
    assert_eq!(read_int(b"12a"), None);
    assert_eq!(read_int(b"a12"), None);
}

#[test]
fn read_int_bounds() {
    assert_eq!(read_int(b"2147483647"), Some(2147483647));
    assert_eq!(read_int(b"2147483648"), None);
    assert_eq!(read_int(b"-2147483648"), Some(-2147483648));
    assert_eq!(read_int(b"-2147483649"), None);
}
