use vm_perf::text::{push_dec, push_dec_right, push_dec_zero_padded, push_i64, push_int_left, push_signed};

fn with(f: impl FnOnce(&mut String)) -> String {
    let mut s = String::from(">");
    f(&mut s);
    s
}

#[test]
fn decimal() {
    assert_eq!(with(|s| push_dec(s, 0)), ">0");
    assert_eq!(with(|s| push_dec(s, 9)), ">9");
    assert_eq!(with(|s| push_dec(s, 10)), ">10");
    assert_eq!(with(|s| push_dec(s, 130000)), ">130000");
    assert_eq!(with(|s| push_dec(s, u128::MAX)), format!(">{}", u128::MAX));
}

#[test]
fn zero_padded() {
    assert_eq!(with(|s| push_dec_zero_padded(s, 6, 3)), ">006");
    assert_eq!(with(|s| push_dec_zero_padded(s, 42, 3)), ">042");
    assert_eq!(with(|s| push_dec_zero_padded(s, 1001, 3)), ">1001");
    assert_eq!(with(|s| push_dec_zero_padded(s, 0, 0)), ">0");
}

#[test]
fn right_aligned() {
    assert_eq!(with(|s| push_dec_right(s, 0, 4)), ">   0");
    assert_eq!(with(|s| push_dec_right(s, 39, 4)), ">  39");
    assert_eq!(with(|s| push_dec_right(s, 12345, 4)), ">12345");
}

#[test]
fn signed_numbers() {
    assert_eq!(with(|s| push_i64(s, -1)), ">-1");
    assert_eq!(with(|s| push_i64(s, 0)), ">0");
    assert_eq!(with(|s| push_i64(s, i64::MIN)), ">-9223372036854775808");
    assert_eq!(with(|s| push_i64(s, i64::MAX)), ">9223372036854775807");
    assert_eq!(with(|s| push_signed(s, 26)), ">+26");
    assert_eq!(with(|s| push_signed(s, 0)), ">+0");
    assert_eq!(with(|s| push_signed(s, -21)), ">-21");
    assert_eq!(with(|s| push_signed(s, i64::MIN)), ">-9223372036854775808");
}

#[test]
fn left_aligned() {
    assert_eq!(with(|s| push_int_left(s, 39, 4)), ">39  ");
    assert_eq!(with(|s| push_int_left(s, -3, 4)), ">-3  ");
    assert_eq!(with(|s| push_int_left(s, -123456, 4)), ">-123456");
    assert_eq!(with(|s| push_int_left(s, i128::MIN, 0)), format!(">{}", i128::MIN));
    for x in [-1000i128, -7, 0, 5, 99999] {
        assert_eq!(with(|s| push_int_left(s, x, 6)), format!(">{x:<6}"));
    }
}
