use period_search::render::{masks_to_string, push_decimal, push_mask};

#[test]
fn push_decimal_writes_digits() {
    let mut text = String::from("n=");
    push_decimal(&mut text, 0);
    assert_eq!(text, "n=0");
    push_decimal(&mut text, 7);
    push_decimal(&mut text, 10);
    push_decimal(&mut text, 64);
    push_decimal(&mut text, 12345);
    assert_eq!(text, "n=07106412345");
    let mut text = String::new();
    push_decimal(&mut text, 9_876_543_210);
    assert_eq!(text, "9876543210");
}

#[test]
fn push_mask_writes_one_position() {
    let mut text = String::new();
    push_mask(&mut text, 1 << 12);
    assert_eq!(text, "12");
    let mut text = String::new();
    push_mask(&mut text, 0b1010_0110);
    assert_eq!(text, "1/2/5/7");
    let mut text = String::new();
    push_mask(&mut text, 0b1111_1110);
    assert_eq!(text, "1/2/3/4/5/6/7");
    let mut text = String::new();
    push_mask(&mut text, 0b1_1111_1110);
    assert_eq!(text, "???(8)");
    let mut text = String::new();
    push_mask(&mut text, 0);
    assert_eq!(text, "");
    let mut text = String::new();
    push_mask(&mut text, (1 << 63) | (1 << 10));
    assert_eq!(text, "10/63");
}

#[test]
fn masks_to_string_joins_the_positions() {
    assert_eq!(masks_to_string(&vec![2, 0b110, u64::MAX, 0, 1 << 10]), "1, 1/2, ???(64), , 10");
    assert_eq!(masks_to_string(&vec![32]), "5");
    assert_eq!(masks_to_string(&vec![]), "");
    assert_eq!(masks_to_string(&vec![2, 2, 2]), "1, 1, 1");
}
