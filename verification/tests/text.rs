use objsplit::text::{push_decimal, push_left, push_lower_hex, push_right, push_upper_hex, push_upper_hex_min};

#[test]
fn numbers_as_text() {
    let mut s = String::new();
    push_upper_hex(&mut s, 0xAB, 8);
    assert_eq!(s, format!("{:08X}", 0xAB));
    s.clear();
    push_lower_hex(&mut s, 0xDEAD_BEEF);
    assert_eq!(s, format!("{:x}", 0xDEAD_BEEFu32));
    s.clear();
    push_upper_hex_min(&mut s, 0x1_0F);
    assert_eq!(s, "10F");
    s.clear();
    push_decimal(&mut s, u64::MAX);
    assert_eq!(s, format!("{}", u64::MAX));
}

#[test]
fn padding_counts_characters() {
    let mut s = String::new();
    push_right(&mut s, "äb", 5);
    assert_eq!(s, format!("{:>5}", "äb"));
    s.clear();
    push_left(&mut s, "äb", 5);
    assert_eq!(s, format!("{:<5}", "äb"));
    s.clear();
    push_left(&mut s, "longer", 3);
    assert_eq!(s, "longer");
}
