use logiclab::values::{
    add_wrap, bits_needed, format_value, merge_drivers, normalize_width, sar, shl, shr, sub_wrap, to_signed, width_mask, Bit,
    NetValue,
};

#[test]
fn width_normalization() {
    assert_eq!(normalize_width(0), 1);
    assert_eq!(normalize_width(1), 1);
    assert_eq!(normalize_width(2), 4);
    assert_eq!(normalize_width(5), 8);
    assert_eq!(normalize_width(9), 16);
    assert_eq!(normalize_width(17), 32);
    assert_eq!(normalize_width(64), 32);
}

#[test]
fn mask_at_32_bits_does_not_overflow() {
    assert_eq!(width_mask(1), 1);
    assert_eq!(width_mask(8), 0xFF);
    assert_eq!(width_mask(32), u32::MAX);
}

#[test]
fn merge_detects_conflict_per_bit() {
    let a = NetValue::from_u32(0b1010, 4);
    let b = NetValue::from_u32(0b1000, 4);
    let m = merge_drivers(a, b, 4);
    assert_eq!(m.bit(0), Bit::Zero);
    assert_eq!(m.bit(1), Bit::X);
    assert_eq!(m.bit(2), Bit::Zero);
    assert_eq!(m.bit(3), Bit::One);
}

#[test]
fn merge_same_value_is_not_conflict() {
    let a = NetValue::from_u32(0b1111, 4);
    let m = merge_drivers(a, a, 4);
    assert!(!m.has_unknown());
    assert_eq!(m.get(4), 0b1111);
}

#[test]
fn wrap_arithmetic() {
    let (s, c) = add_wrap(15, 1, 0, 4);
    assert_eq!((s, c), (0, 1));
    let (s, c) = add_wrap(0xFF, 0x01, 0, 8);
    assert_eq!((s, c), (0x00, 1));
    let (s, c) = add_wrap(u32::MAX, 1, 0, 32);
    assert_eq!((s, c), (0, 1));
}

#[test]
fn subtract_borrow() {
    assert_eq!(sub_wrap(3, 5, 0, 8), (0xFE, 1));
    assert_eq!(sub_wrap(5, 3, 0, 8), (2, 0));
}

#[test]
fn signed_roundtrip() {
    assert_eq!(to_signed(0b1111, 4), -1);
    assert_eq!(to_signed(0b1000, 4), -8);
    assert_eq!(to_signed(0b0111, 4), 7);
    assert_eq!(to_signed(0xFFFFFFFF, 32), -1);
}

#[test]
fn shifts() {
    assert_eq!(shr(0b1000_0000, 4, 8), 0b0000_1000);
    assert_eq!(sar(0b1000_0000, 4, 8), 0b1111_1000);
    assert_eq!(shl(0b0000_0001, 4, 8), 0b0001_0000);
    assert_eq!(shr(1, 8, 8), 0);
    assert_eq!(sar(0x80, 8, 8), 0xFF);
}

#[test]
fn bits_needed_matches_encoding() {
    assert_eq!(bits_needed(1), 1);
    assert_eq!(bits_needed(2), 1);
    assert_eq!(bits_needed(3), 2);
    assert_eq!(bits_needed(8), 3);
    assert_eq!(bits_needed(16), 4);
}

#[test]
fn format_reports_unknown_bits() {
    let v = NetValue::new(0b0000, 0b0010);
    assert_eq!(format_value(v, 4, false), "00x0");
    assert_eq!(format_value(NetValue::from_u32(5, 4), 4, false), "5");
    assert_eq!(format_value(NetValue::from_u32(0b1111, 4), 4, true), "-1");
    assert_eq!(format_value(NetValue::one(), 1, false), "1");
}

// Further checks of the value model.

#[test]
fn multiply_wraps_at_width() {
    assert_eq!(logiclab::values::mul_wrap(16, 16, 8), 0);
    assert_eq!(logiclab::values::mul_wrap(3, 5, 8), 15);
}

#[test]
fn add_with_carry_in_counts_it() {
    assert_eq!(add_wrap(7, 8, 1, 4), (0, 1));
    assert_eq!(add_wrap(1, 2, 1, 8), (4, 0));
}

#[test]
fn zero_and_one_values() {
    assert_eq!(NetValue::zero().get(1), 0);
    assert_eq!(NetValue::one().get(1), 1);
    assert!(!NetValue::zero().has_unknown());
}
