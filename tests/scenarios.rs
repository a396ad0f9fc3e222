use bitvector::arith::{arithmetic_neg, flaged_add, overflowing_add, wrapping_add, wrapping_sub};
use bitvector::binary::{BinaryBase, BinaryError, SignMode, INDEX_FROM_START, INDEX_TO_END};
use bitvector::bitwise::{bitwise_and, bitwise_nand, bitwise_not, bitwise_or, bitwise_xor};
use bitvector::bitwise_map::{bitwise_map, table_from_terms};
use bitvector::construct::{
    parse_bitvec_from_bytes, parse_bitvec_from_isize, parse_bitvec_from_iterable, parse_bitvec_from_str,
};
use bitvector::format::{to_string_bin, to_string_formatted_default, to_string_hex};
use bitvector::shifts::{arithmetic_wrapping_rsh, logical_underflowing_rsh, overflowing_lsh, wrapping_lsh};

fn text(s: &str, len: u64, mode: SignMode) -> BinaryBase {
    parse_bitvec_from_str(s, Some(len), Some(mode)).unwrap()
}

fn bin(v: &BinaryBase) -> String {
    to_string_bin(v, false)
}

#[test]
fn add_wraps_to_zero_with_overflow() {
    let a = text("1010", 4, SignMode::Unsigned);
    let b = text("0110", 4, SignMode::Unsigned);
    let (sum, flags) = flaged_add(&a, &b).unwrap();
    assert_eq!(bin(&sum), "0000");
    assert!(flags.overflow());
    assert!(flags.zeroflag());
    assert!(!flags.signflag());
    let (s2, of) = overflowing_add(&a, &b).unwrap();
    assert_eq!(bin(&s2), "0000");
    assert!(of);
}

#[test]
fn sign_extension_beyond_length_reads_sign_bit() {
    let v = parse_bitvec_from_isize(-1, Some(8), Some(SignMode::Signed)).unwrap();
    assert_eq!(v.len(), 8);
    assert!(v.get_bit(100));
    assert_eq!(bin(&v), "11111111");
    let u = parse_bitvec_from_isize(5, Some(8), Some(SignMode::Unsigned)).unwrap();
    assert!(!u.get_bit(100));
}

#[test]
fn left_shift_by_one_with_carry() {
    let a = text("1010", 4, SignMode::Unsigned);
    let r = wrapping_lsh(&a, 1).unwrap();
    assert_eq!(bin(&r), bin(&text("0100", 4, SignMode::Unsigned)));
    let (r2, carry) = overflowing_lsh(&a, 1).unwrap();
    assert_eq!(bin(&r2), "0100");
    assert_eq!(bin(&carry), "1");
}

#[test]
fn bitwise_map_minterm_three_is_and() {
    let a = text("1100", 4, SignMode::Unsigned);
    let b = text("1010", 4, SignMode::Unsigned);
    let table = table_from_terms(&vec![(3, true)]).unwrap();
    let r = bitwise_map(&vec![a.clone(), b.clone()], &table).unwrap();
    assert_eq!(bin(&r), "1000");
    assert_eq!(bin(&r), bin(&bitwise_and(&a, &b)));
}

#[test]
fn checked_shrink_refuses_lost_bit() {
    let mut v = parse_bitvec_from_str("0b100", Some(3), Some(SignMode::Unsigned)).unwrap();
    assert_eq!(v.resize(2, true), Err(BinaryError::DoesNotFit));
    assert_eq!(bin(&v), "100");
    assert_eq!(v.resize(2, false), Ok(()));
    assert_eq!(bin(&v), "00");
}

#[test]
fn checked_shrink_keeps_signed_value() {
    let mut v = text("1110", 4, SignMode::Signed);
    assert_eq!(v.resize(2, true), Ok(()));
    assert_eq!(bin(&v), "10");
    let mut w = text("0110", 4, SignMode::Signed);
    assert_eq!(w.resize(2, true), Err(BinaryError::DoesNotFit));
}

#[test]
fn growing_pads_with_sign_extension_bit() {
    let mut s = text("10", 2, SignMode::Signed);
    s.resize(5, false).unwrap();
    assert_eq!(bin(&s), "11110");
    let mut u = text("10", 2, SignMode::Unsigned);
    u.resize(5, true).unwrap();
    assert_eq!(bin(&u), "00010");
}

#[test]
fn text_radix_inference_and_whitespace() {
    let h = parse_bitvec_from_str("0xff", None, None).unwrap();
    assert_eq!(h.len(), 8);
    assert_eq!(bin(&h), "11111111");
    let inferred = parse_bitvec_from_str("1f", None, None).unwrap();
    assert_eq!(bin(&inferred), "00011111");
    let b = parse_bitvec_from_str("10 01\t1", None, None).unwrap();
    assert_eq!(b.len(), 5);
    assert_eq!(bin(&b), "10011");
    let wide = parse_bitvec_from_str("0x1", Some(8), Some(SignMode::Signed)).unwrap();
    assert_eq!(bin(&wide), "00000001");
    assert!(matches!(parse_bitvec_from_str("0b102", None, None), Err(BinaryError::UnsupportedInput)));
    assert!(matches!(parse_bitvec_from_str("0xfg", None, None), Err(BinaryError::UnsupportedInput)));
    assert!(matches!(parse_bitvec_from_str("0xff", Some(4), None), Err(BinaryError::DoesNotFit)));
    let empty = parse_bitvec_from_str("", None, None).unwrap();
    assert_eq!(empty.len(), 0);
}

#[test]
fn integer_default_widths() {
    assert_eq!(parse_bitvec_from_isize(0, None, None).unwrap().len(), 0);
    assert_eq!(parse_bitvec_from_isize(1, None, None).unwrap().len(), 1);
    assert_eq!(parse_bitvec_from_isize(5, None, None).unwrap().len(), 3);
    assert_eq!(parse_bitvec_from_isize(5, None, Some(SignMode::Signed)).unwrap().len(), 4);
    assert_eq!(parse_bitvec_from_isize(-1, None, None).unwrap().len(), 1);
    assert_eq!(parse_bitvec_from_isize(-4, None, None).unwrap().len(), 3);
    assert_eq!(parse_bitvec_from_isize(-5, None, None).unwrap().len(), 4);
    assert_eq!(parse_bitvec_from_isize(i64::MIN, None, None).unwrap().len(), 64);
    assert_eq!(bin(&parse_bitvec_from_isize(-5, None, None).unwrap()), "1011");
    assert!(matches!(parse_bitvec_from_isize(8, Some(3), None), Err(BinaryError::DoesNotFit)));
}

#[test]
fn bytes_and_bool_sequences() {
    let v = parse_bitvec_from_bytes(&vec![0x01, 0x80], None, None).unwrap();
    assert_eq!(v.len(), 16);
    assert_eq!(bin(&v), "1000000000000001");
    let s = parse_bitvec_from_iterable(&vec![true, false, false], None, None).unwrap();
    assert_eq!(bin(&s), "100");
    assert!(s.get_bit(2));
    assert!(!s.get_bit(0));
}

#[test]
fn negation_and_subtraction_values() {
    let a = text("0011", 4, SignMode::Signed);
    assert_eq!(bin(&arithmetic_neg(&a)), "1101");
    let zero = text("0000", 4, SignMode::Signed);
    assert_eq!(bin(&arithmetic_neg(&zero)), "0000");
    let x = text("0101", 4, SignMode::Unsigned);
    let y = text("0111", 4, SignMode::Unsigned);
    let d = wrapping_sub(&x, &y);
    assert_eq!(bin(&d), "1110");
    assert_eq!(d.sign_behavior, SignMode::Signed);
}

#[test]
fn sign_mismatch_is_refused() {
    let a = text("01", 2, SignMode::Unsigned);
    let b = text("01", 2, SignMode::Signed);
    assert!(matches!(wrapping_add(&a, &b), Err(BinaryError::SignMismatch)));
}

#[test]
fn add_different_lengths_zero_extends() {
    let a = text("1111", 4, SignMode::Unsigned);
    let b = text("00000001", 8, SignMode::Unsigned);
    let r = wrapping_add(&a, &b).unwrap();
    assert_eq!(bin(&r), "00010000");
}

#[test]
fn slices_with_steps_and_padding() {
    let v = text("110100", 6, SignMode::Unsigned);
    let low = BinaryBase::from_data(v.get_slice(0, 3, 1).unwrap());
    assert_eq!(bin(&low), "100");
    let rev = BinaryBase::from_data(v.get_slice(INDEX_TO_END, INDEX_FROM_START, -1).unwrap());
    assert_eq!(bin(&rev), "001011");
    let every_other = BinaryBase::from_data(v.get_slice(0, INDEX_TO_END, 2).unwrap());
    assert_eq!(bin(&every_other), "110");
    let padded = BinaryBase::from_data(v.get_slice(4, 9, 1).unwrap());
    assert_eq!(bin(&padded), "00011");
    let neg = text("1000", 4, SignMode::Signed);
    let ext = BinaryBase::from_data(neg.get_slice(2, 7, 1).unwrap());
    assert_eq!(bin(&ext), "11110");
    let tail = BinaryBase::from_data(v.get_slice(-2, INDEX_TO_END, 1).unwrap());
    assert_eq!(bin(&tail), "11");
    assert!(matches!(v.get_slice(0, 3, 0), Err(BinaryError::ZeroStep)));
    assert!(matches!(v.get_slice(4, 2, 1), Err(BinaryError::StopBeforeStart)));
}

#[test]
fn bit_and_slice_writes() {
    let mut v = text("0000", 4, SignMode::Unsigned);
    v.set_bit(1, true).unwrap();
    assert_eq!(bin(&v), "0010");
    v.set_bit(-1, true).unwrap();
    assert_eq!(bin(&v), "1010");
    assert_eq!(v.set_bit(4, true), Err(BinaryError::IndexOutOfRange));
    let mut w = text("000000", 6, SignMode::Unsigned);
    let val = text("000111", 6, SignMode::Unsigned);
    w.set_slice(0, 6, 2, &val).unwrap();
    assert_eq!(bin(&w), "010101");
    let mut z = text("000000", 6, SignMode::Unsigned);
    z.set_slice_bool(INDEX_TO_END, INDEX_FROM_START, -3, true).unwrap();
    assert_eq!(bin(&z), "100100");
    let mut short = text("0000", 4, SignMode::Unsigned);
    let three = text("111", 3, SignMode::Unsigned);
    assert_eq!(short.set_slice(0, 4, 1, &three), Err(BinaryError::IndexOutOfRange));
    assert_eq!(bin(&short), "0000");
}

#[test]
fn right_shifts() {
    let a = text("1001", 4, SignMode::Signed);
    assert_eq!(bin(&arithmetic_wrapping_rsh(&a, 1).unwrap()), "1100");
    let (r, carry) = logical_underflowing_rsh(&a, 2).unwrap();
    assert_eq!(bin(&r), "0010");
    assert_eq!(bin(&carry), "01");
    assert!(matches!(wrapping_lsh(&a, -1), Err(BinaryError::NegativeShift)));
    assert_eq!(bin(&wrapping_lsh(&a, 9).unwrap()), "0000");
    let (_, big_carry) = overflowing_lsh(&a, 6).unwrap();
    assert_eq!(bin(&big_carry), "100100");
}

#[test]
fn bitwise_ops_extend_shorter_operand() {
    let a = text("10", 2, SignMode::Signed);
    let b = text("0101", 4, SignMode::Unsigned);
    assert_eq!(bin(&bitwise_or(&a, &b)), "1111");
    assert_eq!(bin(&bitwise_xor(&b, &b)), "0000");
    assert_eq!(bin(&bitwise_nand(&b, &b)), "1010");
    assert_eq!(bin(&bitwise_not(&b)), "1010");
}

#[test]
fn hex_rendering() {
    let v = text("101011111", 9, SignMode::Unsigned);
    assert_eq!(to_string_hex(&v, true), "0x15f");
    assert_eq!(to_string_hex(&v, false), "15f");
    assert_eq!(to_string_bin(&v, true), "0b101011111");
}

#[test]
fn bitwise_map_errors() {
    let a = text("1", 1, SignMode::Unsigned);
    let small = text("1", 1, SignMode::Unsigned);
    assert!(matches!(bitwise_map(&vec![a.clone()], &small), Err(BinaryError::TableTooSmall)));
    let big = parse_bitvec_from_isize(0, Some(40), None).unwrap();
    assert!(matches!(bitwise_map(&vec![a.clone()], &big), Err(BinaryError::TableTooLarge)));
    let many: Vec<BinaryBase> = (0..32).map(|_| a.clone()).collect();
    assert!(matches!(bitwise_map(&many, &small), Err(BinaryError::TooManyOperands)));
    assert!(matches!(table_from_terms(&vec![(32, true)]), Err(BinaryError::IndexOutOfRange)));
}

#[test]
fn grouped_rendering() {
    let v = text("1111000011110000", 16, SignMode::Unsigned);
    assert_eq!(to_string_formatted_default(&v), "11110000 11110000");
    let w = text("1010000000001", 13, SignMode::Unsigned);
    assert_eq!(to_string_formatted_default(&w), "10100 00000001");
    let e = text("", 0, SignMode::Unsigned);
    assert_eq!(to_string_formatted_default(&e), "");
}
