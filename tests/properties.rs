use bitvector::arith::{arithmetic_neg, overflowing_add, wrapping_sub};
use bitvector::binary::{BinaryBase, BinaryError, SignMode, INDEX_TO_END};
use bitvector::bitwise::bitwise_not;
use bitvector::construct::parse_bitvec_from_str;
use bitvector::convert::{convert_base, extend_to_signed_base, pad_sign_extend};
use bitvector::format::to_string_bin;
use bitvector::utility::{count_ones, count_zeros, equal_cmp, find, find_all, hamming_distance, leading_zeros, trailing_ones};

fn text(s: &str, len: u64, mode: SignMode) -> BinaryBase {
    parse_bitvec_from_str(s, Some(len), Some(mode)).unwrap()
}

fn bin(v: &BinaryBase) -> String {
    to_string_bin(v, false)
}

#[test]
fn add_then_sub_round_trips() {
    for (x, y) in [("1011", "0110"), ("1111", "1111"), ("0000", "1001")] {
        let a = text(x, 4, SignMode::Unsigned);
        let b = text(y, 4, SignMode::Unsigned);
        let (sum, _) = overflowing_add(&a, &b).unwrap();
        let back = wrapping_sub(&sum, &b);
        assert!(equal_cmp(&back, &a));
    }
}

#[test]
fn double_negation_is_identity() {
    for x in ["1000", "0001", "0000", "0110"] {
        let a = text(x, 4, SignMode::Signed);
        assert_eq!(bin(&arithmetic_neg(&arithmetic_neg(&a))), x);
    }
}

#[test]
fn double_not_is_identity() {
    let a = text("100101", 6, SignMode::Unsigned);
    assert_eq!(bin(&bitwise_not(&bitwise_not(&a))), "100101");
}

#[test]
fn full_slice_is_identity() {
    let a = text("1100101", 7, SignMode::Signed);
    let s = BinaryBase::from_data(a.get_slice(0, INDEX_TO_END, 1).unwrap());
    assert!(equal_cmp(&s, &a));
}

#[test]
fn grow_then_shrink_round_trips() {
    let mut a = text("101", 3, SignMode::Signed);
    a.resize(9, false).unwrap();
    assert_eq!(bin(&a), "111111101");
    a.resize(3, false).unwrap();
    assert_eq!(bin(&a), "101");
}

#[test]
fn counting_and_searching() {
    let a = text("1011000", 7, SignMode::Unsigned);
    assert_eq!(count_ones(&a), 3);
    assert_eq!(count_zeros(&a), 4);
    assert_eq!(leading_zeros(&a), 0);
    assert_eq!(trailing_ones(&a), 0);
    let pat = text("11", 2, SignMode::Unsigned);
    assert_eq!(find(&a, &pat), Ok(Some(3)));
    let one = text("1", 1, SignMode::Unsigned);
    assert_eq!(find_all(&a, &one), Ok(vec![3, 4, 6]));
    let empty = text("", 0, SignMode::Unsigned);
    assert_eq!(find(&a, &empty), Err(BinaryError::EmptyPattern));
    assert_eq!(find_all(&a, &empty), Err(BinaryError::EmptyPattern));
}

#[test]
fn hamming_distance_zero_extends() {
    let a = text("1111", 4, SignMode::Signed);
    let b = text("00000000", 8, SignMode::Signed);
    assert_eq!(hamming_distance(&a, &b), Ok(4));
    let c = text("1", 1, SignMode::Unsigned);
    assert_eq!(hamming_distance(&a, &c), Err(BinaryError::SignMismatch));
}

#[test]
fn conversions() {
    let a = text("1000", 4, SignMode::Unsigned);
    assert!(matches!(convert_base(&a, SignMode::Signed), Err(BinaryError::DoesNotFit)));
    let back = convert_base(&text("0100", 4, SignMode::Signed), SignMode::Unsigned).unwrap();
    assert_eq!(back.sign_behavior, SignMode::Unsigned);
    let e = extend_to_signed_base(&a);
    assert_eq!(bin(&e), "01000");
    assert_eq!(e.sign_behavior, SignMode::Signed);
    assert_eq!(bin(&pad_sign_extend(&a, 6)), "111000");
    assert_eq!(SignMode::from_name("signed"), Ok(SignMode::Signed));
    assert_eq!(SignMode::from_name("sign"), Err(BinaryError::InvalidSignMode));
    assert_eq!(SignMode::from_name("unsigned"), Ok(SignMode::Unsigned));
    assert_eq!(SignMode::Signed.name(), "signed");
}
