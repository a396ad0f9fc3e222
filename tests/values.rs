use bitvector::api::{Binary, Source};
use bitvector::arith::{flaged_sub, Flags};
use bitvector::binary::{BinaryBase, BinaryError, SignMode};
use bitvector::bitwise_map::{bitwise_map, table_from_terms};
use bitvector::cmp::cmp;
use bitvector::construct::{
    parse_bitvec_from_be_bytes, parse_bitvec_from_copy, parse_bitvec_from_long_integer, parse_bitvec_from_str,
};
use bitvector::convert::to_i64;
use bitvector::format::to_string_bin;
use bitvector::mul::{multiply, overflowing_mul, wrapping_mul};
use bitvector::reduce::ReduceOps;
use std::cmp::Ordering;

fn text(s: &str, len: u64, mode: SignMode) -> BinaryBase {
    parse_bitvec_from_str(s, Some(len), Some(mode)).unwrap()
}

fn bin(v: &BinaryBase) -> String {
    to_string_bin(v, false)
}

#[test]
fn multiply_unsigned_and_mixed() {
    let three = text("11", 2, SignMode::Unsigned);
    let p = multiply(&three, &three);
    assert_eq!(bin(&p), "1001");
    assert_eq!(p.sign_behavior, SignMode::Unsigned);
    let minus_two = text("1110", 4, SignMode::Signed);
    let q = multiply(&minus_two, &three);
    assert_eq!(bin(&q), "111010");
    assert_eq!(q.sign_behavior, SignMode::Signed);
    let (low, high) = overflowing_mul(&minus_two, &three);
    assert_eq!(bin(&low), "1010");
    assert_eq!(bin(&high), "11");
    assert_eq!(bin(&wrapping_mul(&minus_two, &three)), "1010");
    let s = text("11", 2, SignMode::Signed);
    assert_eq!(bin(&multiply(&s, &s)), "0001");
}

#[test]
fn numeric_ordering() {
    let a = text("0011", 4, SignMode::Unsigned);
    let b = text("0101", 4, SignMode::Unsigned);
    assert_eq!(cmp(&a, &b), Ordering::Less);
    assert_eq!(cmp(&b, &a), Ordering::Greater);
    assert_eq!(cmp(&a, &a.clone()), Ordering::Equal);
    let neg = text("1111", 4, SignMode::Signed);
    let one = text("01", 2, SignMode::Signed);
    assert_eq!(cmp(&neg, &one), Ordering::Less);
    let big = text("1111", 4, SignMode::Unsigned);
    assert_eq!(cmp(&big, &one), Ordering::Greater);
    let short = text("11", 2, SignMode::Unsigned);
    let long = text("0011", 4, SignMode::Unsigned);
    assert_eq!(cmp(&short, &long), Ordering::Greater);
}

#[test]
fn low_word_as_machine_integer() {
    assert_eq!(to_i64(&text("1111", 4, SignMode::Signed)), -1);
    assert_eq!(to_i64(&text("1111", 4, SignMode::Unsigned)), 15);
    assert_eq!(to_i64(&text("", 0, SignMode::Signed)), 0);
}

#[test]
fn dispatch_over_sources() {
    let t = Binary::from(&Source::Text("0b101".to_string()), None, None).unwrap();
    assert_eq!(bin(t.unwrap()), "101");
    let i = Binary::from(&Source::Int(-2), None, None).unwrap();
    assert_eq!(bin(i.unwrap()), "10");
    assert!(i.is_negative());
    let n = Binary::from(&Source::Nothing, Some(3), None).unwrap();
    assert_eq!(bin(n.unwrap()), "000");
    let c = Binary::from(&Source::Value(text("10", 2, SignMode::Signed)), Some(4), None).unwrap();
    assert_eq!(bin(c.unwrap()), "1110");
    let bit = Binary::from(&Source::Bit(true), None, None).unwrap();
    assert_eq!(bin(bit.unwrap()), "1");
    let bytes = Binary::from(&Source::Bytes(vec![0x0f]), None, None).unwrap();
    assert_eq!(bin(bytes.unwrap()), "00001111");
    assert!(matches!(Binary::from(&Source::Text("z".to_string()), None, None), Err(BinaryError::UnsupportedInput)));
}

#[test]
fn append_prepend_and_split() {
    let mut v = Binary::wrap(text("01", 2, SignMode::Unsigned));
    v.append(&Source::Bit(true)).unwrap();
    assert_eq!(bin(v.unwrap()), "101");
    v.prepend(&Source::Text("0b00".to_string())).unwrap();
    assert_eq!(bin(v.unwrap()), "10100");
    let (lo, hi) = v.split_at(2);
    assert_eq!(bin(lo.unwrap()), "00");
    assert_eq!(bin(hi.unwrap()), "101");
    assert!(matches!(v.append(&Source::Text("q".to_string())), Err(BinaryError::UnsupportedInput)));
    assert_eq!(v.len(), 5);
}

#[test]
fn bytes_chunks_and_raw_bytes() {
    let v = Binary::wrap(text("1111000010", 10, SignMode::Signed));
    assert_eq!(bin(v.low_byte().unwrap()), "11000010");
    assert_eq!(bin(v.high_byte().unwrap()), "11111111");
    assert_eq!(bin(v.get_byte(1).unwrap()), "11111111");
    let chunks = v.iter(4, false);
    assert_eq!(chunks.len(), 3);
    assert_eq!(bin(chunks[0].unwrap()), "0010");
    assert_eq!(bin(chunks[2].unwrap()), "11");
    let extended = v.iter(4, true);
    assert_eq!(bin(extended[2].unwrap()), "1111");
    assert_eq!(v.bytes(true).len(), 2);
    assert_eq!(v.bits_list().len(), 10);
    assert_eq!(v.raw_bytes(), vec![0xc2, 0xff]);
}

#[test]
fn join_and_concat() {
    let sep = Binary::wrap(text("0", 1, SignMode::Unsigned));
    let a = Binary::wrap(text("11", 2, SignMode::Unsigned));
    let b = Binary::wrap(text("1", 1, SignMode::Unsigned));
    let j = sep.join(&vec![a.clone(), b.clone()]);
    assert_eq!(bin(j.unwrap()), "1011");
    let c = bitvector::api::concat(&vec![a, b]);
    assert_eq!(bin(c.unwrap()), "111");
}

#[test]
fn reductions() {
    let z = text("000", 3, SignMode::Unsigned);
    let o = text("111", 3, SignMode::Unsigned);
    let m = text("101", 3, SignMode::Unsigned);
    assert!(z.none() && !z.any());
    assert!(o.all() && !o.any_false());
    assert!(m.any() && m.any_false() && !m.all());
}

#[test]
fn subtraction_flags() {
    let a = text("0001", 4, SignMode::Signed);
    let b = text("0001", 4, SignMode::Signed);
    let (d, f) = flaged_sub(&a, &b);
    assert_eq!(bin(&d), "0000");
    assert!(f.zeroflag());
    assert!(f.overflow());
    assert_eq!(Flags::new(true, false, true), Flags::new(true, false, true));
}

#[test]
fn copy_and_long_integer() {
    let a = text("10", 2, SignMode::Signed);
    let c = parse_bitvec_from_copy(&a, Some(4), Some(SignMode::Unsigned));
    assert_eq!(bin(&c), "0010");
    let big = parse_bitvec_from_long_integer(&vec![0x00, 0x01, 0x01], 17, SignMode::Unsigned).unwrap();
    assert_eq!(bin(&big), "00000000100000001");
    assert!(matches!(
        parse_bitvec_from_long_integer(&vec![0xff, 0x00, 0x01], 8, SignMode::Unsigned),
        Err(BinaryError::DoesNotFit)
    ));
}

#[test]
fn later_table_entries_win() {
    let t = table_from_terms(&vec![(0, true), (0, false), (1, true)]).unwrap();
    let a = text("01", 2, SignMode::Unsigned);
    let r = bitwise_map(&vec![a], &t).unwrap();
    assert_eq!(bin(&r), "01");
}

#[test]
fn index_list_reads_and_writes() {
    let v = text("0110", 4, SignMode::Signed);
    let got = BinaryBase::from_data(v.get_indices(&vec![0, 1, -1, 9]));
    assert_eq!(bin(&got), "0010");
    let mut w = text("0000", 4, SignMode::Unsigned);
    w.set_indices_bool(&vec![0, 2], true).unwrap();
    assert_eq!(bin(&w), "0101");
    assert_eq!(w.set_indices_bool(&vec![1, 7], true), Err(BinaryError::IndexOutOfRange));
    assert_eq!(bin(&w), "0101");
    let src = text("10", 2, SignMode::Unsigned);
    w.set_indices_slice(&vec![3, 2], &src).unwrap();
    assert_eq!(bin(&w), "0101");
    w.set_indices_slice(&vec![0, 1], &src).unwrap();
    assert_eq!(bin(&w), "0110");
}

#[test]
fn extreme_values_of_a_width() {
    let s = Binary::wrap(text("0000", 4, SignMode::Signed));
    assert_eq!(bin(s.maximum_value().unwrap()), "0111");
    assert_eq!(bin(s.minimum_value().unwrap()), "1000");
    let u = Binary::wrap(text("000", 3, SignMode::Unsigned));
    assert_eq!(bin(u.maximum_value().unwrap()), "111");
    assert_eq!(bin(u.minimum_value().unwrap()), "000");
}

#[test]
fn offset_and_size_slices() {
    let v = Binary::wrap(text("110100", 6, SignMode::Unsigned));
    assert_eq!(bin(v.get_slice(1, 3).unwrap().unwrap()), "010");
    assert_eq!(bin(v.get_slice(-2, 2).unwrap().unwrap()), "11");
    assert_eq!(bin(v.get_slice(-3, 1).unwrap().unwrap()), "0");
    assert!(matches!(v.get_slice(3, -2), Err(BinaryError::StopBeforeStart)));
}

#[test]
fn negative_slice_bounds_resolve_without_clamping() {
    let v = text("0110", 4, SignMode::Unsigned);
    assert!(matches!(v.get_slice(-5, -7, 1), Err(BinaryError::StopBeforeStart)));
    let padded = BinaryBase::from_data(v.get_slice(-5, 1, 1).unwrap());
    assert_eq!(padded.len(), 2);
    assert_eq!(bin(&padded), "00");
    let neg = text("1001", 4, SignMode::Signed);
    let below = BinaryBase::from_data(neg.get_slice(-6, 2, 1).unwrap());
    assert_eq!(bin(&below), "0111");
}

#[test]
fn text_growth_uses_sign_extension() {
    let s = parse_bitvec_from_str("0b110", Some(4), Some(SignMode::Signed)).unwrap();
    assert_eq!(bin(&s), "1110");
    let u = parse_bitvec_from_str("0b110", Some(4), Some(SignMode::Unsigned)).unwrap();
    assert_eq!(bin(&u), "0110");
}

#[test]
fn big_endian_integers_take_minimal_width() {
    let minus_five = parse_bitvec_from_be_bytes(&vec![0xfb], None, SignMode::Signed).unwrap();
    assert_eq!(bin(&minus_five), "1011");
    let minus_four = parse_bitvec_from_be_bytes(&vec![0xfc], None, SignMode::Signed).unwrap();
    assert_eq!(bin(&minus_four), "100");
    let five = parse_bitvec_from_be_bytes(&vec![0x00, 0x05], None, SignMode::Signed).unwrap();
    assert_eq!(bin(&five), "0101");
    let five_u = parse_bitvec_from_be_bytes(&vec![0x00, 0x05], None, SignMode::Unsigned).unwrap();
    assert_eq!(bin(&five_u), "101");
    let zero = parse_bitvec_from_be_bytes(&vec![0x00], None, SignMode::Signed).unwrap();
    assert_eq!(zero.len(), 0);
    let mut big = vec![0x01];
    big.extend(vec![0u8; 9]);
    let two_pow_72 = parse_bitvec_from_be_bytes(&big, None, SignMode::Signed).unwrap();
    assert_eq!(two_pow_72.len(), 74);
    assert!(matches!(parse_bitvec_from_be_bytes(&vec![0xfb], Some(3), SignMode::Signed), Err(BinaryError::DoesNotFit)));
    let wide = parse_bitvec_from_be_bytes(&vec![0xfb], Some(10), SignMode::Signed).unwrap();
    assert_eq!(bin(&wide), "1111111011");
}
