//! Building values from text, machine integers, bytes and bit sequences.

use crate::binary::{loses, low_bits, BinaryBase, BinaryError, SignMode, MAX_LEN};
use crate::store::{bits_of, store_get, store_new, store_push, BitStore};
use vstd::arithmetic::power2::pow2;
use vstd::prelude::*;
use vstd::std_specs::iter::IteratorSpec;
use vstd::string::StrSliceExecFns;

verus! {

pub open spec fn is_ws(c: char) -> bool {
    c == ' ' || c == '\t' || c == '\n'
}

/// A digit that only a hexadecimal number can hold.
pub open spec fn is_hex_only(c: char) -> bool {
    ('2' <= c && c <= '9') || ('a' <= c && c <= 'f') || ('A' <= c && c <= 'F')
}

/// `s` without blanks, tabs and newlines.
pub open spec fn strip_ws(s: Seq<char>) -> Seq<char>
    decreases s.len(),
{
    if s.len() == 0 {
        s
    } else if is_ws(s.last()) {
        strip_ws(s.drop_last())
    } else {
        strip_ws(s.drop_last()).push(s.last())
    }
}

/// `s` without any leading repetitions of `0` followed by `marker`.
pub open spec fn strip_marker(s: Seq<char>, marker: char) -> Seq<char>
    decreases s.len(),
{
    if s.len() >= 2 && s[0] == '0' && s[1] == marker {
        strip_marker(s.subrange(2, s.len() as int), marker)
    } else {
        s
    }
}

pub open spec fn has_marker(s: Seq<char>, marker: char) -> bool {
    s.len() >= 2 && s[0] == '0' && s[1] == marker
}

/// Whether text is read as hexadecimal: a `0x` prefix says so, a `0b`
/// prefix says not, and without either any hex-only digit decides.
pub open spec fn text_is_hex(s: Seq<char>) -> bool {
    if has_marker(s, 'b') {
        false
    } else if has_marker(s, 'x') {
        true
    } else {
        exists|i: int| 0 <= i < s.len() && is_hex_only(#[trigger] s[i])
    }
}

/// The digits of the text: prefix and blanks removed.
pub open spec fn text_digits(s: Seq<char>) -> Seq<char> {
    if has_marker(s, 'b') {
        strip_ws(strip_marker(s, 'b'))
    } else if has_marker(s, 'x') {
        strip_ws(strip_marker(s, 'x'))
    } else {
        strip_ws(s)
    }
}

/// The value of a digit in base 16 (`hex`) or 2.
pub open spec fn digit_spec(c: char, hex: bool) -> Option<nat> {
    if '0' <= c && c <= '1' {
        Some((c as nat - '0' as nat) as nat)
    } else if hex && '2' <= c && c <= '9' {
        Some((c as nat - '0' as nat) as nat)
    } else if hex && 'a' <= c && c <= 'f' {
        Some((c as nat - 'a' as nat + 10) as nat)
    } else if hex && 'A' <= c && c <= 'F' {
        Some((c as nat - 'A' as nat + 10) as nat)
    } else {
        None
    }
}

pub open spec fn digit_width(hex: bool) -> nat {
    if hex {
        4
    } else {
        1
    }
}

/// Every character is a digit of the base.
pub open spec fn digits_valid(d: Seq<char>, hex: bool) -> bool {
    forall|i: int| 0 <= i < d.len() ==> (#[trigger] digit_spec(d[i], hex)) is Some
}

/// The bits that digits spell, least significant first; the first digit
/// is the most significant.
pub open spec fn digits_bits(d: Seq<char>, hex: bool) -> Seq<bool>
    decreases d.len(),
{
    if d.len() == 0 {
        Seq::empty()
    } else {
        digits_bits(d.drop_first(), hex) + low_bits(
            match digit_spec(d[0], hex) {
                Some(v) => v,
                None => 0,
            },
            digit_width(hex),
        )
    }
}

fn digit_value(c: char, hex: bool) -> (r: Option<u64>)
    ensures
        match digit_spec(c, hex) {
            Some(v) => r == Some(v as u64),
            None => r is None,
        },
{
    if '0' <= c && c <= '1' {
        Some((c as u64) - ('0' as u64))
    } else if hex && '2' <= c && c <= '9' {
        Some((c as u64) - ('0' as u64))
    } else if hex && 'a' <= c && c <= 'f' {
        Some((c as u64) - ('a' as u64) + 10)
    } else if hex && 'A' <= c && c <= 'F' {
        Some((c as u64) - ('A' as u64) + 10)
    } else {
        None
    }
}

/// Appends the lowest `w` bits of `v`, least significant first.
fn push_low_bits(out: &mut BitStore, v: u64, w: u64)
    requires
        bits_of(*old(out)).len() + w <= MAX_LEN,
    ensures
        bits_of(*final(out)) == bits_of(*old(out)) + low_bits(v as nat, w as nat),
{
    let mut x = v;
    let mut b: u64 = 0;
    while b < w
        invariant
            b <= w,
            bits_of(*old(out)).len() + w <= MAX_LEN,
            bits_of(*out).len() == bits_of(*old(out)).len() + b,
            bits_of(*out) + low_bits(x as nat, (w - b) as nat) == bits_of(*old(out)) + low_bits(v as nat, w as nat),
        decreases w - b,
    {
        let ghost before = bits_of(*out);
        store_push(out, x % 2 == 1);
        proof {
            assert(low_bits(x as nat, (w - b) as nat) == seq![x % 2 == 1] + low_bits((x / 2) as nat, (w - b - 1) as nat));
            assert(bits_of(*out) + low_bits((x / 2) as nat, (w - b - 1) as nat) =~= before + low_bits(x as nat, (w - b) as nat));
        }
        x = x / 2;
        b = b + 1;
    }
    proof {
        assert(bits_of(*out) + low_bits(x as nat, 0) =~= bits_of(*out));
    }
}

/// Digits spell `width` bits each.
pub proof fn lemma_digits_bits_len(d: Seq<char>, hex: bool)
    ensures
        digits_bits(d, hex).len() == d.len() * digit_width(hex),
    decreases d.len(),
{
    if d.len() > 0 {
        lemma_digits_bits_len(d.drop_first(), hex);
        crate::lemmas::lemma_low_bits_value(
            match digit_spec(d[0], hex) {
                Some(v) => v,
                None => 0,
            },
            digit_width(hex),
        );
        assert(d.len() * digit_width(hex) == (d.len() - 1) * digit_width(hex) + digit_width(hex)) by (nonlinear_arith);
    }
}

/// The characters of `s`, in order.
fn text_chars(s: &str) -> (r: Vec<char>)
    ensures
        r@ == s@,
{
    broadcast use vstd::string::axiom_spec_iter, vstd::string::next_postcondition;

    let mut out: Vec<char> = Vec::new();
    let mut it = s.chars();
    loop
        invariant
            it.obeys_prophetic_iter_laws(),
            it.decrease() is Some,
            out@ + it.remaining() == s@,
        ensures
            out@ == s@,
        decreases it.decrease()->0,
    {
        match it.next() {
            Some(c) => {
                proof {
                    assert(out@.push(c) + it.remaining() =~= s@);
                }
                out.push(c);
            },
            None => {
                proof {
                    assert(out@ =~= s@);
                }
                break ;
            },
        }
    }
    out
}

fn is_ws_char(c: char) -> (r: bool)
    ensures
        r == is_ws(c),
{
    c == ' ' || c == '\t' || c == '\n'
}

fn is_hex_only_char(c: char) -> (r: bool)
    ensures
        r == is_hex_only(c),
{
    ('2' <= c && c <= '9') || ('a' <= c && c <= 'f') || ('A' <= c && c <= 'F')
}

/// Whether `s` starts with `0` and `marker` at `pos`.
fn marker_at(s: &Vec<char>, n: usize, pos: usize, marker: char) -> (r: bool)
    requires
        n == s@.len(),
        pos <= n,
    ensures
        r == has_marker(s@.subrange(pos as int, n as int), marker),
{
    n - pos >= 2 && s[pos] == '0' && s[pos + 1] == marker
}

/// Skips repeated `0`+`marker` prefixes starting at the front of `s`.
fn skip_markers(s: &Vec<char>, n: usize, marker: char) -> (r: usize)
    requires
        n == s@.len(),
    ensures
        r <= n,
        s@.subrange(r as int, n as int) == strip_marker(s@, marker),
{
    let mut pos: usize = 0;
    proof {
        assert(s@.subrange(0, n as int) =~= s@);
    }
    while marker_at(s, n, pos, marker)
        invariant
            n == s@.len(),
            pos <= n,
            strip_marker(s@.subrange(pos as int, n as int), marker) == strip_marker(s@, marker),
        decreases n - pos,
    {
        proof {
            let t = s@.subrange(pos as int, n as int);
            assert(t.subrange(2, t.len() as int) =~= s@.subrange(pos + 2, n as int));
        }
        pos = pos + 2;
    }
    pos
}

/// Builds a value from binary or hexadecimal text. A `0b` or `0x` prefix
/// (repeated or not) fixes the base; without one, any digit `2`-`9` or
/// `a`-`f` makes the text hexadecimal. Blanks, tabs and newlines are
/// skipped. The digits spell a bit pattern whose length, unless
/// `bit_size` gives another, is the number of digits times the digit width
/// (1 or 4). A longer `bit_size` extends it with the sign-extension bit; a
/// shorter one must not lose information (`DoesNotFit`). A character that is not a digit of the
/// base gives `UnsupportedInput`. The sign mode defaults to unsigned.
pub fn parse_bitvec_from_str(object: &str, bit_size: Option<u64>, sign_behavior: Option<SignMode>) -> (r: Result<
    BinaryBase,
    BinaryError,
>)
    requires
        object@.len() <= MAX_LEN / 4,
        bit_size is Some ==> bit_size->Some_0 <= MAX_LEN,
    ensures
        outcome_matches(r, text_outcome(object@, bit_size, sign_behavior)),
{
    let chars = text_chars(object);
    let n = chars.len();
    let ghost sv = object@;
    let (pos, hex) = if marker_at(&chars, n, 0, 'b') {
        (skip_markers(&chars, n, 'b'), false)
    } else if marker_at(&chars, n, 0, 'x') {
        (skip_markers(&chars, n, 'x'), true)
    } else {
        let mut found = false;
        let mut i: usize = 0;
        while i < n
            invariant
                n == sv.len(),
                sv == object@,
                chars@ == sv,
                i <= n,
                found == exists|j: int| 0 <= j < i && is_hex_only(#[trigger] sv[j]),
            decreases n - i,
        {
            if is_hex_only_char(chars[i]) {
                found = true;
            }
            i = i + 1;
        }
        (0, found)
    };
    proof {
        assert(sv.subrange(0, n as int) =~= sv);
        assert(hex == text_is_hex(sv));
        assert(sv.subrange(pos as int, n as int) == if has_marker(sv, 'b') {
            strip_marker(sv, 'b')
        } else if has_marker(sv, 'x') {
            strip_marker(sv, 'x')
        } else {
            sv
        });
    }
    let mut digits: Vec<char> = Vec::new();
    let mut i: usize = pos;
    proof {
        assert(sv.subrange(pos as int, pos as int) =~= Seq::<char>::empty());
    }
    while i < n
        invariant
            n == sv.len(),
            sv == object@,
            chars@ == sv,
            pos <= i <= n,
            digits@ == strip_ws(sv.subrange(pos as int, i as int)),
            digits@.len() <= i - pos,
        decreases n - i,
    {
        let c = chars[i];
        proof {
            assert(sv.subrange(pos as int, i + 1).drop_last() =~= sv.subrange(pos as int, i as int));
        }
        if !is_ws_char(c) {
            digits.push(c);
        }
        i = i + 1;
    }
    let ghost d = digits@;
    assert(d == text_digits(sv));
    assert(hex == text_is_hex(sv));
    let m = digits.len();
    let w: u64 = if hex { 4 } else { 1 };
    let mut out = store_new();
    let mut j: usize = m;
    proof {
        assert(d.subrange(m as int, m as int) =~= Seq::<char>::empty());
    }
    while j > 0
        invariant
            d == digits@,
            d == text_digits(object@),
            hex == text_is_hex(object@),
            m == d.len() <= MAX_LEN / 4,
            j <= m,
            w == digit_width(hex),
            digits_valid(d.subrange(j as int, m as int), hex),
            bits_of(out) == digits_bits(d.subrange(j as int, m as int), hex),
        decreases j,
    {
        let c = digits[j - 1];
        let v = match digit_value(c, hex) {
            Some(v) => v,
            None => {
                proof {
                    assert(digit_spec(d[j - 1], hex) is None);
                    assert(!digits_valid(d, hex));
                    assert(d == text_digits(object@));
                    assert(hex == text_is_hex(object@));
                }
                return Err(BinaryError::UnsupportedInput);
            },
        };
        proof {
            let sub = d.subrange(j - 1, m as int);
            assert(sub.drop_first() =~= d.subrange(j as int, m as int));
            assert(sub[0] == c);
            lemma_digits_bits_len(d.subrange(j as int, m as int), hex);
            assert((m - j) * digit_width(hex) <= m * 4) by (nonlinear_arith)
                requires
                    j <= m,
                    digit_width(hex) <= 4,
            ;
            assert forall|k: int| 0 <= k < sub.len() implies (#[trigger] digit_spec(sub[k], hex)) is Some by {
                if k > 0 {
                    assert(sub[k] == d.subrange(j as int, m as int)[k - 1]);
                }
            }
        }
        push_low_bits(&mut out, v, w);
        j = j - 1;
    }
    proof {
        assert(d.subrange(0, m as int) =~= d);
        lemma_digits_bits_len(d, hex);
        assert(m * digit_width(hex) <= m * 4) by (nonlinear_arith)
            requires
                digit_width(hex) <= 4,
        ;
    }
    let ghost t = bits_of(out);
    let t_len = crate::store::store_len(&out);
    let size = match bit_size {
        Some(s) => s,
        None => t_len,
    };
    let mode = match sign_behavior {
        Some(md) => md,
        None => SignMode::Unsigned,
    };
    let mut b = BinaryBase::from_parts(out, mode);
    b.resize_constrained(size)?;
    proof {
        assert(b.bits() =~= resized(t, mode, size as nat));
    }
    Ok(b)
}

/// Number of binary digits of `n`, `0` for zero.
pub open spec fn bit_length(n: nat) -> nat
    decreases n,
{
    if n == 0 {
        0
    } else {
        1 + bit_length(n / 2)
    }
}

/// The fewest bits that hold `x` under `mode`: a positive signed value
/// needs room for a zero sign bit; a negative one needs one bit more than
/// its magnitude unless that magnitude is a power of two.
pub open spec fn min_width(x: int, mode: SignMode) -> nat {
    if x == 0 {
        0
    } else if x == i64::MIN {
        64
    } else if x > 0 {
        bit_length(x as nat) + if mode == SignMode::Signed { 1nat } else { 0nat }
    } else {
        bit_length((-x) as nat) + if (-x) == pow2((bit_length((-x) as nat) - 1) as nat) { 0nat } else { 1nat }
    }
}

/// The 64-bit two's-complement pattern of `x`.
pub open spec fn i64_bits(x: i64) -> Seq<bool> {
    low_bits((if x >= 0 { x as int } else { x + pow2(64) }) as nat, 64)
}

proof fn lemma_bit_length_bound(n: nat, k: nat)
    requires
        n < pow2(k),
    ensures
        bit_length(n) <= k,
    decreases n,
{
    if n > 0 {
        if k == 0 {
            vstd::arithmetic::power2::lemma2_to64();
            vstd::arithmetic::power2::lemma2_to64_rest();
        } else {
            vstd::arithmetic::power2::lemma_pow2_unfold(k);
            lemma_bit_length_bound(n / 2, (k - 1) as nat);
        }
    }
}

fn bit_length_u64(v: u64) -> (r: u64)
    ensures
        r == bit_length(v as nat),
        r <= 64,
{
    proof {
        vstd::arithmetic::power2::lemma2_to64();
        vstd::arithmetic::power2::lemma2_to64_rest();
        lemma_bit_length_bound(v as nat, 64);
    }
    let mut x = v;
    let mut c: u64 = 0;
    while x > 0
        invariant
            c + bit_length(x as nat) == bit_length(v as nat),
            bit_length(v as nat) <= 64,
        decreases x,
    {
        x = x / 2;
        c = c + 1;
    }
    c
}

/// `2^e` for `e < 64`.
fn pow2_u64(e: u64) -> (r: u64)
    requires
        e < 64,
    ensures
        r == pow2(e as nat),
{
    proof {
        vstd::arithmetic::power2::lemma2_to64();
        vstd::arithmetic::power2::lemma2_to64_rest();
    }
    let mut p: u64 = 1;
    let mut i: u64 = 0;
    while i < e
        invariant
            i <= e < 64,
            p == pow2(i as nat),
        decreases e - i,
    {
        proof {
            vstd::arithmetic::power2::lemma_pow2_unfold((i + 1) as nat);
            vstd::arithmetic::power2::lemma_pow2_strictly_increases((i + 1) as nat, 64);
            vstd::arithmetic::power2::lemma2_to64();
            vstd::arithmetic::power2::lemma2_to64_rest();
        }
        p = p * 2;
        i = i + 1;
    }
    p
}

/// Builds a value from a machine integer. The sign mode defaults to
/// signed for a negative `object` and unsigned otherwise; the length
/// defaults to the fewest bits that hold it (`min_width`). A length below
/// that, or one that drops information from the 64-bit pattern, gives
/// `DoesNotFit`.
pub fn parse_bitvec_from_isize(object: i64, bit_size: Option<u64>, sign_behavior: Option<SignMode>) -> (r: Result<
    BinaryBase,
    BinaryError,
>)
    requires
        bit_size is Some ==> bit_size->Some_0 <= MAX_LEN,
    ensures
        outcome_matches(r, int_outcome(object, bit_size, sign_behavior)),
{
    let mode = match sign_behavior {
        Some(m) => m,
        None => if object < 0 {
            SignMode::Signed
        } else {
            SignMode::Unsigned
        },
    };
    let natural: u64 = if object == 0 {
        0
    } else if object == i64::MIN {
        64
    } else if object > 0 {
        let bl = bit_length_u64(object as u64);
        match mode {
            SignMode::Signed => bl + 1,
            SignMode::Unsigned => bl,
        }
    } else {
        let mag = (-object) as u64;
        let bl = bit_length_u64(mag);
        proof {
            vstd::arithmetic::power2::lemma2_to64();
            vstd::arithmetic::power2::lemma2_to64_rest();
            assert(mag < 0x8000_0000_0000_0000u64);
            assert(pow2(63) == 0x8000_0000_0000_0000u64);
            lemma_bit_length_bound(mag as nat, 63);
        }
        if mag == pow2_u64(bl - 1) {
            bl
        } else {
            bl + 1
        }
    };
    let len = match bit_size {
        Some(n) => n,
        None => natural,
    };
    if len < natural {
        return Err(BinaryError::DoesNotFit);
    }
    let pattern: u64 = if object >= 0 {
        object as u64
    } else {
        ((object + i64::MAX + 1) as u64) + 0x8000_0000_0000_0000u64
    };
    proof {
        vstd::arithmetic::power2::lemma2_to64();
        vstd::arithmetic::power2::lemma2_to64_rest();
    }
    let mut out = store_new();
    push_low_bits(&mut out, pattern, 64);
    let mut b = BinaryBase::from_parts(out, mode);
    proof {
        assert(b.bits() =~= i64_bits(object));
        crate::lemmas::lemma_low_bits_value(pattern as nat, 64);
    }
    b.resize_constrained(len)?;
    proof {
        assert(b.bits() =~= Seq::new(
            len as nat,
            |k: int|
                if k < 64 {
                    i64_bits(object)[k]
                } else {
                    mode == SignMode::Signed && i64_bits(object)[63]
                },
        ));
    }
    Ok(b)
}

/// The bits of a byte sequence: eight per byte, the first byte lowest,
/// each byte least significant bit first.
pub open spec fn bytes_bits(b: Seq<u8>) -> Seq<bool>
    decreases b.len(),
{
    if b.len() == 0 {
        Seq::empty()
    } else {
        bytes_bits(b.drop_last()) + low_bits(b.last() as nat, 8)
    }
}

/// The bits of `s` from last to first.
pub open spec fn rev_bits(s: Seq<bool>) -> Seq<bool> {
    Seq::new(s.len(), |k: int| s[s.len() - 1 - k])
}

/// The value `bits` under `mode`, resized to `len` bits: cut, or extended
/// with the sign-extension bit.
pub open spec fn resized(bits: Seq<bool>, mode: SignMode, len: nat) -> Seq<bool> {
    let ext = mode == SignMode::Signed && bits.len() > 0 && bits.last();
    Seq::new(len, |k: int| if k < bits.len() { bits[k] } else { ext })
}

/// Unchecked resizing is `resized` under the value's own sign mode.
pub proof fn lemma_resized_bits(a: BinaryBase, n: nat)
    ensures
        a.resized_bits(n) == resized(a.bits(), a.sign_behavior, n),
{
    assert(a.resized_bits(n) =~= resized(a.bits(), a.sign_behavior, n));
}

/// Growing without a check and shrinking back to the old length gives
/// back the old bits: the added bits are all cut again.
pub proof fn lemma_grow_then_shrink(a: BinaryBase, n: nat)
    requires
        n >= a.bits().len(),
    ensures
        resized(resized(a.bits(), a.sign_behavior, n), a.sign_behavior, a.bits().len()) == a.bits(),
{
    assert(resized(resized(a.bits(), a.sign_behavior, n), a.sign_behavior, a.bits().len()) =~= a.bits());
}

/// Builds from bytes, eight bits each, the first byte lowest. The length
/// defaults to eight bits per byte; the sign mode to unsigned. A length
/// that would drop information gives `DoesNotFit`.
pub fn parse_bitvec_from_bytes(object: &Vec<u8>, bit_size: Option<u64>, sign_behavior: Option<SignMode>) -> (r: Result<
    BinaryBase,
    BinaryError,
>)
    requires
        object@.len() <= MAX_LEN / 8,
        bit_size is Some ==> bit_size->Some_0 <= MAX_LEN,
    ensures
        outcome_matches(r, pattern_outcome(bytes_bits(object@), bit_size, sign_behavior)),
{
    let mode = match sign_behavior {
        Some(m) => m,
        None => SignMode::Unsigned,
    };
    let mut out = store_new();
    let mut i: usize = 0;
    while i < object.len()
        invariant
            i <= object@.len() <= MAX_LEN / 8,
            bits_of(out) == bytes_bits(object@.subrange(0, i as int)),
            bits_of(out).len() == 8 * i,
        decreases object@.len() - i,
    {
        proof {
            assert(object@.subrange(0, i + 1).drop_last() =~= object@.subrange(0, i as int));
            crate::lemmas::lemma_low_bits_value(object@[i as int] as nat, 8);
        }
        push_low_bits(&mut out, object[i] as u64, 8);
        i = i + 1;
    }
    proof {
        assert(object@.subrange(0, object@.len() as int) =~= object@);
    }
    let len = match bit_size {
        Some(n) => n,
        None => crate::store::store_len(&out),
    };
    let mut b = BinaryBase::from_parts(out, mode);
    b.resize_constrained(len)?;
    proof {
        assert(b.bits() =~= resized(bytes_bits(object@), mode, len as nat));
    }
    Ok(b)
}

/// Builds from a sequence of bits given most significant first. The
/// length defaults to the number of bits; the sign mode to unsigned. A
/// length that would drop information gives `DoesNotFit`.
pub fn parse_bitvec_from_iterable(object: &Vec<bool>, bit_size: Option<u64>, sign_behavior: Option<SignMode>) -> (r: Result<
    BinaryBase,
    BinaryError,
>)
    requires
        object@.len() <= MAX_LEN,
        bit_size is Some ==> bit_size->Some_0 <= MAX_LEN,
    ensures
        outcome_matches(r, pattern_outcome(rev_bits(object@), bit_size, sign_behavior)),
{
    let mode = match sign_behavior {
        Some(m) => m,
        None => SignMode::Unsigned,
    };
    let n = object.len();
    let mut out = store_new();
    let mut i: usize = 0;
    while i < n
        invariant
            n == object@.len() <= MAX_LEN,
            i <= n,
            bits_of(out) == rev_bits(object@).subrange(0, i as int),
        decreases n - i,
    {
        store_push(&mut out, object[n - 1 - i]);
        proof {
            assert(bits_of(out) =~= rev_bits(object@).subrange(0, i + 1));
        }
        i = i + 1;
    }
    proof {
        assert(rev_bits(object@).subrange(0, n as int) =~= rev_bits(object@));
    }
    let len = match bit_size {
        Some(x) => x,
        None => n as u64,
    };
    let mut b = BinaryBase::from_parts(out, mode);
    b.resize_constrained(len)?;
    proof {
        assert(b.bits() =~= resized(rev_bits(object@), mode, len as nat));
    }
    Ok(b)
}

/// A copy, optionally under another sign mode and cut or extended to
/// another length without any check; extension uses the new sign mode.
pub fn parse_bitvec_from_copy(object: &BinaryBase, bit_size: Option<u64>, sign_behavior: Option<SignMode>) -> (r: BinaryBase)
    requires
        object.wf(),
    ensures
        ({
            let mode = match sign_behavior {
                Some(m) => m,
                None => object.sign_behavior,
            };
            let len = match bit_size {
                Some(n) => n as nat,
                None => object.bits().len(),
            };
            r.bits() == resized(object.bits(), mode, len) && r.sign_behavior == mode
        }),
{
    let mode = match sign_behavior {
        Some(m) => m,
        None => object.sign_behavior,
    };
    let len = match bit_size {
        Some(n) => n,
        None => object.len(),
    };
    let mut b = object.copy();
    b.sign_behavior = mode;
    b.resize_trunc(len);
    proof {
        assert(b.bits() =~= resized(object.bits(), mode, len as nat));
    }
    b
}

/// Wraps raw bits, checked against an optional length. The sign mode
/// defaults to unsigned.
pub fn parse_bitvec_from_slice(object: BitStore, bit_size: Option<u64>, sign_behavior: Option<SignMode>) -> (r: Result<
    BinaryBase,
    BinaryError,
>)
    requires
        bits_of(object).len() <= MAX_LEN,
    ensures
        outcome_matches(r, pattern_outcome(bits_of(object), bit_size, sign_behavior)),
{
    let mode = match sign_behavior {
        Some(m) => m,
        None => SignMode::Unsigned,
    };
    let ghost b0 = bits_of(object);
    let mut b = BinaryBase::from_parts(object, mode);
    let len = match bit_size {
        Some(n) => n,
        None => b.len(),
    };
    b.resize_constrained(len)?;
    proof {
        assert(b.bits() =~= resized(b0, mode, len as nat));
    }
    Ok(b)
}

/// Builds from the big-endian two's-complement bytes of an integer, cut
/// to `bit_length` bits under `sign_behavior`; `DoesNotFit` when that
/// drops information.
pub fn parse_bitvec_from_long_integer(be_bytes: &Vec<u8>, bit_length: u64, sign_behavior: SignMode) -> (r: Result<
    BinaryBase,
    BinaryError,
>)
    requires
        be_bytes@.len() <= MAX_LEN / 8,
        bit_length <= MAX_LEN,
    ensures
        outcome_matches(r, pattern_outcome(bytes_bits(be_bytes@.reverse()), Some(bit_length), Some(sign_behavior))),
{
    let n = be_bytes.len();
    let mut le: Vec<u8> = Vec::new();
    let mut i: usize = 0;
    while i < n
        invariant
            n == be_bytes@.len(),
            i <= n,
            le@ == be_bytes@.reverse().subrange(0, i as int),
        decreases n - i,
    {
        le.push(be_bytes[n - 1 - i]);
        proof {
            assert(le@ =~= be_bytes@.reverse().subrange(0, i + 1));
        }
        i = i + 1;
    }
    proof {
        assert(le@ =~= be_bytes@.reverse());
    }
    parse_bitvec_from_bytes(&le, Some(bit_length), Some(sign_behavior))
}

/// `w` is the fewest bits to which `b` can be cut under `mode` without
/// losing information: the minimal width of the number `b` stands for.
pub open spec fn is_min_fit(b: Seq<bool>, mode: SignMode, w: nat) -> bool {
    &&& w <= b.len()
    &&& !loses(b, mode, w)
    &&& forall|v: nat| v < w ==> #[trigger] loses(b, mode, v)
}

/// Eight bits per byte.
pub proof fn lemma_bytes_bits_len(b: Seq<u8>)
    ensures
        bytes_bits(b).len() == 8 * b.len(),
    decreases b.len(),
{
    if b.len() > 0 {
        lemma_bytes_bits_len(b.drop_last());
        crate::lemmas::lemma_low_bits_value(b.last() as nat, 8);
    }
}

/// The minimal width of a value's number under its sign mode.
fn min_fit_width(v: &BinaryBase) -> (r: u64)
    requires
        v.wf(),
    ensures
        is_min_fit(v.bits(), v.sign_behavior, r as nat),
{
    let n = v.len();
    let ghost b = v.bits();
    let mode = v.sign_behavior;
    if n == 0 {
        return 0;
    }
    match mode {
        SignMode::Unsigned => {
            let mut w: u64 = n;
            while w > 0 && !store_get(&v.data, w - 1)
                invariant
                    n == b.len(),
                    b == v.bits(),
                    w <= n,
                    forall|k: int| w <= k < n ==> !b[k],
                decreases w,
            {
                w = w - 1;
            }
            proof {
                assert forall|u: nat| u < w implies #[trigger] loses(b, mode, u) by {
                    assert(b[w - 1] != (mode == SignMode::Signed && u > 0 && b[u - 1]));
                }
            }
            w
        },
        SignMode::Signed => {
            let t = store_get(&v.data, n - 1);
            let mut w: u64 = n;
            while w > 1 && store_get(&v.data, w - 2) == t
                invariant
                    n == b.len(),
                    b == v.bits(),
                    1 <= w <= n,
                    t == b[n - 1],
                    forall|k: int| w - 1 <= k < n ==> b[k] == t,
                decreases w,
            {
                w = w - 1;
            }
            if !t && w == 1 {
                proof {
                    assert(!loses(b, mode, 0));
                }
                return 0;
            }
            proof {
                assert(!loses(b, mode, w as nat));
                assert forall|u: nat| u < w implies #[trigger] loses(b, mode, u) by {
                    let e = mode == SignMode::Signed && u > 0 && b[u - 1];
                    if w == 1 {
                        assert(b[n - 1] != e);
                    } else if u == w - 1 {
                        assert(b[n - 1] != e);
                    } else if b[n - 1] != e {
                    } else {
                        assert(b[w - 2] != e);
                    }
                }
            }
            w
        },
    }
}

/// Builds from the big-endian bytes of an integer (two's complement when
/// `sign_behavior` is signed). Without `bit_size` the length is the fewest
/// bits that hold the number; with it, a length that drops information
/// gives `DoesNotFit`.
pub fn parse_bitvec_from_be_bytes(be_bytes: &Vec<u8>, bit_size: Option<u64>, sign_behavior: SignMode) -> (r: Result<
    BinaryBase,
    BinaryError,
>)
    requires
        be_bytes@.len() <= MAX_LEN / 8,
        bit_size is Some ==> bit_size->Some_0 <= MAX_LEN,
    ensures
        ({
            let b = bytes_bits(be_bytes@.reverse());
            match bit_size {
                Some(k) => outcome_matches(r, pattern_outcome(b, Some(k), Some(sign_behavior))),
                None => r is Ok && is_min_fit(b, sign_behavior, r->Ok_0.bits().len()) && r->Ok_0.bits() == resized(
                    b,
                    sign_behavior,
                    r->Ok_0.bits().len(),
                ) && r->Ok_0.sign_behavior == sign_behavior,
            }
        }),
{
    let ghost b = bytes_bits(be_bytes@.reverse());
    proof {
        lemma_bytes_bits_len(be_bytes@.reverse());
        assert(resized(b, sign_behavior, b.len()) =~= b);
    }
    let full_len = 8 * (be_bytes.len() as u64);
    let full = match parse_bitvec_from_long_integer(be_bytes, full_len, sign_behavior) {
        Ok(v) => v,
        Err(e) => return Err(e),
    };
    let len = match bit_size {
        Some(k) => k,
        None => min_fit_width(&full),
    };
    let mut out = full;
    out.resize_constrained(len)?;
    proof {
        lemma_resized_bits(full, len as nat);
    }
    Ok(out)
}

/// A constructor's result agrees with its expected outcome: the same
/// error, or a value with the expected bits and sign mode.
pub open spec fn outcome_matches(r: Result<BinaryBase, BinaryError>, o: Result<(Seq<bool>, SignMode), BinaryError>) -> bool {
    match o {
        Ok((bits, mode)) => r is Ok && r->Ok_0.bits() == bits && r->Ok_0.sign_behavior == mode,
        Err(e) => r == Err::<BinaryBase, BinaryError>(e),
    }
}

pub open spec fn mode_or(sign_behavior: Option<SignMode>, default: SignMode) -> SignMode {
    match sign_behavior {
        Some(m) => m,
        None => default,
    }
}

pub open spec fn len_or(bit_size: Option<u64>, default: nat) -> nat {
    match bit_size {
        Some(n) => n as nat,
        None => default,
    }
}

/// What building from text gives.
pub open spec fn text_outcome(s: Seq<char>, bit_size: Option<u64>, sign_behavior: Option<SignMode>) -> Result<
    (Seq<bool>, SignMode),
    BinaryError,
> {
    let d = text_digits(s);
    let hex = text_is_hex(s);
    let t = digits_bits(d, hex);
    let size = len_or(bit_size, t.len());
    let mode = mode_or(sign_behavior, SignMode::Unsigned);
    if !digits_valid(d, hex) {
        Err(BinaryError::UnsupportedInput)
    } else if loses(t, mode, size) {
        Err(BinaryError::DoesNotFit)
    } else {
        Ok((resized(t, mode, size), mode))
    }
}

/// What building from a machine integer gives.
pub open spec fn int_outcome(x: i64, bit_size: Option<u64>, sign_behavior: Option<SignMode>) -> Result<
    (Seq<bool>, SignMode),
    BinaryError,
> {
    let mode = mode_or(sign_behavior, if x < 0 { SignMode::Signed } else { SignMode::Unsigned });
    let natural = min_width(x as int, mode);
    let len = len_or(bit_size, natural);
    if len < natural || loses(i64_bits(x), mode, len) {
        Err(BinaryError::DoesNotFit)
    } else {
        Ok((resized(i64_bits(x), mode, len), mode))
    }
}

/// What building from a bit pattern `b` (least significant first) gives.
pub open spec fn pattern_outcome(b: Seq<bool>, bit_size: Option<u64>, sign_behavior: Option<SignMode>) -> Result<
    (Seq<bool>, SignMode),
    BinaryError,
> {
    let mode = mode_or(sign_behavior, SignMode::Unsigned);
    let len = len_or(bit_size, b.len());
    if loses(b, mode, len) {
        Err(BinaryError::DoesNotFit)
    } else {
        Ok((resized(b, mode, len), mode))
    }
}

} // verus!
