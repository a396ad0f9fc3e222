//! Text renderings of a value: binary and hexadecimal digits.

use crate::binary::{nat_of, zext, BinaryBase, MAX_LEN};
use crate::store::store_get;
use vstd::prelude::*;
use vstd::string::StringExecFns;

verus! {

/// The binary digits of `s`, most significant first.
pub open spec fn bin_text(s: Seq<bool>) -> Seq<char> {
    Seq::new(s.len(), |j: int| if s[s.len() - 1 - j] { '1' } else { '0' })
}

/// The lowercase hexadecimal digit for `v < 16`.
pub open spec fn hex_char(v: nat) -> char {
    if v < 10 {
        (('0' as nat) + v) as char
    } else {
        (('a' as nat) + v - 10) as char
    }
}

/// Number of hexadecimal digits for `n` bits.
pub open spec fn hex_digits(n: nat) -> nat {
    (n + 3) / 4
}

/// The value of the four bits of group `g` (zeros beyond the length).
pub open spec fn nibble(s: Seq<bool>, g: int) -> nat {
    nat_of(zext(s, 4 * hex_digits(s.len())).subrange(4 * g, 4 * g + 4))
}

/// The hexadecimal digits of `s`, most significant first, the top digit
/// padded with zeros.
pub open spec fn hex_text(s: Seq<bool>) -> Seq<char> {
    let d = hex_digits(s.len());
    Seq::new(d, |j: int| hex_char(nibble(s, d - 1 - j)))
}

/// Binary digits, most significant first, after `0b` when `prefix`.
pub fn to_string_bin(binary: &BinaryBase, prefix: bool) -> (r: String)
    requires
        binary.wf(),
    ensures
        r@ == (if prefix { "0b"@ } else { Seq::<char>::empty() }) + bin_text(binary.bits()),
{
    proof {
        reveal_strlit("0b");
        reveal_strlit("1");
        reveal_strlit("0");
        assert("1"@ =~= seq!['1']);
        assert("0"@ =~= seq!['0']);
    }
    let mut out = String::new();
    if prefix {
        out.append("0b");
    }
    let ghost start = out@;
    let n = binary.len();
    let mut j: u64 = 0;
    while j < n
        invariant
            n == binary.bits().len(),
            j <= n,
            start == (if prefix { "0b"@ } else { Seq::<char>::empty() }),
            out@ == start + bin_text(binary.bits()).subrange(0, j as int),
        decreases n - j,
    {
        let ghost before = out@;
        let bit = store_get(&binary.data, n - 1 - j);
        if bit {
            out.append("1");
            proof {
                reveal_strlit("1");
                assert(before + "1"@ =~= before.push('1'));
            }
        } else {
            out.append("0");
            proof {
                reveal_strlit("0");
                assert(before + "0"@ =~= before.push('0'));
            }
        }
        proof {
            assert(out@ == before.push(if bit { '1' } else { '0' }));
            assert(bin_text(binary.bits())[j as int] == if bit { '1' } else { '0' });
            assert(bin_text(binary.bits()).subrange(0, j + 1) =~= bin_text(binary.bits()).subrange(0, j as int).push(if bit { '1' } else { '0' }));
            assert(out@ =~= start + bin_text(binary.bits()).subrange(0, j + 1));
        }
        j = j + 1;
    }
    proof {
        assert(bin_text(binary.bits()).subrange(0, n as int) =~= bin_text(binary.bits()));
    }
    out
}

/// Binary digits in groups of eight counted from the lowest bit, the
/// groups separated by single spaces.
pub open spec fn grouped_text(s: Seq<bool>) -> Seq<char>
    decreases s.len(),
{
    if s.len() <= 8 {
        bin_text(s)
    } else {
        grouped_text(s.subrange(8, s.len() as int)) + seq![' '] + bin_text(s.subrange(0, 8))
    }
}

/// Binary digits of bits `lo..hi`, most significant first.
fn bin_digits(binary: &BinaryBase, lo: u64, hi: u64) -> (r: String)
    requires
        lo <= hi <= binary.bits().len(),
    ensures
        r@ == bin_text(binary.bits().subrange(lo as int, hi as int)),
{
    let ghost s = binary.bits().subrange(lo as int, hi as int);
    let mut out = String::new();
    let mut j: u64 = 0;
    let n = hi - lo;
    proof {
        assert(out@ =~= bin_text(s).subrange(0, 0));
    }
    while j < n
        invariant
            lo <= hi <= binary.bits().len(),
            n == hi - lo,
            s == binary.bits().subrange(lo as int, hi as int),
            j <= n,
            out@ == bin_text(s).subrange(0, j as int),
        decreases n - j,
    {
        let ghost before = out@;
        let bit = store_get(&binary.data, hi - 1 - j);
        if bit {
            out.append("1");
            proof {
                reveal_strlit("1");
                assert(before + "1"@ =~= before.push('1'));
            }
        } else {
            out.append("0");
            proof {
                reveal_strlit("0");
                assert(before + "0"@ =~= before.push('0'));
            }
        }
        proof {
            assert(out@ =~= bin_text(s).subrange(0, j + 1));
        }
        j = j + 1;
    }
    proof {
        assert(bin_text(s).subrange(0, n as int) =~= bin_text(s));
    }
    out
}

/// Binary digits in groups of eight, counted from the lowest bit and
/// separated by spaces.
pub fn to_string_formatted_default(binary: &BinaryBase) -> (r: String)
    requires
        binary.wf(),
    ensures
        r@ == grouped_text(binary.bits()),
{
    let n = binary.len();
    let top = if n == 0 { 0 } else { (n - 1) / 8 * 8 };
    let mut out = bin_digits(binary, top, n);
    let mut lo: u64 = top;
    proof {
        assert(binary.bits().subrange(top as int, n as int).len() <= 8);
        assert(out@ == grouped_text(binary.bits().subrange(lo as int, n as int)));
    }
    while lo > 0
        invariant
            n == binary.bits().len() <= MAX_LEN,
            lo <= n,
            lo % 8 == 0,
            out@ == grouped_text(binary.bits().subrange(lo as int, n as int)),
            lo < n || n == 0,
        decreases lo,
    {
        let next = lo - 8;
        out.append(" ");
        let chunk = bin_digits(binary, next, lo);
        out.append(chunk.as_str());
        proof {
            reveal_strlit(" ");
            let t = binary.bits().subrange(next as int, n as int);
            assert(t.len() > 8);
            assert(t.subrange(8, t.len() as int) =~= binary.bits().subrange(lo as int, n as int));
            assert(t.subrange(0, 8) =~= binary.bits().subrange(next as int, lo as int));
        }
        lo = next;
    }
    proof {
        assert(binary.bits().subrange(0, n as int) =~= binary.bits());
    }
    out
}

fn hex_digit_str(v: u64) -> (r: &'static str)
    requires
        v < 16,
    ensures
        r@ == seq![hex_char(v as nat)],
{
    proof {
        reveal_strlit("0");
        reveal_strlit("1");
        reveal_strlit("2");
        reveal_strlit("3");
        reveal_strlit("4");
        reveal_strlit("5");
        reveal_strlit("6");
        reveal_strlit("7");
        reveal_strlit("8");
        reveal_strlit("9");
        reveal_strlit("a");
        reveal_strlit("b");
        reveal_strlit("c");
        reveal_strlit("d");
        reveal_strlit("e");
        reveal_strlit("f");
    }
    let r = if v == 0 {
        "0"
    } else if v == 1 {
        "1"
    } else if v == 2 {
        "2"
    } else if v == 3 {
        "3"
    } else if v == 4 {
        "4"
    } else if v == 5 {
        "5"
    } else if v == 6 {
        "6"
    } else if v == 7 {
        "7"
    } else if v == 8 {
        "8"
    } else if v == 9 {
        "9"
    } else if v == 10 {
        "a"
    } else if v == 11 {
        "b"
    } else if v == 12 {
        "c"
    } else if v == 13 {
        "d"
    } else if v == 14 {
        "e"
    } else {
        "f"
    };
    proof {
        assert(r@ =~= seq![hex_char(v as nat)]);
    }
    r
}

/// Value of the four bits from `4 * g`, zeros beyond the length.
fn nibble_value(binary: &BinaryBase, g: u64) -> (r: u64)
    requires
        binary.wf(),
        g < hex_digits(binary.bits().len()),
    ensures
        r == nibble(binary.bits(), g as int),
        r < 16,
{
    let n = binary.len();
    let ghost z = zext(binary.bits(), 4 * hex_digits(binary.bits().len()));
    let ghost q = z.subrange(4 * g, 4 * g + 4);
    let mut v: u64 = 0;
    let mut w: u64 = 1;
    let mut i: u64 = 0;
    proof {
        vstd::arithmetic::power2::lemma2_to64();
        assert(q.subrange(0, 0) =~= Seq::<bool>::empty());
    }
    while i < 4
        invariant
            n == binary.bits().len() <= MAX_LEN,
            g < hex_digits(n as nat),
            z == zext(binary.bits(), 4 * hex_digits(binary.bits().len())),
            q == z.subrange(4 * g, 4 * g + 4),
            i <= 4,
            w == vstd::arithmetic::power2::pow2(i as nat),
            v == nat_of(q.subrange(0, i as int)),
            v < w,
        decreases 4 - i,
    {
        let p = 4 * g + i;
        let b = if p < n { store_get(&binary.data, p) } else { false };
        proof {
            assert(q[i as int] == b);
            crate::lemmas::lemma_nat_of_prefix(q, i as int);
            vstd::arithmetic::power2::lemma_pow2_unfold((i + 1) as nat);
            vstd::arithmetic::power2::lemma2_to64();
        }
        if b {
            v = v + w;
        }
        w = w * 2;
        i = i + 1;
    }
    proof {
        assert(q.subrange(0, 4) =~= q);
    }
    v
}

/// Hexadecimal digits, most significant first, after `0x` when `prefix`;
/// the top digit is padded with zeros.
pub fn to_string_hex(binary: &BinaryBase, prefix: bool) -> (r: String)
    requires
        binary.wf(),
    ensures
        r@ == (if prefix { "0x"@ } else { Seq::<char>::empty() }) + hex_text(binary.bits()),
{
    proof {
        reveal_strlit("0x");
    }
    let mut out = String::new();
    if prefix {
        out.append("0x");
    }
    let ghost start = out@;
    let n = binary.len();
    let d = (n + 3) / 4;
    let mut j: u64 = 0;
    while j < d
        invariant
            n == binary.bits().len() <= MAX_LEN,
            d == hex_digits(n as nat),
            j <= d,
            start == (if prefix { "0x"@ } else { Seq::<char>::empty() }),
            out@ == start + hex_text(binary.bits()).subrange(0, j as int),
        decreases d - j,
    {
        let v = nibble_value(binary, d - 1 - j);
        let ghost before = out@;
        let ds = hex_digit_str(v);
        out.append(ds);
        proof {
            assert(before + ds@ =~= before.push(hex_char(v as nat)));
            assert(out@ =~= start + hex_text(binary.bits()).subrange(0, j + 1));
        }
        j = j + 1;
    }
    proof {
        assert(hex_text(binary.bits()).subrange(0, d as int) =~= hex_text(binary.bits()));
    }
    out
}

} // verus!
