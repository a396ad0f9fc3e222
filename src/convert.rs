//! Changing sign mode and width: casts, lossless conversions, padding, and
//! sign-mode names.

use crate::binary::{BinaryBase, BinaryError, SignMode, MAX_LEN};
use crate::store::{store_get, store_resize};
use vstd::prelude::*;
use vstd::string::StrSliceExecFns;

verus! {

/// Whether two strings hold the same characters.
fn same_text(a: &str, b: &str) -> (r: bool)
    ensures
        r == (a@ == b@),
{
    let n = a.unicode_len();
    if n != b.unicode_len() {
        return false;
    }
    let mut i: usize = 0;
    while i < n
        invariant
            n == a@.len() == b@.len(),
            i <= n,
            forall|j: int| 0 <= j < i ==> a@[j] == b@[j],
        decreases n - i,
    {
        if a.get_char(i) != b.get_char(i) {
            return false;
        }
        i = i + 1;
    }
    proof {
        assert(a@ =~= b@);
    }
    true
}

impl SignMode {
    /// Reads `"signed"` or `"unsigned"`; anything else gives
    /// `InvalidSignMode`.
    pub fn from_name(name: &str) -> (r: Result<SignMode, BinaryError>)
        ensures
            name@ == "signed"@ ==> r == Ok::<SignMode, BinaryError>(SignMode::Signed),
            name@ == "unsigned"@ ==> r == Ok::<SignMode, BinaryError>(SignMode::Unsigned),
            name@ != "signed"@ && name@ != "unsigned"@ ==> r == Err::<SignMode, BinaryError>(
                BinaryError::InvalidSignMode,
            ),
    {
        proof {
            reveal_strlit("signed");
            reveal_strlit("unsigned");
            assert("signed"@.len() == 6);
            assert("unsigned"@.len() == 8);
            assert("signed"@ != "unsigned"@);
        }
        if same_text(name, "signed") {
            Ok(SignMode::Signed)
        } else if same_text(name, "unsigned") {
            Ok(SignMode::Unsigned)
        } else {
            Err(BinaryError::InvalidSignMode)
        }
    }

    /// The name `from_name` reads back.
    pub fn name(&self) -> (r: &'static str)
        ensures
            *self == SignMode::Signed ==> r@ == "signed"@,
            *self == SignMode::Unsigned ==> r@ == "unsigned"@,
    {
        match self {
            SignMode::Signed => "signed",
            SignMode::Unsigned => "unsigned",
        }
    }
}

/// The same bits under `sign_behavior`, refused (`DoesNotFit`) when the
/// number they stand for would change: an unsigned value with its top bit
/// set cannot become signed, nor a negative signed value unsigned.
pub fn convert_base(binary: &BinaryBase, sign_behavior: SignMode) -> (r: Result<BinaryBase, BinaryError>)
    ensures
        r is Err <==> (sign_behavior != binary.sign_behavior && binary.top_bit()),
        r is Err ==> r->Err_0 == BinaryError::DoesNotFit,
        r is Ok ==> r->Ok_0.bits() == binary.bits() && r->Ok_0.sign_behavior == sign_behavior,
{
    if sign_behavior != binary.sign_behavior && binary.sign_bit() {
        return Err(BinaryError::DoesNotFit);
    }
    Ok(crate::arith::cast_base(binary, sign_behavior))
}

/// A signed value for the same number: an unsigned value with its top bit
/// set gains a zero bit above it.
pub fn extend_to_signed_base(binary: &BinaryBase) -> (r: BinaryBase)
    requires
        binary.bits().len() < MAX_LEN,
    ensures
        r.sign_behavior == SignMode::Signed,
        r.bits() == if binary.sign_behavior == SignMode::Unsigned && binary.top_bit() {
            binary.bits().push(false)
        } else {
            binary.bits()
        },
{
    let mut out = crate::arith::cast_base(binary, SignMode::Signed);
    if binary.sign_behavior == SignMode::Unsigned && binary.sign_bit() {
        out.append_bit(false);
    }
    out
}

/// Cut or extended to `length` bits, new bits set to `bit`; the sign mode
/// is kept.
pub fn pad(binary: &BinaryBase, length: u64, bit: bool) -> (r: BinaryBase)
    ensures
        r.sign_behavior == binary.sign_behavior,
        r.bits() == Seq::new(length as nat, |k: int| if k < binary.bits().len() { binary.bits()[k] } else { bit }),
{
    let mut out = binary.copy();
    store_resize(&mut out.data, length, bit);
    out
}

/// Extended with zeros (or cut) to `length` bits.
pub fn pad_zeros(binary: &BinaryBase, length: u64) -> (r: BinaryBase)
    ensures
        r.sign_behavior == binary.sign_behavior,
        r.bits() == Seq::new(length as nat, |k: int| if k < binary.bits().len() { binary.bits()[k] } else { false }),
{
    pad(binary, length, false)
}

/// Extended with ones (or cut) to `length` bits.
pub fn pad_ones(binary: &BinaryBase, length: u64) -> (r: BinaryBase)
    ensures
        r.sign_behavior == binary.sign_behavior,
        r.bits() == Seq::new(length as nat, |k: int| if k < binary.bits().len() { binary.bits()[k] } else { true }),
{
    pad(binary, length, true)
}

/// Extended with copies of the top bit (or cut) to `length` bits,
/// whatever the sign mode.
pub fn pad_sign_extend(binary: &BinaryBase, length: u64) -> (r: BinaryBase)
    ensures
        r.sign_behavior == binary.sign_behavior,
        r.bits() == Seq::new(
            length as nat,
            |k: int| if k < binary.bits().len() { binary.bits()[k] } else { binary.top_bit() },
        ),
{
    let top = binary.sign_bit();
    pad(binary, length, top)
}

/// The low 64 positions (stored or synthesised) read as a two's-complement
/// machine integer.
pub fn to_i64(binary: &BinaryBase) -> (r: i64)
    requires
        binary.wf(),
    ensures
        r == crate::binary::int_of(crate::cmp::extended(*binary, 64)),
{
    let ghost t = crate::cmp::extended(*binary, 64);
    let n = binary.len();
    let ext = binary.sign_extending_bit();
    let mut v: u64 = 0;
    let mut w: u64 = 1;
    let mut i: u64 = 0;
    proof {
        vstd::arithmetic::power2::lemma2_to64();
        vstd::arithmetic::power2::lemma2_to64_rest();
        assert(t.subrange(0, 0) =~= Seq::<bool>::empty());
    }
    while i < 63
        invariant
            t == crate::cmp::extended(*binary, 64),
            n == binary.bits().len(),
            ext == binary.ext_bit(),
            i <= 63,
            w == vstd::arithmetic::power2::pow2(i as nat),
            v == crate::binary::nat_of(t.subrange(0, i as int)),
            v < w,
            w <= 0x8000_0000_0000_0000u64,
        decreases 63 - i,
    {
        let b = if i < n { store_get(&binary.data, i) } else { ext };
        proof {
            crate::lemmas::lemma_nat_of_prefix(t, i as int);
            vstd::arithmetic::power2::lemma_pow2_unfold((i + 1) as nat);
            vstd::arithmetic::power2::lemma_pow2_strictly_increases((i + 1) as nat, 64);
            vstd::arithmetic::power2::lemma2_to64();
            vstd::arithmetic::power2::lemma2_to64_rest();
        }
        if b {
            v = v + w;
        }
        w = w * 2;
        i = i + 1;
    }
    let top = if 63 < n { store_get(&binary.data, 63) } else { ext };
    proof {
        crate::lemmas::lemma_nat_of_prefix(t, 63);
        assert(t.subrange(0, 64) =~= t);
        vstd::arithmetic::power2::lemma2_to64_rest();
    }
    if top {
        (v as i64) + i64::MIN
    } else {
        v as i64
    }
}

} // verus!
