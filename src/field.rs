//! Elements of the scalar field of the Ristretto group, held as canonical
//! little-endian bytes and modelled as integers below the group order.
use vstd::prelude::*;
use vstd::arithmetic::div_mod::{lemma_small_mod, lemma_mul_mod_noop_right, lemma_mod_bound};
use curve25519_dalek::scalar::Scalar;

verus! {

/// The order of the scalar field: 2^252 + 27742317777372353535851937790883648493.
pub open spec fn group_order() -> nat {
    7237005577332262213973186563042994240857116359379907606001950938285454250989nat
}

/// The integer that a sequence of bytes denotes when read little-endian.
pub open spec fn le_value(s: Seq<u8>) -> nat
    decreases s.len(),
{
    if s.len() == 0 {
        0
    } else {
        s[0] as nat + 256 * le_value(s.drop_first())
    }
}

/// Field addition.
pub open spec fn fadd(a: nat, b: nat) -> nat {
    (a + b) % group_order()
}

/// Field multiplication.
pub open spec fn fmul(a: nat, b: nat) -> nat {
    (a * b) % group_order()
}

/// The multiplicative inverse of a non-zero field element.
pub open spec fn finv(a: nat) -> nat {
    choose|y: nat| y < group_order() && fmul(a, y) == 1
}

/// Products and sums are below the group order.
pub proof fn lemma_field_bounds(a: nat, b: nat)
    ensures
        fmul(a, b) < group_order(),
        fadd(a, b) < group_order(),
{
    lemma_mod_bound((a * b) as int, group_order() as int);
    lemma_mod_bound((a + b) as int, group_order() as int);
}

/// An element has one inverse: any `y` below the group order with `a * y == 1`
/// is `finv(a)`.
pub proof fn lemma_finv_unique(a: nat, y: nat)
    requires
        y < group_order(),
        fmul(a, y) == 1,
    ensures
        finv(a) == y,
        fmul(a, finv(a)) == 1,
{
    let m = group_order() as int;
    assert(exists|t: nat| t < group_order() && fmul(a, t) == 1);
    let z = finv(a);
    assert(z < group_order() && fmul(a, z) == 1);
    let ai = a as int;
    let yi = y as int;
    let zi = z as int;
    lemma_mul_mod_noop_right(yi, ai * zi, m);
    lemma_mul_mod_noop_right(zi, ai * yi, m);
    lemma_small_mod(y, group_order());
    lemma_small_mod(z, group_order());
    assert(yi * (ai * zi) == zi * (ai * yi)) by (nonlinear_arith);
}

/// A field element.
#[derive(Clone, Copy, Debug, PartialEq, Eq)]
pub struct Fe {
    pub bytes: [u8; 32],
}

impl Fe {
    /// The integer that the element stands for.
    pub open spec fn value(self) -> nat {
        le_value(self.bytes@)
    }

    /// The encoding is canonical: the integer is below the group order.
    pub open spec fn wf(self) -> bool {
        self.value() < group_order()
    }

    /// The element whose canonical encoding reduces `bytes` modulo the group order.
    pub fn from_bytes_mod_order(bytes: [u8; 32]) -> (r: Fe)
        ensures
            r.wf(),
            r.value() == le_value(bytes@) % group_order(),
    {
        scalar_reduce(bytes)
    }

    /// The little-endian bytes of the element.
    pub fn to_bytes(&self) -> (r: [u8; 32])
        ensures
            r == self.bytes,
    {
        self.bytes
    }

    /// The additive identity.
    pub fn zero() -> (r: Fe)
        ensures
            r.wf(),
            r.value() == 0,
    {
        let bytes: [u8; 32] = [0u8; 32];
        proof {
            lemma_le_value_zero(bytes@);
        }
        Fe { bytes }
    }

    /// The multiplicative identity.
    pub fn one() -> (r: Fe)
        ensures
            r.wf(),
            r.value() == 1,
    {
        let mut bytes: [u8; 32] = [0u8; 32];
        bytes[0] = 1;
        proof {
            assert(forall|k: int| 0 <= k < 31 ==> bytes@.drop_first()[k] == 0);
            lemma_le_value_zero(bytes@.drop_first());
            assert(le_value(bytes@) == 1);
        }
        Fe { bytes }
    }

    /// Whether the encoding is canonical: below the group order.
    pub fn is_canonical(&self) -> (r: bool)
        ensures
            r == self.wf(),
    {
        let reduced = Fe::from_bytes_mod_order(self.bytes);
        let r = reduced.equals(self);
        proof {
            if self.value() < group_order() {
                lemma_small_mod(self.value(), group_order());
            }
        }
        r
    }

    /// Whether two elements stand for the same integer.
    pub fn equals(&self, other: &Fe) -> (r: bool)
        ensures
            r == (self.value() == other.value()),
    {
        let mut i: usize = 0;
        while i < 32
            invariant
                0 <= i <= 32,
                self.bytes@.len() == 32,
                other.bytes@.len() == 32,
                forall|k: int| 0 <= k < i ==> self.bytes@[k] == other.bytes@[k],
            decreases 32 - i,
        {
            if self.bytes[i] != other.bytes[i] {
                proof {
                    if le_value(self.bytes@) == le_value(other.bytes@) {
                        lemma_le_value_injective(self.bytes@, other.bytes@);
                        assert(self.bytes@[i as int] == other.bytes@[i as int]);
                    }
                }
                return false;
            }
            i = i + 1;
        }
        assert(self.bytes@ =~= other.bytes@);
        true
    }

    /// Whether the element is the additive identity.
    pub fn is_zero(&self) -> (r: bool)
        ensures
            r == (self.value() == 0),
    {
        let mut i: usize = 0;
        while i < 32
            invariant
                0 <= i <= 32,
                self.bytes@.len() == 32,
                forall|k: int| 0 <= k < i ==> self.bytes@[k] == 0,
            decreases 32 - i,
        {
            if self.bytes[i] != 0 {
                proof {
                    lemma_le_value_nonzero(self.bytes@, i as int);
                }
                return false;
            }
            i = i + 1;
        }
        proof {
            lemma_le_value_zero(self.bytes@);
        }
        true
    }
}

/// A sequence of zero bytes denotes zero.
pub proof fn lemma_le_value_zero(s: Seq<u8>)
    requires
        forall|k: int| 0 <= k < s.len() ==> s[k] == 0,
    ensures
        le_value(s) == 0,
    decreases s.len(),
{
    if s.len() > 0 {
        lemma_le_value_zero(s.drop_first());
    }
}

/// Two byte strings of one length that denote the same integer are equal.
pub proof fn lemma_le_value_injective(a: Seq<u8>, b: Seq<u8>)
    requires
        a.len() == b.len(),
        le_value(a) == le_value(b),
    ensures
        a == b,
    decreases a.len(),
{
    if a.len() > 0 {
        let x = a[0] as int;
        let y = b[0] as int;
        let p = le_value(a.drop_first()) as int;
        let q = le_value(b.drop_first()) as int;
        assert(x == y && p == q) by (nonlinear_arith)
            requires
                x + 256 * p == y + 256 * q,
                0 <= x < 256,
                0 <= y < 256,
        ;
        lemma_le_value_injective(a.drop_first(), b.drop_first());
        assert(a =~= b) by {
            assert forall|k: int| 0 <= k < a.len() implies a[k] == b[k] by {
                if k > 0 {
                    assert(a[k] == a.drop_first()[k - 1]);
                    assert(b[k] == b.drop_first()[k - 1]);
                }
            }
        }
    }
}

/// A sequence with a non-zero byte denotes a non-zero integer.
pub proof fn lemma_le_value_nonzero(s: Seq<u8>, i: int)
    requires
        0 <= i < s.len(),
        s[i] != 0,
    ensures
        le_value(s) != 0,
    decreases s.len(),
{
    if i > 0 {
        lemma_le_value_nonzero(s.drop_first(), i - 1);
    }
}

/// Relies on curve25519_dalek's Scalar::from_bytes_mod_order, which reduces the
/// little-endian integer modulo the group order, and Scalar::to_bytes, which gives
/// the canonical encoding back.
#[verifier::external_body]
fn scalar_reduce(bytes: [u8; 32]) -> (r: Fe)
    ensures
        r.value() == le_value(bytes@) % group_order(),
        r.wf(),
{
    Fe { bytes: Scalar::from_bytes_mod_order(bytes).to_bytes() }
}

/// Relies on the addition of curve25519_dalek's Scalar: the sum modulo the group order.
#[verifier::external_body]
pub(crate) fn fe_add(a: &Fe, b: &Fe) -> (r: Fe)
    requires
        a.wf(),
        b.wf(),
    ensures
        r.value() == fadd(a.value(), b.value()),
        r.wf(),
{
    let x = Scalar::from_bytes_mod_order(a.bytes);
    let y = Scalar::from_bytes_mod_order(b.bytes);
    Fe { bytes: (&x + &y).to_bytes() }
}

/// Relies on the multiplication of curve25519_dalek's Scalar: the product modulo the
/// group order.
#[verifier::external_body]
pub(crate) fn fe_mul(a: &Fe, b: &Fe) -> (r: Fe)
    requires
        a.wf(),
        b.wf(),
    ensures
        r.value() == fmul(a.value(), b.value()),
        r.wf(),
{
    let x = Scalar::from_bytes_mod_order(a.bytes);
    let y = Scalar::from_bytes_mod_order(b.bytes);
    Fe { bytes: (&x * &y).to_bytes() }
}

/// Relies on curve25519_dalek's Scalar::invert, which for a non-zero scalar returns
/// its multiplicative inverse (the inverse modulo a prime is unique).
#[verifier::external_body]
pub(crate) fn fe_invert(a: &Fe) -> (r: Fe)
    requires
        a.wf(),
        a.value() != 0,
    ensures
        r.value() == finv(a.value()),
        fmul(a.value(), r.value()) == 1,
        r.wf(),
{
    Fe { bytes: Scalar::from_bytes_mod_order(a.bytes).invert().to_bytes() }
}

} // verus!
