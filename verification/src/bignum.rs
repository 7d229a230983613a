//! Unbounded non-negative integers for the codec.
//!
//! A `Big` holds its value as little-endian base-2^32 limbs, so the value is
//! a plain mathematical function of the limb vector.  The arithmetic itself
//! is done by the `num` crate behind thin trusted wrappers whose contracts
//! state the exact result over that value.

use vstd::arithmetic::div_mod::lemma_fundamental_div_mod;
use vstd::prelude::*;

verus! {

/// Value of a little-endian sequence of base-2^32 limbs.
pub open spec fn limbs_value(s: Seq<u32>) -> nat
    decreases s.len(),
{
    if s.len() == 0 {
        0
    } else {
        (s[0] as nat) + (0x1_0000_0000 as nat) * limbs_value(s.drop_first())
    }
}

/// An unbounded non-negative integer, stored as little-endian base-2^32
/// limbs.  Its mathematical value is `limbs_value` of the limb vector.
#[derive(Debug)]
pub struct Big {
    limbs: Vec<u32>,
}

impl View for Big {
    type V = nat;

    closed spec fn view(&self) -> nat {
        limbs_value(self.limbs@)
    }
}

proof fn lemma_limbs_value_two(s: Seq<u32>)
    requires
        s.len() == 2,
    ensures
        limbs_value(s) == s[0] + 0x1_0000_0000 * s[1],
{
    let t = s.drop_first();
    assert(t.len() == 1 && t[0] == s[1]);
    assert(t.drop_first().len() == 0);
    assert(limbs_value(t.drop_first()) == 0);
    assert(limbs_value(t) == t[0] as nat);
    assert(limbs_value(s) == (s[0] as nat) + (0x1_0000_0000 as nat) * limbs_value(t));
}

/// A limb vector stands for zero exactly when every limb is zero.
proof fn lemma_limbs_value_zero(s: Seq<u32>)
    ensures
        (limbs_value(s) == 0) <==> (forall|i: int| 0 <= i < s.len() ==> s[i] == 0),
    decreases s.len(),
{
    if s.len() > 0 {
        let t = s.drop_first();
        lemma_limbs_value_zero(t);
        assert((0x1_0000_0000 as nat) * limbs_value(t) == 0 <==> limbs_value(t) == 0)
            by (nonlinear_arith);
        if limbs_value(s) == 0 {
            assert forall|i: int| 0 <= i < s.len() implies s[i] == 0 by {
                if i > 0 {
                    assert(t[i - 1] == s[i]);
                }
            }
        } else {
            if s[0] != 0 {
            } else {
                let j = choose|j: int| 0 <= j < t.len() && t[j] != 0;
                assert(s[j + 1] == t[j]);
            }
        }
    }
}

impl Big {
    /// The `Big` with value `v`.
    pub fn from_u64(v: u64) -> (r: Big)
        ensures
            r@ == v,
    {
        let lo: u32 = (v % 0x1_0000_0000) as u32;
        let hi: u32 = (v / 0x1_0000_0000) as u32;
        let limbs: Vec<u32> = vec![lo, hi];
        proof {
            lemma_fundamental_div_mod(v as int, 0x1_0000_0000);
            lemma_limbs_value_two(limbs@);
        }
        Big { limbs }
    }

    /// Whether this value is zero.
    pub fn is_zero(&self) -> (r: bool)
        ensures
            r == (self@ == 0),
    {
        let mut i: usize = 0;
        while i < self.limbs.len()
            invariant
                i <= self.limbs@.len(),
                forall|j: int| 0 <= j < i ==> self.limbs@[j] == 0,
            decreases self.limbs@.len() - i,
        {
            if self.limbs[i] != 0 {
                proof {
                    lemma_limbs_value_zero(self.limbs@);
                }
                return false;
            }
            i += 1;
        }
        proof {
            lemma_limbs_value_zero(self.limbs@);
        }
        true
    }
}

/// Relies on num's `BigUint`: `from_slice` reads and `to_u32_digits` writes
/// little-endian base-2^32 digit vectors, and `Mul<u64>` multiplies exactly.
#[verifier::external_body]
pub(crate) fn big_mul_u64(a: &Big, m: u64) -> (r: Big)
    ensures
        r@ == a@ * m,
{
    let x = num::BigUint::from_slice(&a.limbs) * m;
    Big { limbs: x.to_u32_digits() }
}

/// Relies on num's `BigUint`: `from_slice`/`to_u32_digits` as above, and
/// `Add<u64>` adds exactly.
#[verifier::external_body]
pub(crate) fn big_add_u64(a: &Big, d: u64) -> (r: Big)
    ensures
        r@ == a@ + d,
{
    let x = num::BigUint::from_slice(&a.limbs) + d;
    Big { limbs: x.to_u32_digits() }
}

/// Relies on num's `BigUint`: `Add` on two big values adds exactly.
#[verifier::external_body]
pub(crate) fn big_add(a: &Big, b: &Big) -> (r: Big)
    ensures
        r@ == a@ + b@,
{
    let x = num::BigUint::from_slice(&a.limbs) + num::BigUint::from_slice(&b.limbs);
    Big { limbs: x.to_u32_digits() }
}

/// Relies on num's `BigUint`: `Sub` on two big values subtracts exactly; it
/// is never called with a subtrahend above the minuend, where it would panic.
#[verifier::external_body]
pub(crate) fn big_sub(a: &Big, b: &Big) -> (r: Big)
    requires
        b@ <= a@,
    ensures
        r@ == a@ - b@,
{
    let x = num::BigUint::from_slice(&a.limbs) - num::BigUint::from_slice(&b.limbs);
    Big { limbs: x.to_u32_digits() }
}

/// Relies on num's `BigUint`: `Ord` compares by numeric value.
#[verifier::external_body]
pub(crate) fn big_ge(a: &Big, b: &Big) -> (r: bool)
    ensures
        r == (a@ >= b@),
{
    num::BigUint::from_slice(&a.limbs) >= num::BigUint::from_slice(&b.limbs)
}

/// Relies on num's `Integer::div_mod_floor` on `BigUint` for the exact
/// quotient and remainder, and on `to_u64` for the remainder, which is below
/// `m` and so always fits.
#[verifier::external_body]
pub(crate) fn big_divmod_u64(a: &Big, m: u64) -> (r: (Big, u64))
    requires
        1 <= m,
    ensures
        r.0@ == (a@ as int) / (m as int),
        r.1 == (a@ as int) % (m as int),
{
    let (q, rem) = num::Integer::div_mod_floor(
        &num::BigUint::from_slice(&a.limbs),
        &num::BigUint::from(m),
    );
    (Big { limbs: q.to_u32_digits() }, num::ToPrimitive::to_u64(&rem).unwrap())
}

} // verus!
