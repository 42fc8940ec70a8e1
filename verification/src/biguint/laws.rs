//! Properties that span several operations: the operators agree with the
//! arithmetic of the values, and undo one another.
use vstd::prelude::*;

use vstd::std_specs::ops::{AddSpec, MulSpec, SubSpec};

use super::limbs::{lemma_value_bound, lemma_value_injective, limbs_value, radix_pow};
use super::{
    lemma_double_eq_by_value, lemma_double_from_value, lemma_eq_by_value, lemma_from_value,
    BigDigit, BigUint, DoubleBigUint,
};

verus! {

/// `x + y` stands for the sum of the values whenever that sum fits.
pub proof fn law_add_value<const N: usize>(x: BigUint<N>, y: BigUint<N>)
    requires
        x@ + y@ < radix_pow(N as nat),
    ensures
        x.add_spec(&y)@ == x@ + y@,
{
    lemma_from_value::<N>(x@ + y@);
}

/// Addition is commutative.
pub proof fn law_add_commutative<const N: usize>(x: BigUint<N>, y: BigUint<N>)
    requires
        x@ + y@ < radix_pow(N as nat),
    ensures
        x.add_spec(&y) == y.add_spec(&x),
{
    law_add_value(x, y);
    law_add_value(y, x);
    lemma_eq_by_value(x.add_spec(&y), y.add_spec(&x));
}

/// Addition is associative.
pub proof fn law_add_associative<const N: usize>(x: BigUint<N>, y: BigUint<N>, z: BigUint<N>)
    requires
        x@ + y@ + z@ < radix_pow(N as nat),
    ensures
        x.add_spec(&y).add_spec(&z) == x.add_spec(&y.add_spec(&z)),
{
    law_add_value(x, y);
    law_add_value(y, z);
    law_add_value(x.add_spec(&y), z);
    law_add_value(x, y.add_spec(&z));
    lemma_eq_by_value(x.add_spec(&y).add_spec(&z), x.add_spec(&y.add_spec(&z)));
}

/// Zero is the identity of addition.
pub proof fn law_add_zero<const N: usize>(x: BigUint<N>, z: BigUint<N>)
    requires
        z@ == 0,
    ensures
        x.add_spec(&z) == x,
{
    lemma_value_bound(x.0@);
    law_add_value(x, z);
    lemma_eq_by_value(x.add_spec(&z), x);
}

/// Adding a `u32` is adding the same number as a `u64`.
pub proof fn law_add_u32_as_u64<const N: usize>(x: BigUint<N>, a: u32)
    requires
        x@ + a < radix_pow(N as nat),
    ensures
        x.add_spec(a) == x.add_spec(a as u64),
{
}

/// `x - y` stands for the difference of the values whenever `y <= x`.
pub proof fn law_sub_value<const N: usize>(x: BigUint<N>, y: BigUint<N>)
    requires
        y@ <= x@,
    ensures
        x.sub_spec(&y)@ == x@ - y@,
{
    lemma_value_bound(x.0@);
    lemma_from_value::<N>((x@ - y@) as nat);
}

/// Subtracting what was added gives back the first operand.
pub proof fn law_add_then_sub<const N: usize>(x: BigUint<N>, y: BigUint<N>)
    requires
        x@ + y@ < radix_pow(N as nat),
    ensures
        x.add_spec(&y).sub_spec(&y) == x,
{
    law_add_value(x, y);
    law_sub_value(x.add_spec(&y), y);
    lemma_eq_by_value(x.add_spec(&y).sub_spec(&y), x);
}

/// Adding back what was subtracted gives back the first operand.
pub proof fn law_sub_then_add<const N: usize>(x: BigUint<N>, y: BigUint<N>)
    requires
        y@ <= x@,
    ensures
        x.sub_spec(&y).add_spec(&y) == x,
{
    lemma_value_bound(x.0@);
    law_sub_value(x, y);
    law_add_value(x.sub_spec(&y), y);
    lemma_eq_by_value(x.sub_spec(&y).add_spec(&y), x);
}

/// A number minus itself is zero.
pub proof fn law_sub_self<const N: usize>(x: BigUint<N>, z: BigUint<N>)
    requires
        z@ == 0,
    ensures
        x.sub_spec(&x) == z,
{
    law_sub_value(x, x);
    lemma_eq_by_value(x.sub_spec(&x), z);
}

/// The double-width product never overflows: it stands for the product of the values.
pub proof fn law_mul_value<const N: usize>(x: BigUint<N>, y: BigUint<N>)
    ensures
        x.mul_spec(&y)@ == x@ * y@,
{
    lemma_value_bound(x.0@);
    lemma_value_bound(y.0@);
    let p = radix_pow(N as nat);
    let a = x@;
    let b = y@;
    assert(a * b < p * p) by (nonlinear_arith)
        requires
            a < p,
            b < p,
    ;
    lemma_double_from_value::<N>(a * b);
}

/// Multiplication is commutative.
pub proof fn law_mul_commutative<const N: usize>(x: BigUint<N>, y: BigUint<N>)
    ensures
        x.mul_spec(&y) == y.mul_spec(&x),
{
    law_mul_value(x, y);
    law_mul_value(y, x);
    assert(x@ * y@ == y@ * x@) by (nonlinear_arith);
    lemma_double_eq_by_value(x.mul_spec(&y), y.mul_spec(&x));
}

/// One is the identity of multiplication: the product of `x` and one has
/// `x` as its low half and zero as its high half.
pub proof fn law_mul_one<const N: usize>(x: BigUint<N>, o: BigUint<N>, z: BigUint<N>)
    requires
        o@ == 1,
        z@ == 0,
    ensures
        x.mul_spec(&o) == (DoubleBigUint { high: z, low: x }),
{
    law_mul_value(x, o);
    let d = DoubleBigUint { high: z, low: x };
    let p = radix_pow(N as nat);
    assert(0 * p == 0) by (nonlinear_arith);
    lemma_double_eq_by_value(x.mul_spec(&o), d);
}

/// Zero annihilates: the product of `x` and zero is zero in both halves.
pub proof fn law_mul_zero<const N: usize>(x: BigUint<N>, z: BigUint<N>)
    requires
        z@ == 0,
    ensures
        x.mul_spec(&z) == (DoubleBigUint { high: z, low: z }),
{
    law_mul_value(x, z);
    let p = radix_pow(N as nat);
    let a = x@;
    assert(a * 0 == 0 && 0 * p == 0) by (nonlinear_arith);
    lemma_double_eq_by_value(x.mul_spec(&z), DoubleBigUint { high: z, low: z });
}

/// On limb slices, subtracting `b` after adding `b` restores the original limbs:
/// if `t` holds `s + b` and `u` (as long as `s`) holds `t - b`, then `u` is `s`.
pub proof fn law_limbs_add_then_sub(s: Seq<BigDigit>, b: Seq<BigDigit>, t: Seq<BigDigit>, u: Seq<BigDigit>)
    requires
        t.len() == s.len(),
        u.len() == s.len(),
        limbs_value(t) == limbs_value(s) + limbs_value(b),
        limbs_value(u) == limbs_value(t) - limbs_value(b),
    ensures
        u == s,
{
    lemma_value_injective(u, s);
}

} // verus!
