//! Multiplication: schoolbook product of two `N`-limb numbers into `2 N` limbs.
use vstd::prelude::*;

use core::ops::Mul;
use vstd::std_specs::ops::MulSpecImpl;

use super::add::adc;
use super::limbs::{
    lemma_radix_pow_add, lemma_value_bound, lemma_value_split, lemma_value_take_le,
    lemma_value_take_step, lemma_value_update, limbs_value, radix, radix_pow,
};
use super::{lemma_double_eq_by_value, BigDigit, BigUint, DoubleBigDigit, DoubleBigUint, BIG_DIGIT_BITS};

verus! {

/// A 128-bit number splits into its low and high 64-bit halves.
proof fn lemma_split_u128(x: u128)
    ensures
        x == (x as u64) as u128 + ((x >> 64u32) as u64) as u128 * 0x1_0000_0000_0000_0000u128,
        (x >> 64u32) < 0x1_0000_0000_0000_0000u128,
        x as u64 == x % 0x1_0000_0000_0000_0000u128,
{
    assert(x == (x as u64) as u128 + ((x >> 64u32) as u64) as u128 * 0x1_0000_0000_0000_0000u128)
        by (bit_vector);
    assert((x >> 64u32) < 0x1_0000_0000_0000_0000u128) by (bit_vector);
    assert(x as u64 == x % 0x1_0000_0000_0000_0000u128) by (bit_vector);
}

/// The full product of two limbs, as `(low, high)`.
pub fn __mul2(a: BigDigit, b: BigDigit) -> (r: (BigDigit, BigDigit))
    ensures
        r.0 as nat + (r.1 as nat) * radix() == (a as nat) * (b as nat),
{
    proof {
        assert((a as nat) * (b as nat) <= 0xffff_ffff_ffff_ffff_ffff_ffff_ffff_ffffnat)
            by (nonlinear_arith)
            requires
                a <= 0xffff_ffff_ffff_ffff_u64,
                b <= 0xffff_ffff_ffff_ffff_u64,
        ;
    }
    let res = DoubleBigDigit::from(a) * DoubleBigDigit::from(b);
    proof {
        lemma_split_u128(res);
    }
    (res as BigDigit, (res >> BIG_DIGIT_BITS) as BigDigit)
}

/// The low limb of `acc + a * b`. The accumulator is left as it was.
pub fn mul_with_carry(a: BigDigit, b: BigDigit, acc: &mut BigDigit) -> (lo: BigDigit)
    ensures
        *final(acc) == *old(acc),
        lo as nat == (*old(acc) as nat + (a as nat) * (b as nat)) % radix(),
{
    proof {
        assert((a as nat) * (b as nat) <= 0xffff_ffff_ffff_fffe_0000_0000_0000_0001nat)
            by (nonlinear_arith)
            requires
                a <= 0xffff_ffff_ffff_ffff_u64,
                b <= 0xffff_ffff_ffff_ffff_u64,
        ;
    }
    let mut carry = *acc as DoubleBigDigit;
    carry += DoubleBigDigit::from(a) * DoubleBigDigit::from(b);
    let lo = carry as BigDigit;
    proof {
        lemma_split_u128(carry);
    }
    lo
}

/// Adds `x * 2^(64 pos)` into `r`, carrying upward; the sum must fit in `r`.
fn add_limb_at(r: &mut Vec<BigDigit>, pos: usize, x: BigDigit)
    requires
        pos < old(r)@.len(),
        limbs_value(old(r)@) + (x as nat) * radix_pow(pos as nat) < radix_pow(old(r)@.len() as nat),
    ensures
        final(r)@.len() == old(r)@.len(),
        limbs_value(final(r)@) == limbs_value(old(r)@) + (x as nat) * radix_pow(pos as nat),
{
    let ghost r0 = r@;
    let len = r.len();
    let mut low: u64 = 0;
    let c = adc(0, r[pos], x, &mut low);
    r[pos] = low;
    let mut carry = c != 0;
    proof {
        lemma_value_update(r0, pos as int, low);
        assert(radix_pow((pos + 1) as nat) == radix() * radix_pow(pos as nat));
        let p = radix_pow(pos as nat);
        let cc = c as nat;
        let old_limb = r0[pos as int] as nat;
        assert((low as nat) * p + cc * (radix() * p) == old_limb * p + (x as nat) * p)
            by (nonlinear_arith)
            requires
                low as nat + cc * radix() == old_limb + x as nat,
        ;
    }
    let mut k: usize = 1;
    while carry
        invariant
            len == r0.len(),
            r@.len() == len,
            1 <= k,
            pos + k <= len,
            carry ==> pos + k < len,
            forall|t: int| pos + k <= t < len ==> r@[t] == r0[t],
            limbs_value(r@) + (if carry {
                radix_pow((pos + k) as nat)
            } else {
                0
            }) == limbs_value(r0) + (x as nat) * radix_pow(pos as nat),
            limbs_value(r0) + (x as nat) * radix_pow(pos as nat) < radix_pow(len as nat),
        decreases len - k,
    {
        let q = pos + k;
        let ghost prev = r@;
        let mut new_low: u64 = 0;
        let c = adc(0, r[q], 1, &mut new_low);
        r[q] = new_low;
        carry = c != 0;
        k += 1;
        proof {
            lemma_value_update(prev, q as int, new_low);
            assert(radix_pow((q + 1) as nat) == radix() * radix_pow(q as nat));
            let p = radix_pow(q as nat);
            let cc = c as nat;
            let old_limb = prev[q as int] as nat;
            assert((new_low as nat) * p + cc * (radix() * p) == old_limb * p + p)
                by (nonlinear_arith)
                requires
                    new_low as nat + cc * radix() == old_limb + 1,
            ;
            if carry && pos + k == len {
                assert(limbs_value(r@) + radix_pow(len as nat) < radix_pow(len as nat));
                assert(false);
            }
        }
    }
}

/// The algebra of one partial product `a_i * b_j` added at weight `2^(64 (i + j))`.
proof fn lemma_partial_product(
    a_lo: nat,
    a_all: nat,
    ai: nat,
    pi: nat,
    vb: nat,
    vbj: nat,
    bj: nat,
    pj: nat,
    mlow: nat,
    mhigh: nat,
    pn: nat,
)
    requires
        a_lo + ai * pi <= a_all,
        a_all < pn,
        vb < pn,
        vbj + bj * pj <= vb,
        mlow + mhigh * radix() == ai * bj,
    ensures
        a_lo * vb + ai * pi * vbj + mlow * (pi * pj) + mhigh * (radix() * (pi * pj)) == a_lo * vb
            + ai * pi * (vbj + bj * pj),
        a_lo * vb + ai * pi * (vbj + bj * pj) < pn * pn,
        a_lo * vb + ai * pi * vbj + mlow * (pi * pj) < pn * pn,
{
    assert(mlow * (pi * pj) + mhigh * (radix() * (pi * pj)) == (mlow + mhigh * radix()) * (pi * pj))
        by (nonlinear_arith);
    assert(ai * pi * (vbj + bj * pj) == ai * pi * vbj + (ai * bj) * (pi * pj)) by (nonlinear_arith);
    assert(ai * pi * (vbj + bj * pj) <= ai * pi * vb) by (nonlinear_arith)
        requires
            vbj + bj * pj <= vb,
    ;
    assert(a_lo * vb + ai * pi * vb == (a_lo + ai * pi) * vb) by (nonlinear_arith);
    assert((a_lo + ai * pi) * vb <= a_all * vb) by (nonlinear_arith)
        requires
            a_lo + ai * pi <= a_all,
    ;
    assert(a_all * vb < pn * pn) by (nonlinear_arith)
        requires
            a_all < pn,
            vb < pn,
    ;
    assert(mhigh * (radix() * (pi * pj)) >= 0) by (nonlinear_arith);
}

impl<'a, const N: usize> Mul<&'a BigUint<N>> for BigUint<N> {
    type Output = DoubleBigUint<N>;

    /// The full double-width product `self * other`.
    fn mul(self, other: &'a BigUint<N>) -> (r: DoubleBigUint<N>)
        ensures
            r@ == self@ * other@,
    {
        let n = N;
        let mut result: Vec<BigDigit> = vec![0; 2 * n];
        let ghost a = self.0@;
        let ghost b = other.0@;
        let ghost pn = radix_pow(N as nat);
        proof {
            assert(result@ =~= Seq::new(result@.len(), |k: int| 0u64));
            super::limbs::lemma_value_zero(result@);
            lemma_radix_pow_add(N as nat, N as nat);
            lemma_value_bound(a);
            lemma_value_bound(b);
            assert(a.take(0) =~= Seq::<u64>::empty());
            assert(limbs_value(Seq::<u64>::empty()) == 0);
            let vb = limbs_value(b);
            assert(0 * vb == 0);
        }
        for i in 0..n
            invariant
                n == N,
                2 * N <= usize::MAX,
                a == self.0@,
                b == other.0@,
                a.len() == N,
                b.len() == N,
                pn == radix_pow(N as nat),
                radix_pow((2 * N) as nat) == pn * pn,
                limbs_value(a) < pn,
                limbs_value(b) < pn,
                result@.len() == 2 * N,
                limbs_value(result@) == limbs_value(a.take(i as int)) * limbs_value(b),
        {
            proof {
                assert(b.take(0) =~= Seq::<u64>::empty());
                assert(limbs_value(Seq::<u64>::empty()) == 0);
                let y = (a[i as int] as nat) * radix_pow(i as nat);
                assert(y * 0 == 0);
            }
            for j in 0..n
                invariant
                    n == N,
                    2 * N <= usize::MAX,
                    0 <= i < N,
                    a == self.0@,
                    b == other.0@,
                    a.len() == N,
                    b.len() == N,
                    pn == radix_pow(N as nat),
                    radix_pow((2 * N) as nat) == pn * pn,
                    limbs_value(a) < pn,
                    limbs_value(b) < pn,
                    result@.len() == 2 * N,
                    limbs_value(result@) == limbs_value(a.take(i as int)) * limbs_value(b) + (a[i as int] as nat)
                        * radix_pow(i as nat) * limbs_value(b.take(j as int)),
            {
                let (mlow, mhigh) = __mul2(self.0[i], other.0[j]);
                proof {
                    lemma_value_take_step(a, i as int);
                    lemma_value_take_le(a, (i + 1) as int);
                    lemma_value_take_step(b, j as int);
                    lemma_value_take_le(b, (j + 1) as int);
                    lemma_radix_pow_add(i as nat, j as nat);
                    assert(radix_pow((i + j + 1) as nat) == radix() * radix_pow((i + j) as nat));
                    lemma_partial_product(
                        limbs_value(a.take(i as int)),
                        limbs_value(a),
                        a[i as int] as nat,
                        radix_pow(i as nat),
                        limbs_value(b),
                        limbs_value(b.take(j as int)),
                        b[j as int] as nat,
                        radix_pow(j as nat),
                        mlow as nat,
                        mhigh as nat,
                        pn,
                    );
                }
                add_limb_at(&mut result, i + j, mlow);
                add_limb_at(&mut result, i + j + 1, mhigh);
            }
            proof {
                assert(b.take(N as int) =~= b);
                lemma_value_take_step(a, i as int);
                let x = limbs_value(a.take(i as int));
                let y = (a[i as int] as nat) * radix_pow(i as nat);
                let vb = limbs_value(b);
                assert(x * vb + y * vb == (x + y) * vb) by (nonlinear_arith);
            }
        }
        proof {
            assert(a.take(N as int) =~= a);
        }
        let mut low: [BigDigit; N] = [0; N];
        let mut high: [BigDigit; N] = [0; N];
        for k in 0..n
            invariant
                n == N,
                2 * N <= usize::MAX,
                result@.len() == 2 * N,
                forall|t: int| 0 <= t < k ==> low@[t] == result@[t],
                forall|t: int| 0 <= t < k ==> high@[t] == result@[N + t],
        {
            low[k] = result[k];
            high[k] = result[n + k];
        }
        proof {
            assert(low@ =~= result@.take(N as int));
            assert(high@ =~= result@.skip(N as int));
            lemma_value_split(result@, N as int);
            let h = limbs_value(high@);
            assert(radix_pow(N as nat) * h == h * radix_pow(N as nat)) by (nonlinear_arith);
        }
        let r = DoubleBigUint { high: BigUint::new(high), low: BigUint::new(low) };
        proof {
            lemma_double_eq_by_value(r, DoubleBigUint::<N>::from_value(self@ * other@ as int));
        }
        r
    }
}

impl<'a, const N: usize> MulSpecImpl<&'a BigUint<N>> for BigUint<N> {
    open spec fn obeys_mul_spec() -> bool {
        true
    }

    open spec fn mul_req(self, rhs: &'a BigUint<N>) -> bool {
        2 * N <= usize::MAX
    }

    open spec fn mul_spec(self, rhs: &'a BigUint<N>) -> DoubleBigUint<N> {
        DoubleBigUint::<N>::from_value(self@ * rhs@ as int)
    }
}

} // verus!
