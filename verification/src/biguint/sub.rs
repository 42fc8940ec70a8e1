//! Subtraction: limb-wise with borrow propagation.
use vstd::prelude::*;

use core::cmp::Ordering;
use core::ops::Sub;
use vstd::std_specs::ops::{SubSpec, SubSpecImpl};

use super::limbs::{
    lemma_radix_pow_pos, lemma_value_bound, lemma_value_split, lemma_value_take_le,
    lemma_value_take_step, lemma_value_zero, limbs_value, radix, radix_pow,
};
use super::{lemma_eq_by_value, BigDigit, BigUint};

verus! {

/// `a - b - borrow_in` as the low limb (written to `out`) and the borrow out.
/// A nonzero `borrow` counts as a borrow of one.
fn sbb(borrow: u8, a: u64, b: u64, out: &mut u64) -> (r: u8)
    ensures
        r <= 1,
        *final(out) as nat + b as nat + (if borrow != 0 {
            1nat
        } else {
            0nat
        }) == a as nat + (r as nat) * radix(),
{
    let bi: u128 = if borrow != 0 {
        1
    } else {
        0
    };
    let sub: u128 = b as u128 + bi;
    let av: u128 = a as u128;
    if av >= sub {
        *out = (av - sub) as u64;
        0
    } else {
        *out = (av + 0x1_0000_0000_0000_0000u128 - sub) as u64;
        1
    }
}

/// One limb position of a subtraction, scaled by `p`.
proof fn lemma_borrow_step(out: nat, y: nat, b0: nat, x: nat, b1: nat, p: nat)
    requires
        out + y + b0 == x + b1 * radix(),
    ensures
        out * p + y * p + b0 * p == x * p + b1 * (radix() * p),
{
    assert((out + y + b0) * p == out * p + y * p + b0 * p) by (nonlinear_arith);
    assert((x + b1 * radix()) * p == x * p + b1 * (radix() * p)) by (nonlinear_arith);
}

/// If `v < p`, `v >= p * h` forces `h == 0`.
proof fn lemma_high_part_zero(v: nat, p: nat, h: nat)
    requires
        v < p,
        v >= p * h,
    ensures
        h == 0,
{
    if h >= 1 {
        assert(p * h >= p) by (nonlinear_arith)
            requires
                h >= 1,
        ;
    }
}

/// Subtracts `b` from `a` in place, borrowing upward through the limbs of `a`.
/// `b` must not exceed `a`; limbs of `b` beyond the length of `a` are then zero.
pub fn sub2(a: &mut [BigDigit], b: &[BigDigit])
    requires
        limbs_value(b@) <= limbs_value(old(a)@),
    ensures
        final(a)@.len() == old(a)@.len(),
        limbs_value(final(a)@) == limbs_value(old(a)@) - limbs_value(b@),
{
    let ghost a0 = a@;
    let mut borrow: u8 = 0;
    let alen = a.len();
    let blen = b.len();
    let len = if alen < blen {
        alen
    } else {
        blen
    };
    let mut i: usize = 0;
    while i < len
        invariant
            0 <= i <= len,
            len <= alen,
            len <= blen,
            blen == b@.len(),
            alen == a0.len(),
            a@.len() == alen,
            borrow <= 1,
            forall|k: int| i <= k < alen ==> a@[k] == a0[k],
            limbs_value(a@.take(i as int)) + limbs_value(b@.take(i as int)) == limbs_value(
                a0.take(i as int),
            ) + (borrow as nat) * radix_pow(i as nat),
        decreases len - i,
    {
        let ghost prev = a@;
        let ghost c0 = borrow;
        let mut out: u64 = 0;
        borrow = sbb(borrow, a[i], b[i], &mut out);
        a[i] = out;
        proof {
            assert(a@.take(i as int) =~= prev.take(i as int));
            lemma_value_take_step(a@, i as int);
            lemma_value_take_step(a0, i as int);
            lemma_value_take_step(b@, i as int);
            lemma_borrow_step(
                out as nat,
                b@[i as int] as nat,
                c0 as nat,
                a0[i as int] as nat,
                borrow as nat,
                radix_pow(i as nat),
            );
            assert(radix_pow((i + 1) as nat) == radix() * radix_pow(i as nat));
        }
        i += 1;
    }
    let ghost b_lo = b@.take(len as int);
    if borrow != 0 {
        while i < alen
            invariant
                len <= i <= alen,
                alen == a0.len(),
                a@.len() == alen,
                borrow <= 1,
                forall|k: int| i <= k < alen ==> a@[k] == a0[k],
                limbs_value(a@.take(i as int)) + limbs_value(b_lo) == limbs_value(a0.take(i as int))
                    + (borrow as nat) * radix_pow(i as nat),
            ensures
                borrow == 0 || i == alen,
            decreases alen - i,
        {
            let ghost prev = a@;
            let ghost c0 = borrow;
            let mut out: u64 = 0;
            borrow = sbb(borrow, a[i], 0, &mut out);
            a[i] = out;
            proof {
                assert(a@.take(i as int) =~= prev.take(i as int));
                lemma_value_take_step(a@, i as int);
                lemma_value_take_step(a0, i as int);
                lemma_borrow_step(
                    out as nat,
                    0,
                    c0 as nat,
                    a0[i as int] as nat,
                    borrow as nat,
                    radix_pow(i as nat),
                );
                assert(radix_pow((i + 1) as nat) == radix() * radix_pow(i as nat));
            }
            i += 1;
            if borrow == 0 {
                break ;
            }
        }
    }
    proof {
        lemma_value_take_le(b@, len as int);
        if borrow != 0 {
            assert(a@.take(alen as int) =~= a@);
            assert(a0.take(alen as int) =~= a0);
            lemma_value_bound(a@);
            lemma_radix_pow_pos(alen as nat);
            assert(false);
        }
        // Nothing of `b` lies above the limbs of `a`.
        lemma_value_split(b@, len as int);
        if len < blen {
            lemma_value_bound(a0);
            lemma_high_part_zero(
                limbs_value(b@),
                radix_pow(len as nat),
                limbs_value(b@.skip(len as int)),
            );
            lemma_value_zero(b@.skip(len as int));
            assert(radix_pow(len as nat) * 0 == 0);
            assert(limbs_value(b_lo) == limbs_value(b@));
        } else {
            assert(b_lo =~= b@);
        }
        assert forall|k: int| len <= k < blen implies b@[k] == 0 by {
            lemma_value_zero(b@.skip(len as int));
            assert(b@.skip(len as int)[k - len] == b@[k]);
        }
        lemma_value_split(a@, i as int);
        lemma_value_split(a0, i as int);
        assert(a@.skip(i as int) =~= a0.skip(i as int));
        assert((borrow as nat) * radix_pow(i as nat) == 0);
        assert(limbs_value(a@.take(i as int)) + limbs_value(b_lo) == limbs_value(a0.take(i as int)));
        assert(limbs_value(b_lo) == limbs_value(b@));
    }
}

/// Writes `a - b` into `b`, for slices of equal length, and returns the final
/// borrow: one exactly when `a < b`, in which case `b` holds `a - b + 2^(64 len)`.
pub fn __sub2rev(a: &[BigDigit], b: &mut [BigDigit]) -> (borrow: u8)
    requires
        old(b)@.len() == a@.len(),
    ensures
        final(b)@.len() == old(b)@.len(),
        borrow <= 1,
        limbs_value(final(b)@) + limbs_value(old(b)@) == limbs_value(a@) + (borrow as nat)
            * radix_pow(a@.len() as nat),
        borrow == 1 <==> limbs_value(a@) < limbs_value(old(b)@),
{
    let ghost b0 = b@;
    let mut borrow: u8 = 0;
    let len = a.len();
    let mut i: usize = 0;
    while i < len
        invariant
            0 <= i <= len,
            len == a@.len(),
            len == b0.len(),
            b@.len() == len,
            borrow <= 1,
            forall|k: int| i <= k < len ==> b@[k] == b0[k],
            limbs_value(b@.take(i as int)) + limbs_value(b0.take(i as int)) == limbs_value(
                a@.take(i as int),
            ) + (borrow as nat) * radix_pow(i as nat),
        decreases len - i,
    {
        let ghost prev = b@;
        let ghost c0 = borrow;
        let mut out: u64 = 0;
        borrow = sbb(borrow, a[i], b[i], &mut out);
        b[i] = out;
        proof {
            assert(b@.take(i as int) =~= prev.take(i as int));
            lemma_value_take_step(b@, i as int);
            lemma_value_take_step(b0, i as int);
            lemma_value_take_step(a@, i as int);
            lemma_borrow_step(
                out as nat,
                b0[i as int] as nat,
                c0 as nat,
                a@[i as int] as nat,
                borrow as nat,
                radix_pow(i as nat),
            );
            assert(radix_pow((i + 1) as nat) == radix() * radix_pow(i as nat));
        }
        i += 1;
    }
    proof {
        assert(b@.take(len as int) =~= b@);
        assert(b0.take(len as int) =~= b0);
        assert(a@.take(len as int) =~= a@);
        lemma_value_bound(b@);
        let p = radix_pow(len as nat);
        if borrow == 0 {
            assert((borrow as nat) * p == 0);
        } else {
            assert((borrow as nat) * p == p);
        }
    }
    borrow
}

/// Writes `a - b` into `b`; `b` is at least as long as `a` and its value must
/// not exceed that of `a`.
pub fn sub2rev(a: &[BigDigit], b: &mut [BigDigit])
    requires
        a@.len() <= old(b)@.len(),
        limbs_value(old(b)@) <= limbs_value(a@),
    ensures
        final(b)@.len() == old(b)@.len(),
        limbs_value(final(b)@) == limbs_value(a@) - limbs_value(old(b)@),
{
    let ghost b0 = b@;
    let len = if a.len() < b.len() {
        a.len()
    } else {
        b.len()
    };
    let (a_lo, a_hi) = a.split_at(len);
    let (b_lo, b_hi) = b.split_at_mut(len);
    proof {
        assert(a_lo@ =~= a@);
        lemma_value_split(b0, len as int);
        lemma_value_bound(a@);
        lemma_high_part_zero(limbs_value(b0), radix_pow(len as nat), limbs_value(b0.skip(len as int)));
        lemma_value_zero(b0.skip(len as int));
        lemma_radix_pow_pos(len as nat);
    }
    let borrow = __sub2rev(a_lo, b_lo);
    proof {
        assert(a_hi@.len() == 0);
        assert(borrow == 0);
        assert(forall|k: int| 0 <= k < b_hi@.len() ==> b_hi@[k] == 0);
        super::limbs::lemma_value_concat(b_lo@, b_hi@);
        assert(b_hi@ =~= b0.skip(len as int));
        assert(limbs_value(b_lo@ + b_hi@) == limbs_value(a@) - limbs_value(b0));
    }
}

impl<const N: usize> BigUint<N> {
    /// `self -= other`; `other` must not exceed `self`.
    pub fn sub_assign(&mut self, other: &Self)
        requires
            other@ <= old(self)@,
        ensures
            final(self)@ == old(self)@ - other@,
    {
        sub2(&mut self.0, &other.0);
    }

    /// `self - v`, or `None` when `v` exceeds `self`.
    pub fn checked_sub(&self, v: &BigUint<N>) -> (r: Option<Self>)
        ensures
            r is None <==> self@ < v@,
            r matches Some(d) ==> d@ == self@ - v@ && d == SubSpec::sub_spec(*self, v),
    {
        let res = self.clone();
        match self.cmp(v) {
            Ordering::Less => None,
            Ordering::Equal => {
                let z = Self::zero();
                proof {
                    lemma_eq_by_value(*self, *v);
                    super::laws::law_sub_self(*self, z);
                }
                Some(z)
            },
            Ordering::Greater => Some(res.sub(v)),
        }
    }
}

impl<'a, const N: usize> Sub<&'a BigUint<N>> for BigUint<N> {
    type Output = BigUint<N>;

    /// `self - other`; `other` must not exceed `self`.
    fn sub(self, other: &'a BigUint<N>) -> (r: BigUint<N>)
        ensures
            r@ == self@ - other@,
    {
        let mut res = self.clone();
        res.sub_assign(other);
        proof {
            lemma_eq_by_value(res, BigUint::<N>::from_value(self@ - other@));
        }
        res
    }
}

impl<'a, const N: usize> SubSpecImpl<&'a BigUint<N>> for BigUint<N> {
    open spec fn obeys_sub_spec() -> bool {
        true
    }

    open spec fn sub_req(self, rhs: &'a BigUint<N>) -> bool {
        rhs@ <= self@
    }

    open spec fn sub_spec(self, rhs: &'a BigUint<N>) -> BigUint<N> {
        BigUint::<N>::from_value(self@ - rhs@)
    }
}

} // verus!
