//! Addition: limb-wise with carry propagation.
use vstd::prelude::*;

use core::ops::Add;
use vstd::std_specs::ops::AddSpecImpl;

use super::limbs::{
    lemma_value_single, lemma_value_split, lemma_value_take_step, limbs_value,
    radix, radix_pow,
};
use super::{lemma_eq_by_value, BigDigit, BigUint};

verus! {

/// `a + b + carry_in` split into the low limb (written to `out`) and the carry out.
/// A nonzero `carry` counts as a carry of one.
pub(crate) fn adc(carry: u8, a: u64, b: u64, out: &mut u64) -> (c: u8)
    ensures
        c <= 1,
        *final(out) as nat + (c as nat) * radix() == a as nat + b as nat + (if carry != 0 {
            1nat
        } else {
            0nat
        }),
{
    let c: u128 = if carry != 0 {
        1
    } else {
        0
    };
    let s: u128 = a as u128 + b as u128 + c;
    if s >= 0x1_0000_0000_0000_0000u128 {
        *out = (s - 0x1_0000_0000_0000_0000u128) as u64;
        1
    } else {
        *out = s as u64;
        0
    }
}

/// One limb position of an addition: `out + c1 * 2^64 == x + y + c0`, scaled by `p`.
proof fn lemma_limb_step(out: nat, c1: nat, x: nat, y: nat, c0: nat, p: nat)
    requires
        out + c1 * radix() == x + y + c0,
    ensures
        out * p + c1 * (radix() * p) == x * p + y * p + c0 * p,
{
    assert(out * p + c1 * (radix() * p) == (out + c1 * radix()) * p) by (nonlinear_arith);
    assert((x + y + c0) * p == x * p + y * p + c0 * p) by (nonlinear_arith);
}

/// Adds `b` into `a` in place, carrying upward through the limbs of `a`.
/// The sum must fit in `a`; the carry that is returned is then zero.
pub fn __add2(a: &mut [BigDigit], b: &[BigDigit]) -> (carry: BigDigit)
    requires
        old(a)@.len() >= b@.len(),
        limbs_value(old(a)@) + limbs_value(b@) < radix_pow(old(a)@.len() as nat),
    ensures
        final(a)@.len() == old(a)@.len(),
        limbs_value(final(a)@) == limbs_value(old(a)@) + limbs_value(b@),
        carry == 0,
{
    let ghost a0 = a@;
    let mut carry: u8 = 0;
    let blen = b.len();
    let alen = a.len();
    let mut i: usize = 0;
    while i < blen
        invariant
            0 <= i <= blen,
            blen == b@.len(),
            alen == a0.len(),
            a@.len() == alen,
            alen >= blen,
            carry <= 1,
            forall|k: int| i <= k < alen ==> a@[k] == a0[k],
            limbs_value(a@.take(i as int)) + (carry as nat) * radix_pow(i as nat) == limbs_value(
                a0.take(i as int),
            ) + limbs_value(b@.take(i as int)),
        decreases blen - i,
    {
        let ghost prev = a@;
        let ghost c0 = carry;
        let mut out: u64 = 0;
        carry = adc(carry, a[i], b[i], &mut out);
        a[i] = out;
        proof {
            assert(a@.take(i as int) =~= prev.take(i as int));
            lemma_value_take_step(a@, i as int);
            lemma_value_take_step(a0, i as int);
            lemma_value_take_step(b@, i as int);
            lemma_limb_step(
                out as nat,
                carry as nat,
                a0[i as int] as nat,
                b@[i as int] as nat,
                c0 as nat,
                radix_pow(i as nat),
            );
            assert(radix_pow((i + 1) as nat) == radix() * radix_pow(i as nat));
        }
        i += 1;
    }
    proof {
        assert(b@.take(blen as int) =~= b@);
    }
    if carry != 0 {
        while i < alen
            invariant
                blen <= i <= alen,
                alen == a0.len(),
                a@.len() == alen,
                carry <= 1,
                forall|k: int| i <= k < alen ==> a@[k] == a0[k],
                limbs_value(a@.take(i as int)) + (carry as nat) * radix_pow(i as nat) == limbs_value(
                    a0.take(i as int),
                ) + limbs_value(b@),
            ensures
                carry == 0 || i == alen,
            decreases alen - i,
        {
            let ghost prev = a@;
            let ghost c0 = carry;
            let mut out: u64 = 0;
            carry = adc(carry, a[i], 0, &mut out);
            a[i] = out;
            proof {
                assert(a@.take(i as int) =~= prev.take(i as int));
                lemma_value_take_step(a@, i as int);
                lemma_value_take_step(a0, i as int);
                lemma_limb_step(
                    out as nat,
                    carry as nat,
                    a0[i as int] as nat,
                    0,
                    c0 as nat,
                    radix_pow(i as nat),
                );
                assert(radix_pow((i + 1) as nat) == radix() * radix_pow(i as nat));
            }
            i += 1;
            if carry == 0 {
                break ;
            }
        }
    }
    proof {
        if carry != 0 {
            assert(a@.take(alen as int) =~= a@);
            assert(a0.take(alen as int) =~= a0);
            assert(false);
        }
        lemma_value_split(a@, i as int);
        lemma_value_split(a0, i as int);
        assert(a@.skip(i as int) =~= a0.skip(i as int));
    }
    carry as BigDigit
}

impl<const N: usize> BigUint<N> {
    /// `self += other`; the sum must fit in `N` limbs.
    pub fn add_assign(&mut self, other: &Self)
        requires
            old(self)@ + other@ < radix_pow(N as nat),
        ensures
            final(self)@ == old(self)@ + other@,
    {
        let carry = __add2(&mut self.0, &other.0);
        assert(carry == 0);
    }

    /// `self += other` for a `u32`; the sum must fit in `N` limbs.
    pub fn add_assign_u32(&mut self, other: u32)
        requires
            old(self)@ + other < radix_pow(N as nat),
        ensures
            final(self)@ == old(self)@ + other,
    {
        if other != 0 {
            let d = [other as BigDigit];
            proof {
                lemma_value_single(other as u64);
                assert(d@ =~= seq![other as u64]);
                assert(radix_pow(0) == 1);
            }
            __add2(&mut self.0, &d);
        }
    }

    /// `self += other` for a `u64`; the sum must fit in `N` limbs.
    pub fn add_assign_u64(&mut self, other: u64)
        requires
            old(self)@ + other < radix_pow(N as nat),
        ensures
            final(self)@ == old(self)@ + other,
    {
        if other != 0 {
            let d = [other];
            proof {
                lemma_value_single(other);
                assert(d@ =~= seq![other]);
                assert(radix_pow(0) == 1);
            }
            __add2(&mut self.0, &d);
        }
    }
}

impl<'a, const N: usize> Add<&'a BigUint<N>> for BigUint<N> {
    type Output = BigUint<N>;

    /// `self + other`; the sum must fit in `N` limbs.
    fn add(self, other: &'a BigUint<N>) -> (r: BigUint<N>)
        ensures
            r@ == self@ + other@,
    {
        let mut s = self;
        s.add_assign(other);
        proof {
            lemma_eq_by_value(s, BigUint::<N>::from_value(self@ + other@ as int));
        }
        s
    }
}

impl<'a, const N: usize> AddSpecImpl<&'a BigUint<N>> for BigUint<N> {
    open spec fn obeys_add_spec() -> bool {
        true
    }

    open spec fn add_req(self, rhs: &'a BigUint<N>) -> bool {
        self@ + rhs@ < radix_pow(N as nat)
    }

    open spec fn add_spec(self, rhs: &'a BigUint<N>) -> BigUint<N> {
        BigUint::<N>::from_value(self@ + rhs@ as int)
    }
}

impl<const N: usize> Add<u32> for BigUint<N> {
    type Output = BigUint<N>;

    /// `self + other`; the sum must fit in `N` limbs.
    fn add(self, other: u32) -> (r: BigUint<N>)
        ensures
            r@ == self@ + other,
    {
        let mut s = self;
        s.add_assign_u32(other);
        proof {
            lemma_eq_by_value(s, BigUint::<N>::from_value(self@ + other));
        }
        s
    }
}

impl<const N: usize> AddSpecImpl<u32> for BigUint<N> {
    open spec fn obeys_add_spec() -> bool {
        true
    }

    open spec fn add_req(self, rhs: u32) -> bool {
        self@ + rhs < radix_pow(N as nat)
    }

    open spec fn add_spec(self, rhs: u32) -> BigUint<N> {
        BigUint::<N>::from_value(self@ + rhs)
    }
}

impl<const N: usize> Add<u64> for BigUint<N> {
    type Output = BigUint<N>;

    /// `self + other`; the sum must fit in `N` limbs.
    fn add(self, other: u64) -> (r: BigUint<N>)
        ensures
            r@ == self@ + other,
    {
        let mut s = self;
        s.add_assign_u64(other);
        proof {
            lemma_eq_by_value(s, BigUint::<N>::from_value(self@ + other));
        }
        s
    }
}

impl<const N: usize> AddSpecImpl<u64> for BigUint<N> {
    open spec fn obeys_add_spec() -> bool {
        true
    }

    open spec fn add_req(self, rhs: u64) -> bool {
        self@ + rhs < radix_pow(N as nat)
    }

    open spec fn add_spec(self, rhs: u64) -> BigUint<N> {
        BigUint::<N>::from_value(self@ + rhs)
    }
}

} // verus!
