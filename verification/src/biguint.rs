//! The fixed-width big unsigned integer type and its double-width product.
pub mod add;
pub mod laws;
pub mod limbs;
pub mod mul;
pub mod sub;

use vstd::prelude::*;

use core::cmp::Ordering;

use self::limbs::{lemma_value_injective, lemma_value_lt_at, limbs_value, radix_pow};

verus! {

/// One limb of a big integer.
pub type BigDigit = u64;

/// Twice the width of a limb; holds the full product of two limbs.
pub type DoubleBigDigit = u128;

/// Number of bits in one limb.
pub const BIG_DIGIT_BITS: u32 = 64;

/// An unsigned integer of `N` limbs, least significant limb first.
#[derive(Clone, Copy, Debug, PartialEq, Eq)]
pub struct BigUint<const N: usize>(pub [BigDigit; N]);

/// The double-width result of multiplying two `BigUint<N>`:
/// its value is `high * 2^(64 N) + low`.
#[derive(Clone, Copy, Debug, PartialEq, Eq)]
pub struct DoubleBigUint<const N: usize> {
    pub high: BigUint<N>,
    pub low: BigUint<N>,
}

impl<const N: usize> View for BigUint<N> {
    type V = nat;

    /// The number that the limbs stand for.
    open spec fn view(&self) -> nat {
        limbs_value(self.0@)
    }
}

impl<const N: usize> View for DoubleBigUint<N> {
    type V = nat;

    open spec fn view(&self) -> nat {
        self.high@ * radix_pow(N as nat) + self.low@
    }
}

impl<const N: usize> BigUint<N> {
    /// The `BigUint<N>` whose value is `v` (meaningful for `v < 2^(64 N)`).
    pub open spec fn from_value(v: int) -> BigUint<N> {
        choose|r: BigUint<N>| r@ == v
    }

    /// Builds the number whose limbs, least significant first, are `data`.
    pub fn new(data: [BigDigit; N]) -> (r: Self)
        ensures
            r.0 == data,
    {
        BigUint(data)
    }

    /// The number zero.
    pub fn zero() -> (r: Self)
        ensures
            r@ == 0,
            forall|k: int| 0 <= k < N ==> r.0[k] == 0,
    {
        let r = BigUint([0u64; N]);
        proof {
            limbs::lemma_value_zero(r.0@);
        }
        r
    }

    /// The number one; there must be at least one limb.
    pub fn one() -> (r: Self)
        requires
            N >= 1,
        ensures
            r@ == 1,
            r.0[0] == 1,
            forall|k: int| 1 <= k < N ==> r.0[k] == 0,
    {
        let mut d = [0u64; N];
        d[0] = 1;
        proof {
            limbs::lemma_value_split(d@, 1);
            limbs::lemma_value_zero(d@.skip(1));
            assert(d@.take(1) =~= seq![1u64]);
            limbs::lemma_value_single(1u64);
            assert(radix_pow(1) * 0 == 0);
        }
        BigUint(d)
    }

    /// The position of the most significant limb in which `self` and `other`
    /// differ, if any.
    fn highest_difference(&self, other: &Self) -> (r: Option<usize>)
        ensures
            r is None ==> self.0@ == other.0@,
            r matches Some(i) ==> i < N && self.0@[i as int] != other.0@[i as int] && self.0@.skip(
                i + 1,
            ) == other.0@.skip(i + 1),
    {
        let mut i: usize = N;
        while i > 0
            invariant
                i <= N,
                self.0@.skip(i as int) == other.0@.skip(i as int),
            decreases i,
        {
            i -= 1;
            if self.0[i] != other.0[i] {
                return Some(i);
            }
            proof {
                assert forall|k: int| 0 <= k < N - i implies self.0@.skip(i as int)[k]
                    == other.0@.skip(i as int)[k] by {
                    if k > 0 {
                        assert(self.0@.skip(i + 1)[k - 1] == other.0@.skip(i + 1)[k - 1]);
                    }
                }
                assert(self.0@.skip(i as int) =~= other.0@.skip(i as int));
            }
        }
        proof {
            assert(self.0@.skip(0) =~= self.0@);
            assert(other.0@.skip(0) =~= other.0@);
        }
        None
    }

    /// Compares the values of `self` and `other`, from the most significant limb down.
    pub fn cmp(&self, other: &Self) -> (r: Ordering)
        ensures
            (r == Ordering::Less) == (self@ < other@),
            (r == Ordering::Equal) == (self@ == other@),
            (r == Ordering::Greater) == (self@ > other@),
    {
        match self.highest_difference(other) {
            None => Ordering::Equal,
            Some(i) => {
                if self.0[i] < other.0[i] {
                    proof {
                        lemma_lt_at_limb(self.0@, other.0@, i);
                    }
                    Ordering::Less
                } else {
                    proof {
                        lemma_lt_at_limb(other.0@, self.0@, i);
                    }
                    Ordering::Greater
                }
            },
        }
    }
}

/// `lemma_value_lt_at` at a machine index.
proof fn lemma_lt_at_limb(s: Seq<u64>, t: Seq<u64>, i: usize)
    requires
        s.len() == t.len(),
        i < s.len(),
        s.skip(i + 1) == t.skip(i + 1),
        s[i as int] < t[i as int],
    ensures
        limbs_value(s) < limbs_value(t),
{
    lemma_value_lt_at(s, t, i as int);
}

impl<const N: usize> DoubleBigUint<N> {
    /// The `DoubleBigUint<N>` whose value is `v` (meaningful for `v < 2^(128 N)`).
    pub open spec fn from_value(v: int) -> DoubleBigUint<N> {
        choose|r: DoubleBigUint<N>| r@ == v
    }
}

/// Two numbers of the same width with the same value have the same limbs.
pub proof fn lemma_eq_by_value<const N: usize>(x: BigUint<N>, y: BigUint<N>)
    requires
        x@ == y@,
    ensures
        x == y,
{
    lemma_value_injective(x.0@, y.0@);
    assert(x.0 =~= y.0);
}

/// Two double-width numbers with the same value have the same halves.
pub proof fn lemma_double_eq_by_value<const N: usize>(x: DoubleBigUint<N>, y: DoubleBigUint<N>)
    requires
        x@ == y@,
    ensures
        x == y,
{
    limbs::lemma_value_bound(x.low.0@);
    limbs::lemma_value_bound(y.low.0@);
    let p = radix_pow(N as nat);
    let h1 = x.high@;
    let h2 = y.high@;
    let l1 = x.low@;
    let l2 = y.low@;
    assert(h1 == h2 && l1 == l2) by (nonlinear_arith)
        requires
            l1 < p,
            l2 < p,
            h1 * p + l1 == h2 * p + l2,
    {
        if h1 < h2 {
            assert(h1 * p + p <= h2 * p);
        } else if h2 < h1 {
            assert(h2 * p + p <= h1 * p);
        }
    }
    lemma_eq_by_value(x.high, y.high);
    lemma_eq_by_value(x.low, y.low);
}

/// An array of `N` limbs whose first `k` limbs are those of `s` and whose
/// other limbs are zero.
spec fn array_prefix<const N: usize>(s: Seq<u64>, k: nat) -> [u64; N]
    decreases k,
{
    if k == 0 {
        vstd::array::spec_array_fill_for_copy_type::<u64, N>(0u64)
    } else {
        vstd::array::spec_array_update(array_prefix::<N>(s, (k - 1) as nat), k - 1, s[k - 1])
    }
}

proof fn lemma_array_prefix<const N: usize>(s: Seq<u64>, k: nat)
    requires
        k <= N,
        s.len() == N,
    ensures
        array_prefix::<N>(s, k)@.len() == N,
        forall|i: int| 0 <= i < k ==> array_prefix::<N>(s, k)@[i] == s[i],
        forall|i: int| k <= i < N ==> array_prefix::<N>(s, k)@[i] == 0,
    decreases k,
{
    if k > 0 {
        lemma_array_prefix::<N>(s, (k - 1) as nat);
    } else {
        let z = vstd::array::spec_array_fill_for_copy_type::<u64, N>(0u64);
        assert(forall|i: int| 0 <= i < N ==> z@[i] == 0);
    }
}

/// Every value below `2^(64 N)` is the value of some `BigUint<N>`,
/// which `from_value` then picks.
pub proof fn lemma_from_value<const N: usize>(v: nat)
    requires
        v < radix_pow(N as nat),
    ensures
        BigUint::<N>::from_value(v as int)@ == v,
{
    let s = limbs::limbs_of(v, N as nat);
    lemma_array_prefix::<N>(s, N as nat);
    let w = BigUint(array_prefix::<N>(s, N as nat));
    assert(w.0@ =~= s);
    limbs::lemma_limbs_of_value(v, N as nat);
    vstd::arithmetic::div_mod::lemma_small_mod(v, radix_pow(N as nat));
    assert(w@ == v);
}

/// Every value below `2^(128 N)` is the value of some `DoubleBigUint<N>`,
/// which `from_value` then picks.
pub proof fn lemma_double_from_value<const N: usize>(v: nat)
    requires
        v < radix_pow(N as nat) * radix_pow(N as nat),
    ensures
        DoubleBigUint::<N>::from_value(v as int)@ == v,
{
    let p = radix_pow(N as nat);
    limbs::lemma_radix_pow_pos(N as nat);
    let h = v / p;
    let l = v % p;
    vstd::arithmetic::div_mod::lemma_fundamental_div_mod(v as int, p as int);
    vstd::arithmetic::div_mod::lemma_mod_bound(v as int, p as int);
    assert(h < p) by {
        vstd::arithmetic::div_mod::lemma_multiply_divide_lt(v as int, p as int, p as int);
    }
    lemma_from_value::<N>(h);
    lemma_from_value::<N>(l);
    let w = DoubleBigUint { high: BigUint::<N>::from_value(h as int), low: BigUint::<N>::from_value(l as int) };
    assert(h * p == p * h) by (nonlinear_arith);
    assert(w@ == v);
}

} // verus!

