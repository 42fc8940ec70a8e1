//! The number that a sequence of little-endian 64-bit limbs stands for,
//! and the facts about it that the arithmetic relies on.
use vstd::prelude::*;

verus! {

/// The radix of one limb, 2^64.
pub open spec fn radix() -> nat {
    0x1_0000_0000_0000_0000nat
}

/// `radix()` raised to the power `n`, that is 2^(64 n).
pub open spec fn radix_pow(n: nat) -> nat
    decreases n,
{
    if n == 0 {
        1
    } else {
        radix() * radix_pow((n - 1) as nat)
    }
}

/// The value of little-endian limbs: `s[0] + s[1] * 2^64 + s[2] * 2^128 + ...`.
pub open spec fn limbs_value(s: Seq<u64>) -> nat
    decreases s.len(),
{
    if s.len() == 0 {
        0
    } else {
        limbs_value(s.drop_last()) + (s.last() as nat) * radix_pow((s.len() - 1) as nat)
    }
}

pub proof fn lemma_radix_pow_pos(n: nat)
    ensures
        radix_pow(n) >= 1,
    decreases n,
{
    if n > 0 {
        lemma_radix_pow_pos((n - 1) as nat);
        let p = radix_pow((n - 1) as nat);
        assert(radix() * p >= 1) by (nonlinear_arith)
            requires
                p >= 1,
                radix() >= 1,
        ;
    }
}

pub proof fn lemma_radix_pow_add(m: nat, n: nat)
    ensures
        radix_pow(m + n) == radix_pow(m) * radix_pow(n),
    decreases m,
{
    if m > 0 {
        lemma_radix_pow_add((m - 1) as nat, n);
        let a = radix_pow((m - 1) as nat);
        let b = radix_pow(n);
        assert(radix_pow(m + n) == radix() * radix_pow((m - 1 + n) as nat));
        assert(radix_pow(m) == radix() * a);
        assert(radix() * (a * b) == (radix() * a) * b) by (nonlinear_arith);
    } else {
        assert(radix_pow(0) == 1);
        assert(m + n == n);
    }
}

/// The value of `s` is below `2^(64 len(s))`.
pub proof fn lemma_value_bound(s: Seq<u64>)
    ensures
        limbs_value(s) < radix_pow(s.len()),
    decreases s.len(),
{
    if s.len() > 0 {
        let n = (s.len() - 1) as nat;
        lemma_value_bound(s.drop_last());
        let v = limbs_value(s.drop_last());
        let p = radix_pow(n);
        let l = s.last() as nat;
        assert(v + l * p < radix() * p) by (nonlinear_arith)
            requires
                v < p,
                l < radix(),
        ;
    }
}

/// Appending one limb adds that limb times its weight.
pub proof fn lemma_value_push(s: Seq<u64>, x: u64)
    ensures
        limbs_value(s.push(x)) == limbs_value(s) + (x as nat) * radix_pow(s.len()),
{
    assert(s.push(x).drop_last() =~= s);
}

/// A single limb stands for itself.
pub proof fn lemma_value_single(x: u64)
    ensures
        limbs_value(seq![x]) == x,
{
    assert(seq![x].drop_last() =~= Seq::<u64>::empty());
    assert(limbs_value(Seq::<u64>::empty()) == 0);
    assert(radix_pow(0) == 1);
    let p = radix_pow(0);
    assert((x as nat) * p == x) by (nonlinear_arith)
        requires
            p == 1,
    ;
}

/// The prefix of length `i + 1` adds limb `i` to the prefix of length `i`.
pub proof fn lemma_value_take_step(s: Seq<u64>, i: int)
    requires
        0 <= i < s.len(),
    ensures
        limbs_value(s.take(i + 1)) == limbs_value(s.take(i)) + (s[i] as nat) * radix_pow(i as nat),
{
    assert(s.take(i + 1) =~= s.take(i).push(s[i]));
    lemma_value_push(s.take(i), s[i]);
}

/// The value of a concatenation.
pub proof fn lemma_value_concat(a: Seq<u64>, b: Seq<u64>)
    ensures
        limbs_value(a + b) == limbs_value(a) + radix_pow(a.len()) * limbs_value(b),
    decreases b.len(),
{
    if b.len() == 0 {
        assert(a + b =~= a);
    } else {
        let bl = b.drop_last();
        assert((a + b).drop_last() =~= a + bl);
        lemma_value_concat(a, bl);
        lemma_radix_pow_add(a.len(), bl.len());
        let pa = radix_pow(a.len());
        let pb = radix_pow(bl.len());
        let x = b.last() as nat;
        let vb = limbs_value(bl);
        assert((a + b).last() == b.last());
        assert(limbs_value(a + b) == limbs_value(a + bl) + x * radix_pow((a.len() + bl.len()) as nat));
        assert(limbs_value(b) == vb + x * pb);
        assert(pa * vb + x * (pa * pb) == pa * (vb + x * pb)) by (nonlinear_arith);
    }
}

/// Splitting limbs at `k` into a low and a high part.
pub proof fn lemma_value_split(s: Seq<u64>, k: int)
    requires
        0 <= k <= s.len(),
    ensures
        limbs_value(s) == limbs_value(s.take(k)) + radix_pow(k as nat) * limbs_value(s.skip(k)),
{
    assert(s =~= s.take(k) + s.skip(k));
    lemma_value_concat(s.take(k), s.skip(k));
}

/// A prefix is worth no more than the whole.
pub proof fn lemma_value_take_le(s: Seq<u64>, k: int)
    requires
        0 <= k <= s.len(),
    ensures
        limbs_value(s.take(k)) <= limbs_value(s),
{
    lemma_value_split(s, k);
    lemma_radix_pow_pos(k as nat);
    let p = radix_pow(k as nat);
    let h = limbs_value(s.skip(k));
    assert(p * h >= 0) by (nonlinear_arith)
        requires
            p >= 1,
            h >= 0,
    ;
}

/// Replacing limb `i` by `x` changes the value by `(x - s[i]) * 2^(64 i)`.
pub proof fn lemma_value_update(s: Seq<u64>, i: int, x: u64)
    requires
        0 <= i < s.len(),
    ensures
        limbs_value(s.update(i, x)) + (s[i] as nat) * radix_pow(i as nat) == limbs_value(s) + (x as nat)
            * radix_pow(i as nat),
    decreases s.len(),
{
    let t = s.update(i, x);
    if i == s.len() - 1 {
        assert(t.drop_last() =~= s.drop_last());
    } else {
        assert(t.drop_last() =~= s.drop_last().update(i, x));
        lemma_value_update(s.drop_last(), i, x);
    }
}

/// The value is zero exactly when every limb is zero.
pub proof fn lemma_value_zero(s: Seq<u64>)
    ensures
        limbs_value(s) == 0 <==> (forall|k: int| 0 <= k < s.len() ==> s[k] == 0),
    decreases s.len(),
{
    if s.len() > 0 {
        lemma_value_zero(s.drop_last());
        let n = (s.len() - 1) as nat;
        lemma_radix_pow_pos(n);
        let p = radix_pow(n);
        let l = s.last() as nat;
        assert(l * p == 0 <==> l == 0) by (nonlinear_arith)
            requires
                p >= 1,
        ;
        if limbs_value(s) == 0 {
            assert forall|k: int| 0 <= k < s.len() implies s[k] == 0 by {
                if k < s.len() - 1 {
                    assert(s.drop_last()[k] == s[k]);
                }
            }
        } else {
            if forall|k: int| 0 <= k < s.len() ==> s[k] == 0 {
                assert forall|k: int| 0 <= k < s.drop_last().len() implies s.drop_last()[k] == 0 by {
                    assert(s.drop_last()[k] == s[k]);
                }
            }
        }
    }
}

/// Limbs of equal length stand for equal values only when they are equal.
pub proof fn lemma_value_injective(s: Seq<u64>, t: Seq<u64>)
    requires
        s.len() == t.len(),
        limbs_value(s) == limbs_value(t),
    ensures
        s == t,
    decreases s.len(),
{
    if s.len() > 0 {
        let n = (s.len() - 1) as nat;
        lemma_value_bound(s.drop_last());
        lemma_value_bound(t.drop_last());
        let p = radix_pow(n);
        let a1 = limbs_value(s.drop_last());
        let a2 = limbs_value(t.drop_last());
        let l1 = s.last() as nat;
        let l2 = t.last() as nat;
        assert(l1 == l2 && a1 == a2) by (nonlinear_arith)
            requires
                a1 < p,
                a2 < p,
                a1 + l1 * p == a2 + l2 * p,
        {
            if l1 < l2 {
                assert(l1 * p + p <= l2 * p);
            } else if l2 < l1 {
                assert(l2 * p + p <= l1 * p);
            }
        }
        lemma_value_injective(s.drop_last(), t.drop_last());
        assert(s =~= s.drop_last().push(s.last()));
        assert(t =~= t.drop_last().push(t.last()));
    } else {
        assert(s =~= t);
    }
}

/// If the limbs above position `i` agree and limb `i` of `s` is the smaller,
/// then `s` stands for the smaller value.
pub proof fn lemma_value_lt_at(s: Seq<u64>, t: Seq<u64>, i: int)
    requires
        s.len() == t.len(),
        0 <= i < s.len(),
        s.skip(i + 1) == t.skip(i + 1),
        s[i] < t[i],
    ensures
        limbs_value(s) < limbs_value(t),
{
    lemma_value_split(s, i + 1);
    lemma_value_split(t, i + 1);
    lemma_value_take_step(s, i);
    lemma_value_take_step(t, i);
    lemma_value_bound(s.take(i));
    let p = radix_pow(i as nat);
    let a = limbs_value(s.take(i));
    let b = limbs_value(t.take(i));
    let x = s[i] as nat;
    let y = t[i] as nat;
    assert(a + x * p < b + y * p) by (nonlinear_arith)
        requires
            a < p,
            b >= 0,
            x < y,
    {
        assert(x * p + p <= y * p);
    }
}


/// Limb `k` of the number `v`: `(v / 2^(64 k)) mod 2^64`.
pub open spec fn digit(v: nat, k: nat) -> u64 {
    ((v / radix_pow(k)) % radix()) as u64
}

/// The `n` lowest limbs of the number `v`, least significant first.
pub open spec fn limbs_of(v: nat, n: nat) -> Seq<u64> {
    Seq::new(n, |k: int| digit(v, k as nat))
}

/// The `n` lowest limbs of `v` stand for `v mod 2^(64 n)`.
pub proof fn lemma_limbs_of_value(v: nat, n: nat)
    ensures
        limbs_value(limbs_of(v, n)) == v % radix_pow(n),
    decreases n,
{
    if n == 0 {
        assert(radix_pow(0) == 1);
        assert(v % 1 == 0);
        assert(limbs_of(v, 0) =~= Seq::<u64>::empty());
    } else {
        let m = (n - 1) as nat;
        lemma_limbs_of_value(v, m);
        assert(limbs_of(v, n).drop_last() =~= limbs_of(v, m));
        lemma_radix_pow_pos(m);
        let p = radix_pow(m);
        vstd::arithmetic::div_mod::lemma_mod_breakdown(v as int, p as int, radix() as int);
        vstd::arithmetic::div_mod::lemma_mod_bound((v / p) as int, radix() as int);
        assert(radix_pow(n) == radix() * p);
        assert(p * radix() == radix() * p) by (nonlinear_arith);
        let d = (v / p) % radix();
        assert(digit(v, m) as nat == d);
        assert(p * d == d * p) by (nonlinear_arith);
    }
}

} // verus!
