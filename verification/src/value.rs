//! The mathematical model: the integer a limb sequence represents, and the
//! lemmas about it that the arithmetic proofs rest on.

use vstd::prelude::*;
use vstd::arithmetic::div_mod::*;
use vstd::arithmetic::power::*;

use crate::BASE;
use crate::NUMBER_SIZE;

verus! {

/// `BASE` raised to `e`.
pub open spec fn pow_b(e: nat) -> int {
    pow(BASE as int, e)
}

/// One more than the largest representable value: `BASE ^ NUMBER_SIZE`.
pub open spec fn modulus() -> int {
    pow_b(NUMBER_SIZE as nat)
}

/// The integer represented by a limb sequence, limb 0 least significant:
/// `s[0] + BASE * (s[1] + BASE * (...))`.
pub open spec fn limbs_value(s: Seq<u32>) -> int
    decreases s.len(),
{
    if s.len() == 0 {
        0
    } else {
        s[0] + BASE * limbs_value(s.subrange(1, s.len() as int))
    }
}

/// Every limb is reduced, that is, below `BASE`.
pub open spec fn all_below_base(s: Seq<u32>) -> bool {
    forall|i: int| 0 <= i < s.len() ==> s[i] < BASE
}

/// Every limb is zero.
pub open spec fn all_zero(s: Seq<u32>) -> bool {
    forall|i: int| 0 <= i < s.len() ==> s[i] == 0
}

/// What fixed-width addition returns: the true sum truncated to the capacity.
pub open spec fn add_value(x: int, y: int) -> int {
    (x + y) % modulus()
}

/// What saturating subtraction returns: the difference, clamped at zero.
pub open spec fn sub_value(x: int, y: int) -> int {
    if y > x {
        0
    } else {
        x - y
    }
}

/// What fixed-width multiplication returns: the true product truncated.
pub open spec fn mul_value(x: int, y: int) -> int {
    (x * y) % modulus()
}

pub proof fn lemma_pow_b_pos(e: nat)
    ensures
        pow_b(e) >= 1,
{
    lemma_pow_positive(BASE as int, e);
}

pub proof fn lemma_pow_b_unfold(e: nat)
    requires
        e >= 1,
    ensures
        pow_b(e) == BASE * pow_b((e - 1) as nat),
{
    lemma_pow1(BASE as int);
    lemma_pow_adds(BASE as int, 1, (e - 1) as nat);
}

pub proof fn lemma_value_nonneg(s: Seq<u32>)
    ensures
        limbs_value(s) >= 0,
    decreases s.len(),
{
    if s.len() > 0 {
        let t = s.subrange(1, s.len() as int);
        lemma_value_nonneg(t);
    }
}

/// Appending a limb adds its value scaled by the weight of its position.
pub proof fn lemma_value_snoc(s: Seq<u32>, v: u32)
    ensures
        limbs_value(s.push(v)) == limbs_value(s) + v * pow_b(s.len()),
    decreases s.len(),
{
    let p = s.push(v);
    if s.len() == 0 {
        assert(p.subrange(1, 1) =~= Seq::<u32>::empty());
        assert(pow_b(0) == 1) by {
            lemma_pow0(BASE as int);
        }
        assert(limbs_value(p) == v + BASE * limbs_value(Seq::<u32>::empty()));
    } else {
        let t = s.subrange(1, s.len() as int);
        assert(p.subrange(1, p.len() as int) =~= t.push(v));
        lemma_value_snoc(t, v);
        lemma_pow_b_unfold(s.len());
        let ghost pp = pow_b((s.len() - 1) as nat);
        assert(limbs_value(p) == s[0] + BASE * limbs_value(t.push(v)));
        assert(limbs_value(t.push(v)) == limbs_value(t) + v * pp);
        assert(BASE * (limbs_value(t) + v * pp) == BASE * limbs_value(t) + v * (BASE * pp))
            by (nonlinear_arith);
        assert(limbs_value(s) == s[0] + BASE * limbs_value(t));
        assert(pow_b(s.len()) == BASE * pp);
    }
}

/// The value of one more limb of a prefix.
pub proof fn lemma_value_take_succ(s: Seq<u32>, i: int)
    requires
        0 <= i < s.len(),
    ensures
        limbs_value(s.take(i + 1)) == limbs_value(s.take(i)) + s[i] * pow_b(i as nat),
{
    assert(s.take(i + 1) =~= s.take(i).push(s[i]));
    lemma_value_snoc(s.take(i), s[i]);
}

/// A reduced limb sequence represents a value below the weight just past it.
pub proof fn lemma_value_bound(s: Seq<u32>)
    requires
        all_below_base(s),
    ensures
        0 <= limbs_value(s) < pow_b(s.len()),
    decreases s.len(),
{
    if s.len() == 0 {
        assert(pow_b(0) == 1) by {
            lemma_pow0(BASE as int);
        }
    } else {
        let t = s.subrange(1, s.len() as int);
        lemma_value_bound(t);
        lemma_pow_b_unfold(s.len());
        let ghost pp = pow_b((s.len() - 1) as nat);
        assert(limbs_value(t) <= pp - 1);
        assert(BASE * limbs_value(t) <= BASE * (pp - 1)) by (nonlinear_arith)
            requires
                limbs_value(t) <= pp - 1,
        ;
        assert(BASE * (pp - 1) == BASE * pp - BASE) by (nonlinear_arith);
    }
}

/// Splitting a sequence splits its value at the matching weight.
pub proof fn lemma_value_split(s: Seq<u32>, i: int)
    requires
        0 <= i <= s.len(),
    ensures
        limbs_value(s) == limbs_value(s.take(i)) + pow_b(i as nat) * limbs_value(s.skip(i)),
    decreases i,
{
    if i == 0 {
        assert(s.take(0) =~= Seq::<u32>::empty());
        assert(s.skip(0) =~= s);
        assert(pow_b(0) == 1) by {
            lemma_pow0(BASE as int);
        }
    } else {
        lemma_value_split(s, i - 1);
        lemma_value_take_succ(s, i - 1);
        let lo = s.skip(i - 1);
        let hi = s.skip(i);
        assert(lo.len() > 0);
        assert(lo[0] == s[i - 1]);
        assert(lo.subrange(1, lo.len() as int) =~= hi);
        assert(limbs_value(lo) == s[i - 1] + BASE * limbs_value(hi));
        lemma_pow_b_unfold(i as nat);
        let ghost pp = pow_b((i - 1) as nat);
        let ghost si = s[i - 1] as int;
        assert(pp * (si + BASE * limbs_value(hi)) == si * pp + (BASE * pp) * limbs_value(hi))
            by (nonlinear_arith);
    }
}

/// Overwriting one limb changes the value by the scaled difference.
pub proof fn lemma_value_update(s: Seq<u32>, p: int, v: u32)
    requires
        0 <= p < s.len(),
    ensures
        limbs_value(s.update(p, v)) == limbs_value(s) + (v - s[p]) * pow_b(p as nat),
{
    let u = s.update(p, v);
    lemma_value_split(s, p);
    lemma_value_split(u, p);
    assert(u.take(p) =~= s.take(p));
    let lo = s.skip(p);
    let lu = u.skip(p);
    assert(lo.subrange(1, lo.len() as int) =~= lu.subrange(1, lu.len() as int));
    assert(limbs_value(lo) == s[p] + BASE * limbs_value(lo.subrange(1, lo.len() as int)));
    assert(limbs_value(lu) == v + BASE * limbs_value(lo.subrange(1, lo.len() as int)));
    let ghost pp = pow_b(p as nat);
    assert(pp * (v + BASE * limbs_value(lo.subrange(1, lo.len() as int))) - pp * (s[p] + BASE
        * limbs_value(lo.subrange(1, lo.len() as int))) == (v - s[p]) * pp) by (nonlinear_arith);
}

/// A sequence represents zero exactly when every limb is zero.
pub proof fn lemma_value_zero_iff(s: Seq<u32>)
    ensures
        limbs_value(s) == 0 <==> all_zero(s),
    decreases s.len(),
{
    if s.len() > 0 {
        let t = s.subrange(1, s.len() as int);
        lemma_value_zero_iff(t);
        lemma_value_nonneg(t);
        if limbs_value(s) == 0 {
            assert(s[0] == 0 && limbs_value(t) == 0);
            assert forall|i: int| 0 <= i < s.len() implies s[i] == 0 by {
                if i > 0 {
                    assert(t[i - 1] == 0);
                }
            }
        }
        if all_zero(s) {
            assert forall|i: int| 0 <= i < t.len() implies t[i] == 0 by {
                assert(s[i + 1] == 0);
            }
        }
    }
}

/// Reduced representations are unique: equal values mean equal limbs.
pub proof fn lemma_value_injective(a: Seq<u32>, b: Seq<u32>)
    requires
        a.len() == b.len(),
        all_below_base(a),
        all_below_base(b),
        limbs_value(a) == limbs_value(b),
    ensures
        a =~= b,
    decreases a.len(),
{
    if a.len() > 0 {
        let ta = a.subrange(1, a.len() as int);
        let tb = b.subrange(1, b.len() as int);
        lemma_value_nonneg(ta);
        lemma_value_nonneg(tb);
        let v = limbs_value(a);
        lemma_fundamental_div_mod_converse(v, BASE as int, limbs_value(ta), a[0] as int);
        lemma_fundamental_div_mod_converse(v, BASE as int, limbs_value(tb), b[0] as int);
        assert(a[0] == b[0]);
        assert(limbs_value(ta) == limbs_value(tb));
        lemma_value_injective(ta, tb);
        assert forall|i: int| 0 <= i < a.len() implies a[i] == b[i] by {
            if i > 0 {
                assert(ta[i - 1] == tb[i - 1]);
            }
        }
    }
}

/// If two sequences agree above position `i` and differ there, the one with
/// the smaller limb at `i` represents the smaller value.
pub proof fn lemma_value_order(a: Seq<u32>, b: Seq<u32>, i: int)
    requires
        a.len() == b.len(),
        all_below_base(a),
        all_below_base(b),
        0 <= i < a.len(),
        a[i] < b[i],
        forall|j: int| i < j < a.len() ==> a[j] == b[j],
    ensures
        limbs_value(a) < limbs_value(b),
{
    lemma_value_split(a, i);
    lemma_value_split(b, i);
    let sa = a.skip(i);
    let sb = b.skip(i);
    assert(sa.subrange(1, sa.len() as int) =~= sb.subrange(1, sb.len() as int));
    let ghost t = limbs_value(sa.subrange(1, sa.len() as int));
    assert(limbs_value(sa) == a[i] + BASE * t);
    assert(limbs_value(sb) == b[i] + BASE * t);
    lemma_value_bound(a.take(i));
    lemma_value_nonneg(b.take(i));
    let ghost pp = pow_b(i as nat);
    lemma_pow_b_pos(i as nat);
    assert(pp * (b[i] + BASE * t) - pp * (a[i] + BASE * t) == pp * (b[i] - a[i]))
        by (nonlinear_arith);
    assert(pp * (b[i] - a[i]) >= pp) by (nonlinear_arith)
        requires
            pp >= 1,
            b[i] - a[i] >= 1,
    ;
}

/// Bit length of a number: zero for zero, else one more than for its half.
pub open spec fn bit_len(x: nat) -> nat
    decreases x,
{
    if x == 0 {
        0
    } else {
        1 + bit_len(x / 2)
    }
}

/// `bit_len` is pinned down by the enclosing powers of two.
pub proof fn lemma_bit_len_unique(x: nat, t: nat)
    requires
        x < pow(2, t),
        t == 0 || pow(2, (t - 1) as nat) <= x,
    ensures
        bit_len(x) == t,
    decreases t,
{
    if t == 0 {
        lemma_pow0(2);
    } else {
        lemma_pow_positive(2, (t - 1) as nat);
        lemma_pow1(2);
        lemma_pow_adds(2, 1, (t - 1) as nat);
        assert(pow(2, t) == 2 * pow(2, (t - 1) as nat));
        assert(x > 0);
        if t == 1 {
            lemma_pow0(2);
            assert(x < 2);
            assert(x / 2 == 0);
            lemma_bit_len_unique(x / 2, (t - 1) as nat);
        } else {
            lemma_pow_adds(2, 1, (t - 2) as nat);
            assert(pow(2, (t - 1) as nat) == 2 * pow(2, (t - 2) as nat));
            assert(x / 2 < pow(2, (t - 1) as nat));
            assert(pow(2, (t - 2) as nat) <= x / 2);
            lemma_bit_len_unique(x / 2, (t - 1) as nat);
        }
    }
}

} // verus!
