//! Algebraic laws of the arithmetic, stated over the value model that the
//! operation contracts use, and proved once and for all.

use vstd::prelude::*;
use vstd::arithmetic::div_mod::{
    lemma_add_mod_noop, lemma_fundamental_div_mod, lemma_fundamental_div_mod_converse,
    lemma_mod_bound, lemma_small_mod,
};

use crate::big_number::BigNumber;
use crate::value::{add_value, lemma_pow_b_pos, lemma_value_injective, modulus, mul_value, sub_value};
use crate::NUMBER_SIZE;

verus! {

/// Subtracting and adding back is the identity when the subtrahend does not
/// exceed the minuend; otherwise the subtraction alone already clamps to zero.
pub proof fn lemma_add_sub_inverse(x: int, y: int)
    requires
        0 <= x < modulus(),
        0 <= y < modulus(),
    ensures
        y <= x ==> add_value(sub_value(x, y), y) == x,
        y > x ==> sub_value(x, y) == 0,
{
    lemma_pow_b_pos(NUMBER_SIZE as nat);
    if y <= x {
        lemma_fundamental_div_mod_converse(x, modulus(), 0, x);
    }
}

/// Truncated addition is commutative.
pub proof fn lemma_add_commutative(x: int, y: int)
    ensures
        add_value(x, y) == add_value(y, x),
{
}

/// Truncated addition is associative.
pub proof fn lemma_add_associative(x: int, y: int, z: int)
    requires
        0 <= x < modulus(),
        0 <= y < modulus(),
        0 <= z < modulus(),
    ensures
        add_value(add_value(x, y), z) == add_value(x, add_value(y, z)),
{
    lemma_pow_b_pos(NUMBER_SIZE as nat);
    let m = modulus();
    lemma_small_mod(x as nat, m as nat);
    lemma_small_mod(z as nat, m as nat);
    lemma_add_mod_noop(x + y, z, m);
    lemma_add_mod_noop(x, y + z, m);
}

/// One is a multiplicative identity for every representable value.
pub proof fn lemma_mul_identity(x: int)
    requires
        0 <= x < modulus(),
    ensures
        mul_value(x, 1) == x,
{
    lemma_pow_b_pos(NUMBER_SIZE as nat);
    lemma_small_mod(x as nat, modulus() as nat);
}

/// Zero annihilates every value under truncated multiplication.
pub proof fn lemma_mul_zero(x: int)
    ensures
        mul_value(x, 0) == 0,
{
    lemma_pow_b_pos(NUMBER_SIZE as nat);
    lemma_small_mod(0, modulus() as nat);
}

/// The floor quotient is the unique integer `q` with `q*y <= x < (q+1)*y`.
pub proof fn lemma_div_floor(x: int, y: int)
    requires
        0 <= x,
        1 <= y,
    ensures
        y * (x / y) <= x < y * (x / y + 1),
        forall|q: int| #[trigger] (y * q) <= x && x < y * (q + 1) ==> q == x / y,
{
    lemma_fundamental_div_mod(x, y);
    lemma_mod_bound(x, y);
    assert(y * (x / y + 1) == y * (x / y) + y) by (nonlinear_arith);
    assert forall|q: int| #[trigger] (y * q) <= x && x < y * (q + 1) implies q == x / y by {
        assert(y * (q + 1) == y * q + y) by (nonlinear_arith);
        assert(y * q == q * y) by (nonlinear_arith);
        lemma_fundamental_div_mod_converse(x, y, q, x - q * y);
    }
}

/// Ordering is total: of two reduced numbers exactly one of `<`, `==`, `>`
/// holds on the represented values, and value equality coincides with
/// limb-for-limb equality.
pub proof fn lemma_ordering_totality(a: BigNumber, b: BigNumber)
    requires
        a.reduced(),
        b.reduced(),
    ensures
        (a.value() < b.value()) ==> !(a.value() == b.value()) && !(a.value() > b.value()),
        (a.value() == b.value()) ==> !(a.value() < b.value()) && !(a.value() > b.value()),
        (a.value() > b.value()) ==> !(a.value() < b.value()) && !(a.value() == b.value()),
        a.value() < b.value() || a.value() == b.value() || a.value() > b.value(),
        a.value() == b.value() <==> a@ =~= b@,
{
    if a.value() == b.value() {
        lemma_value_injective(a@, b@);
    }
}

/// Rotating right by `k` and then by `NUMBER_SIZE - k` restores every limb,
/// for any `k` strictly between zero and the limb count.  The two hypotheses
/// are exactly what two `rotated_right` calls ensure.
pub proof fn lemma_rotation_round_trip(s0: Seq<u32>, s1: Seq<u32>, s2: Seq<u32>, k: int)
    requires
        s0.len() == NUMBER_SIZE,
        s1.len() == NUMBER_SIZE,
        s2.len() == NUMBER_SIZE,
        0 < k < NUMBER_SIZE,
        forall|i: int|
            0 <= i < NUMBER_SIZE ==> s1[i] == s0[(i + k) % (NUMBER_SIZE as int)],
        forall|i: int|
            0 <= i < NUMBER_SIZE ==> s2[i] == s1[(i + (NUMBER_SIZE - k)) % (NUMBER_SIZE as int)],
    ensures
        s2 =~= s0,
{
    let n = NUMBER_SIZE as int;
    assert forall|i: int| 0 <= i < n implies s2[i] == s0[i] by {
        let j = (i + (n - k)) % n;
        assert(s2[i] == s1[j]);
        assert(s1[j] == s0[(j + k) % n]);
        lemma_small_mod(k as nat, n as nat);
        lemma_add_mod_noop(i + (n - k), k, n);
        assert(((i + (n - k)) % n + k % n) % n == (i + n) % n);
        vstd::arithmetic::div_mod::lemma_mod_add_multiples_vanish(i, n);
        lemma_small_mod(i as nat, n as nat);
        assert((j + k) % n == i);
    }
}

} // verus!
