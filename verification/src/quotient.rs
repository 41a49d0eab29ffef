//! Floor division.  A zero divisor is refused explicitly; otherwise the
//! dividend is replaced by the exact floor quotient (the remainder is
//! discarded).  The quotient digits are found by a shift-and-subtract search
//! over doublings of the divisor, which keeps the cost bounded instead of
//! subtracting the divisor one copy at a time.

use vstd::prelude::*;
use vstd::arithmetic::div_mod::*;
use vstd::arithmetic::power::{
    lemma_pow0, lemma_pow1, lemma_pow_adds, lemma_pow_multiplies,
    lemma_pow_strictly_increases_converse, pow,
};
use vstd::arithmetic::power2::{lemma2_to64, lemma_pow2};

use crate::big_number::BigNumber;
use crate::value::{
    all_below_base, lemma_pow_b_pos, lemma_pow_b_unfold, lemma_value_bound, lemma_value_nonneg,
    lemma_value_split, lemma_value_update, limbs_value, modulus, pow_b,
};
use crate::BASE;
use crate::NUMBER_SIZE;

verus! {

/// The top limb bounds the whole value from both sides.
proof fn lemma_top_limb_bounds(s: Seq<u32>)
    requires
        s.len() == NUMBER_SIZE,
        all_below_base(s),
    ensures
        pow_b((NUMBER_SIZE - 1) as nat) * s[NUMBER_SIZE - 1] <= limbs_value(s),
        limbs_value(s) < pow_b((NUMBER_SIZE - 1) as nat) * (s[NUMBER_SIZE - 1] + 1),
{
    let n1 = (NUMBER_SIZE - 1) as int;
    lemma_value_split(s, n1);
    let hi = s.skip(n1);
    assert(hi.len() == 1);
    assert(hi[0] == s[n1]);
    assert(hi.subrange(1, 1) =~= Seq::<u32>::empty());
    assert(limbs_value(hi) == hi[0] + BASE * limbs_value(hi.subrange(1, 1)));
    assert(limbs_value(hi) == s[n1]);
    lemma_value_bound(s.take(n1));
    assert(s.take(n1).len() == n1);
    let ghost pp = pow_b((NUMBER_SIZE - 1) as nat);
    assert(pp * (s[n1] + 1) == pp * s[n1] + pp) by (nonlinear_arith);
}

impl BigNumber {
    /// Half the represented value, rounded down.
    fn half(&self) -> (r: BigNumber)
        requires
            self.reduced(),
        ensures
            r.reduced(),
            r.value() == self.value() / 2,
    {
        let mut r = BigNumber::empty();
        let mut carry: u32 = 0;
        let mut i: usize = NUMBER_SIZE;
        proof {
            assert(self@.skip(NUMBER_SIZE as int) =~= Seq::<u32>::empty());
            assert(r@.skip(NUMBER_SIZE as int) =~= Seq::<u32>::empty());
        }
        while i > 0
            invariant
                i <= NUMBER_SIZE,
                self.reduced(),
                r@.len() == NUMBER_SIZE,
                all_below_base(r@),
                carry <= 1,
                limbs_value(self@.skip(i as int)) == 2 * limbs_value(r@.skip(i as int)) + carry,
            decreases i,
        {
            i -= 1;
            let t: u32 = carry * BASE + self.prec[i];
            let limb: u32 = t / 2;
            let new_carry: u32 = t % 2;
            let ghost before = r@;
            r.prec.set(i, limb);
            proof {
                assert(t == 2 * limb + new_carry);
                let si = self@.skip(i as int);
                assert(si.subrange(1, si.len() as int) =~= self@.skip(i + 1));
                assert(limbs_value(si) == self@[i as int] + BASE * limbs_value(self@.skip(i + 1)));
                let ri = r@.skip(i as int);
                assert(ri.subrange(1, ri.len() as int) =~= before.skip(i + 1));
                assert(r@.skip(i + 1) =~= before.skip(i + 1));
                assert(limbs_value(ri) == limb + BASE * limbs_value(before.skip(i + 1)));
            }
            carry = new_carry;
        }
        proof {
            assert(self@.skip(0) =~= self@);
            assert(r@.skip(0) =~= r@);
            lemma_value_nonneg(r@);
            lemma_fundamental_div_mod_converse(
                limbs_value(self@),
                2,
                limbs_value(r@),
                carry as int,
            );
        }
        r
    }

    /// The number whose value is two to the power `k`: a single set bit.
    fn bit_value(k: usize) -> (r: BigNumber)
        requires
            k < 16 * NUMBER_SIZE,
        ensures
            r.reduced(),
            r.value() == pow(2, k as nat),
    {
        let m = k / 16;
        let e = k % 16;
        let mut p: u32 = 1;
        let mut t: usize = 0;
        proof {
            lemma_pow0(2);
        }
        while t < e
            invariant
                t <= e,
                e <= 15,
                p == pow(2, t as nat),
                p <= 0x8000,
            decreases e - t,
        {
            proof {
                lemma_pow1(2);
                lemma_pow_adds(2, 1, t as nat);
                lemma_pow2(14);
                lemma2_to64();
                vstd::arithmetic::power::lemma_pow_increases(2, t as nat, 14);
            }
            p = p * 2;
            t += 1;
        }
        let mut r = BigNumber::empty();
        let ghost z = r@;
        assert(m < NUMBER_SIZE);
        r.prec.set(m, p);
        proof {
            lemma_value_update(z, m as int, p);
            lemma_pow2(16);
            lemma2_to64();
            lemma_pow_multiplies(2, 16, m as nat);
            assert(pow_b(m as nat) == pow(2, (16 * m) as nat));
            lemma_pow_adds(2, e as nat, (16 * m) as nat);
            assert(e + 16 * m == k);
            assert(p * pow_b(m as nat) == pow(2, k as nat));
            assert(r@ == z.update(m as int, p));
            assert(limbs_value(z) == 0);
        }
        proof {
            assert(p < BASE) by {
                lemma_pow2(15);
                lemma2_to64();
                vstd::arithmetic::power::lemma_pow_increases(2, t as nat, 15);
            }
        }
        r
    }

    /// In-place floor division by `rhs`: the dividend becomes the exact floor
    /// quotient and the remainder is discarded.  A divisor representing zero
    /// is refused with `DivisionByZero` and the dividend is left unchanged.
    pub fn div_assign(&mut self, rhs: &BigNumber) -> (r: Result<(), crate::BigNumberError>)
        requires
            old(self).reduced(),
            rhs.reduced(),
        ensures
            rhs.value() == 0 <==> r is Err,
            r matches Err(e) ==> e == crate::BigNumberError::DivisionByZero && final(self)@ == old(
                self,
            )@,
            r is Ok ==> final(self).reduced() && final(self).value() == old(self).value()
                / rhs.value(),
    {
        if rhs.is_zero() {
            return Err(crate::BigNumberError::DivisionByZero);
        }
        let ghost av = old(self).value();
        let ghost dv = rhs.value();
        proof {
            lemma_value_nonneg(rhs@);
            lemma_value_nonneg(old(self)@);
            lemma_value_bound(old(self)@);
            lemma_value_bound(rhs@);
        }
        let mut quotient = BigNumber::empty();
        let mut rem = self.duplicate();
        let mut s = rhs.duplicate();
        let mut k: usize = 0;
        let mut grown = false;
        proof {
            lemma_pow0(2);
        }
        // grow the divisor by doubling until one more doubling would pass the
        // dividend or the fixed width
        while !grown
            invariant
                old(self).reduced(),
                rhs.reduced(),
                rem.reduced(),
                s.reduced(),
                rem.value() == av,
                av < modulus(),
                dv == rhs.value(),
                dv >= 1,
                s.value() == dv * pow(2, k as nat),
                pow(2, k as nat) <= s.value(),
                s.value() < modulus(),
                k < 16 * NUMBER_SIZE,
                grown ==> av < 2 * s.value(),
            decreases 16 * NUMBER_SIZE - k, (if grown {
                0int
            } else {
                1int
            }),
        {
            if s.prec[NUMBER_SIZE - 1] >= 0x8000 {
                proof {
                    lemma_top_limb_bounds(s@);
                    let ghost pp = pow_b((NUMBER_SIZE - 1) as nat);
                    lemma_pow_b_pos((NUMBER_SIZE - 1) as nat);
                    assert(pp * 0x8000 <= pp * s@[NUMBER_SIZE - 1]) by (nonlinear_arith)
                        requires
                            pp >= 0,
                            0x8000 <= s@[NUMBER_SIZE - 1],
                    ;
                    lemma_pow_b_unfold(NUMBER_SIZE as nat);
                }
                grown = true;
            } else {
                proof {
                    lemma_top_limb_bounds(s@);
                    let ghost pp = pow_b((NUMBER_SIZE - 1) as nat);
                    lemma_pow_b_pos((NUMBER_SIZE - 1) as nat);
                    assert(pp * (s@[NUMBER_SIZE - 1] + 1) <= pp * 0x8000) by (nonlinear_arith)
                        requires
                            pp >= 0,
                            s@[NUMBER_SIZE - 1] + 1 <= 0x8000,
                    ;
                    lemma_pow_b_unfold(NUMBER_SIZE as nat);
                    lemma_fundamental_div_mod_converse(
                        2 * s.value(),
                        modulus(),
                        0,
                        2 * s.value(),
                    );
                }
                let t = s.add(&s);
                if t.gt(&rem) {
                    grown = true;
                } else {
                    proof {
                        lemma_pow1(2);
                        lemma_pow_adds(2, 1, k as nat);
                        assert(dv * (2 * pow(2, k as nat)) == 2 * (dv * pow(2, k as nat)))
                            by (nonlinear_arith);
                        // the exponent stays within the fixed bit width
                        lemma_pow_multiplies(2, 16, NUMBER_SIZE as nat);
                        lemma_pow2(16);
                        lemma2_to64();
                        assert(modulus() == pow(2, (16 * NUMBER_SIZE) as nat));
                        lemma_pow_strictly_increases_converse(
                            2,
                            (k + 1) as nat,
                            (16 * NUMBER_SIZE) as nat,
                        );
                    }
                    s = t;
                    k += 1;
                }
            }
        }
        // walk the doublings back down, subtracting where the remainder allows
        let mut fin = false;
        proof {
            lemma_value_nonneg(rem@);
        }
        while !fin
            invariant
                old(self).reduced(),
                rhs.reduced(),
                rem.reduced(),
                s.reduced(),
                quotient.reduced(),
                av < modulus(),
                dv == rhs.value(),
                dv >= 1,
                s.value() == dv * pow(2, k as nat),
                k < 16 * NUMBER_SIZE,
                av == quotient.value() * dv + rem.value(),
                rem.value() < 2 * s.value(),
                fin ==> k == 0 && rem.value() < s.value(),
            decreases k, (if fin {
                0int
            } else {
                1int
            }),
        {
            proof {
                lemma_value_nonneg(rem@);
                lemma_value_nonneg(quotient@);
            }
            if !s.gt(&rem) {
                rem.sub_assign(&s);
                let b2 = Self::bit_value(k);
                proof {
                    let qv = quotient.value();
                    let bv = pow(2, k as nat);
                    vstd::arithmetic::power::lemma_pow_positive(2, k as nat);
                    assert((qv + bv) * dv == qv * dv + bv * dv) by (nonlinear_arith);
                    assert(bv * dv == dv * bv) by (nonlinear_arith);
                    // the grown quotient still fits in the fixed width
                    lemma_value_nonneg(rem@);
                    assert(qv + bv <= (qv + bv) * dv) by (nonlinear_arith)
                        requires
                            qv + bv >= 0,
                            dv >= 1,
                    ;
                    lemma_fundamental_div_mod_converse(qv + bv, modulus(), 0, qv + bv);
                }
                quotient.add_assign(&b2);
            }
            if k == 0 {
                proof {
                    lemma_pow0(2);
                }
                fin = true;
            } else {
                let ghost sv = s.value();
                let s2 = s.half();
                proof {
                    lemma_pow1(2);
                    lemma_pow_adds(2, 1, (k - 1) as nat);
                    assert(dv * (2 * pow(2, (k - 1) as nat)) == 2 * (dv * pow(2, (k - 1) as nat)))
                        by (nonlinear_arith);
                    lemma_div_multiples_vanish(dv * pow(2, (k - 1) as nat), 2);
                }
                s = s2;
                k -= 1;
            }
        }
        proof {
            lemma_value_nonneg(rem@);
            lemma_fundamental_div_mod_converse(av, dv, quotient.value(), rem.value());
        }
        self.prec = quotient.prec;
        Ok(())
    }

    /// The floor quotient of two numbers, or `DivisionByZero` for a zero
    /// divisor.
    pub fn div(&self, rhs: &BigNumber) -> (r: Result<BigNumber, crate::BigNumberError>)
        requires
            self.reduced(),
            rhs.reduced(),
        ensures
            rhs.value() == 0 <==> r is Err,
            r matches Err(e) ==> e == crate::BigNumberError::DivisionByZero,
            r matches Ok(q) ==> q.reduced() && q.value() == self.value() / rhs.value(),
    {
        let mut q = self.duplicate();
        match q.div_assign(rhs) {
            Ok(()) => Ok(q),
            Err(e) => Err(e),
        }
    }
}

} // verus!
