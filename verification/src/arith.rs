//! Addition with carry propagation and fixed-width truncation, and
//! subtraction with borrow propagation, saturating at zero.

use vstd::prelude::*;
use vstd::arithmetic::div_mod::*;

use crate::big_number::BigNumber;
use crate::value::{
    add_value, all_below_base, lemma_value_bound, lemma_value_snoc, lemma_value_take_succ,
    limbs_value, modulus, pow_b, sub_value,
};
use crate::BASE;
use crate::NUMBER_SIZE;

verus! {

impl BigNumber {
    /// In-place addition: the represented value becomes the sum, truncated to
    /// the fixed width (arithmetic modulo `BASE ^ NUMBER_SIZE`); no overflow
    /// is signalled.
    pub fn add_assign(&mut self, rhs: &BigNumber)
        requires
            old(self).reduced(),
            rhs.reduced(),
        ensures
            final(self).reduced(),
            final(self).value() == add_value(old(self).value(), rhs.value()),
    {
        let ghost a = self@;
        let ghost b = rhs@;
        let mut result: Vec<u32> = Vec::new();
        let mut carry: u32 = 0;
        let mut i: usize = 0;
        while i < NUMBER_SIZE
            invariant
                i <= NUMBER_SIZE,
                self@ == a,
                rhs@ == b,
                old(self).reduced(),
                rhs.reduced(),
                a == old(self)@,
                result@.len() == i,
                all_below_base(result@),
                carry <= 1,
                limbs_value(result@) + carry * pow_b(i as nat) == limbs_value(a.take(i as int))
                    + limbs_value(b.take(i as int)),
            decreases NUMBER_SIZE - i,
        {
            let num: u32 = self.prec[i] + rhs.prec[i] + carry;
            let limb: u32 = num % BASE;
            let new_carry: u32 = if num < BASE {
                0
            } else {
                1
            };
            proof {
                lemma_fundamental_div_mod(num as int, BASE as int);
                assert(num / BASE == new_carry);
                assert(limb + new_carry * BASE == carry + a[i as int] + b[i as int]);
                lemma_value_snoc(result@, limb);
                lemma_value_take_succ(a, i as int);
                lemma_value_take_succ(b, i as int);
                crate::value::lemma_pow_b_unfold((i + 1) as nat);
                let ghost pp = pow_b(i as nat);
                assert(limb * pp + new_carry * (BASE * pp) == (carry + a[i as int] + b[
                    i as int]) * pp) by (nonlinear_arith)
                    requires
                        limb + new_carry * BASE == carry + a[i as int] + b[i as int],
                ;
                assert((carry + a[i as int] + b[i as int]) * pp == carry * pp + a[i as int] * pp
                    + b[i as int] * pp) by (nonlinear_arith);
            }
            result.push(limb);
            carry = new_carry;
            i += 1;
        }
        proof {
            assert(a.take(NUMBER_SIZE as int) =~= a);
            assert(b.take(NUMBER_SIZE as int) =~= b);
            lemma_value_bound(result@);
            crate::value::lemma_pow_b_pos(NUMBER_SIZE as nat);
            lemma_fundamental_div_mod_converse(
                limbs_value(a) + limbs_value(b),
                modulus(),
                carry as int,
                limbs_value(result@),
            );
        }
        self.prec = result;
    }

    /// The sum of two numbers, truncated to the fixed width.
    pub fn add(&self, rhs: &BigNumber) -> (r: BigNumber)
        requires
            self.reduced(),
            rhs.reduced(),
        ensures
            r.reduced(),
            r.value() == add_value(self.value(), rhs.value()),
    {
        let mut r = self.duplicate();
        r.add_assign(rhs);
        r
    }

    /// In-place subtraction, saturating at zero: when the subtrahend is the
    /// larger value the result is zero, never a wrapped-around value.
    pub fn sub_assign(&mut self, rhs: &BigNumber)
        requires
            old(self).reduced(),
            rhs.reduced(),
        ensures
            final(self).reduced(),
            final(self).value() == sub_value(old(self).value(), rhs.value()),
    {
        if self.lt(rhs) {
            self.prec = BigNumber::empty().prec;
            return;
        }
        let ghost a = self@;
        let ghost b = rhs@;
        let mut result: Vec<u32> = Vec::new();
        let mut borrow: u32 = 0;
        let mut i: usize = 0;
        while i < NUMBER_SIZE
            invariant
                i <= NUMBER_SIZE,
                self@ == a,
                rhs@ == b,
                old(self).reduced(),
                rhs.reduced(),
                a == old(self)@,
                result@.len() == i,
                all_below_base(result@),
                borrow <= 1,
                limbs_value(result@) == limbs_value(a.take(i as int)) - limbs_value(
                    b.take(i as int),
                ) + borrow * pow_b(i as nat),
            decreases NUMBER_SIZE - i,
        {
            let ai = self.prec[i];
            let bi = rhs.prec[i];
            let limb: u32;
            let new_borrow: u32;
            if ai >= bi + borrow {
                limb = ai - bi - borrow;
                new_borrow = 0;
            } else {
                limb = ai + BASE - bi - borrow;
                new_borrow = 1;
            }
            proof {
                assert(limb == a[i as int] - b[i as int] - borrow + new_borrow * BASE);
                lemma_value_snoc(result@, limb);
                lemma_value_take_succ(a, i as int);
                lemma_value_take_succ(b, i as int);
                crate::value::lemma_pow_b_unfold((i + 1) as nat);
                let ghost pp = pow_b(i as nat);
                assert(limb * pp == a[i as int] * pp - b[i as int] * pp - borrow * pp + new_borrow
                    * (BASE * pp)) by (nonlinear_arith)
                    requires
                        limb == a[i as int] - b[i as int] - borrow + new_borrow * BASE,
                ;
            }
            result.push(limb);
            borrow = new_borrow;
            i += 1;
        }
        proof {
            assert(a.take(NUMBER_SIZE as int) =~= a);
            assert(b.take(NUMBER_SIZE as int) =~= b);
            lemma_value_bound(result@);
            crate::value::lemma_pow_b_pos(NUMBER_SIZE as nat);
            assert(borrow == 0);
        }
        self.prec = result;
    }

    /// The difference of two numbers, saturating at zero.
    pub fn sub(&self, rhs: &BigNumber) -> (r: BigNumber)
        requires
            self.reduced(),
            rhs.reduced(),
        ensures
            r.reduced(),
            r.value() == sub_value(self.value(), rhs.value()),
    {
        let mut r = self.duplicate();
        r.sub_assign(rhs);
        r
    }
}

} // verus!
