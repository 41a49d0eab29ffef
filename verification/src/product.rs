//! Schoolbook multiplication into a fixed-width accumulator: partial products
//! beyond the top limb are dropped, so the result is the true product
//! truncated to the capacity (arithmetic modulo `BASE ^ NUMBER_SIZE`).

use vstd::prelude::*;
use vstd::arithmetic::div_mod::*;
use vstd::arithmetic::power::lemma_pow_adds;

use crate::big_number::BigNumber;
use crate::value::{
    all_below_base, lemma_pow_b_pos, lemma_pow_b_unfold, lemma_value_bound, lemma_value_split,
    lemma_value_take_succ, lemma_value_update, limbs_value, modulus, mul_value, pow_b,
};
use crate::BASE;
use crate::NUMBER_SIZE;

verus! {

impl BigNumber {
    /// In-place multiplication: the represented value becomes the product,
    /// truncated to the fixed width; no overflow is signalled.
    pub fn mul_assign(&mut self, rhs: &BigNumber)
        requires
            old(self).reduced(),
            rhs.reduced(),
        ensures
            final(self).reduced(),
            final(self).value() == mul_value(old(self).value(), rhs.value()),
    {
        let ghost a = self@;
        let ghost b = rhs@;
        let mut w: Vec<u32> = BigNumber::empty().prec;
        let ghost mut slack: int = 0;
        let mut i: usize = 0;
        proof {
            assert(a.take(0) =~= Seq::<u32>::empty());
        }
        while i < NUMBER_SIZE
            invariant
                i <= NUMBER_SIZE,
                self@ == a,
                rhs@ == b,
                old(self).reduced(),
                rhs.reduced(),
                a == old(self)@,
                w@.len() == NUMBER_SIZE,
                all_below_base(w@),
                limbs_value(w@) == limbs_value(a.take(i as int)) * limbs_value(b) - slack
                    * modulus(),
            decreases NUMBER_SIZE - i,
        {
            let ghost ai = a[i as int] as int;
            if self.prec[i] != 0 {
                let ghost w0 = w@;
                let mut c: u32 = 0;
                let mut j: usize = 0;
                while j < NUMBER_SIZE - i
                    invariant
                        i < NUMBER_SIZE,
                        j <= NUMBER_SIZE - i,
                        self@ == a,
                        rhs@ == b,
                        old(self).reduced(),
                        rhs.reduced(),
                        a == old(self)@,
                        ai == a[i as int],
                        w@.len() == NUMBER_SIZE,
                        all_below_base(w@),
                        c < BASE,
                        limbs_value(w@) + c * pow_b((i + j) as nat) == limbs_value(w0) + ai
                            * limbs_value(b.take(j as int)) * pow_b(i as nat),
                    decreases NUMBER_SIZE - i - j,
                {
                    let pos = i + j;
                    proof {
                        assert(a[i as int] * b[j as int] <= 0xFFFE_0001) by (nonlinear_arith)
                            requires
                                0 <= a[i as int] < 0x10000,
                                0 <= b[j as int] < 0x10000,
                        ;
                    }
                    let uvb: u64 = w[pos] as u64 + self.prec[i] as u64 * rhs.prec[j] as u64
                        + c as u64;
                    let limb: u32 = (uvb % (BASE as u64)) as u32;
                    let new_c: u32 = (uvb / (BASE as u64)) as u32;
                    let ghost wpos = w@[pos as int] as int;
                    let ghost bj = b[j as int] as int;
                    proof {
                        lemma_fundamental_div_mod(uvb as int, BASE as int);
                        assert(uvb < 0x1_0000_0000);
                        assert(new_c < BASE);
                        assert(limb + new_c * BASE == wpos + ai * bj + c);
                        let ppi = pow_b(i as nat);
                        let ppj = pow_b(j as nat);
                        let ppp = pow_b((i + j) as nat);
                        lemma_pow_adds(BASE as int, i as nat, j as nat);
                        assert(ppp == ppi * ppj);
                        lemma_pow_b_unfold((i + j + 1) as nat);
                        assert(pow_b((i + j + 1) as nat) == BASE * ppp);
                        lemma_value_update(w@, pos as int, limb);
                        lemma_value_take_succ(b, j as int);
                        // value change at the written position
                        assert((limb - wpos) * ppp == (ai * bj) * ppp + c * ppp - new_c * (BASE
                            * ppp)) by (nonlinear_arith)
                            requires
                                limb - wpos == ai * bj + c - new_c * BASE,
                        ;
                        // the partial product folds into one more limb of `b`
                        assert(ai * (limbs_value(b.take(j as int)) + bj * ppj) * ppi == ai
                            * limbs_value(b.take(j as int)) * ppi + (ai * bj) * (ppi * ppj))
                            by (nonlinear_arith);
                    }
                    w.set(pos, limb);
                    c = new_c;
                    j += 1;
                }
                proof {
                    let ppi = pow_b(i as nat);
                    let tail = limbs_value(b.skip((NUMBER_SIZE - i) as int));
                    let head = limbs_value(b.take((NUMBER_SIZE - i) as int));
                    lemma_value_split(b, (NUMBER_SIZE - i) as int);
                    lemma_pow_adds(BASE as int, i as nat, (NUMBER_SIZE - i) as nat);
                    assert(modulus() == ppi * pow_b((NUMBER_SIZE - i) as nat));
                    lemma_value_take_succ(a, i as int);
                    // distribute the row across the kept and the dropped part
                    assert((limbs_value(a.take(i as int)) + ai * ppi) * limbs_value(b)
                        == limbs_value(a.take(i as int)) * limbs_value(b) + ai * (head + pow_b(
                        (NUMBER_SIZE - i) as nat,
                    ) * tail) * ppi) by (nonlinear_arith)
                        requires
                            limbs_value(b) == head + pow_b((NUMBER_SIZE - i) as nat) * tail,
                    ;
                    assert(ai * (head + pow_b((NUMBER_SIZE - i) as nat) * tail) * ppi == ai * head
                        * ppi + (ai * tail) * (ppi * pow_b((NUMBER_SIZE - i) as nat)))
                        by (nonlinear_arith);
                    assert((slack + ai * tail + c) * modulus() == slack * modulus() + (ai * tail)
                        * modulus() + c * modulus()) by (nonlinear_arith);
                    slack = slack + ai * tail + c;
                }
            } else {
                proof {
                    lemma_value_take_succ(a, i as int);
                    assert(limbs_value(a.take(i + 1)) == limbs_value(a.take(i as int)));
                }
            }
            i += 1;
        }
        proof {
            assert(a.take(NUMBER_SIZE as int) =~= a);
            lemma_value_bound(w@);
            lemma_pow_b_pos(NUMBER_SIZE as nat);
            lemma_fundamental_div_mod_converse(
                limbs_value(a) * limbs_value(b),
                modulus(),
                slack,
                limbs_value(w@),
            );
        }
        self.prec = w;
    }

    /// The product of two numbers, truncated to the fixed width.
    pub fn mul(&self, rhs: &BigNumber) -> (r: BigNumber)
        requires
            self.reduced(),
            rhs.reduced(),
        ensures
            r.reduced(),
            r.value() == mul_value(self.value(), rhs.value()),
    {
        let mut r = self.duplicate();
        r.mul_assign(rhs);
        r
    }
}

} // verus!
