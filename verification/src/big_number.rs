//! The `BigNumber` type: fixed-length limb storage, constructors and queries.

use vstd::prelude::*;
use vstd::arithmetic::div_mod::*;
use vstd::arithmetic::power::*;
use vstd::arithmetic::power2::*;

use crate::value::{
    all_below_base, all_zero, bit_len, lemma_bit_len_unique, lemma_value_order,
    lemma_value_update, lemma_value_zero_iff, limbs_value,
};
use crate::BASE;
use crate::NUMBER_SIZE;

verus! {

/// Why a `BigNumber` operation refused its input.
#[derive(Clone, Copy, Debug, PartialEq, Eq, Structural)]
pub enum BigNumberError {
    /// A constructor argument cannot be represented as asked.
    InvalidInput,
    /// The divisor represents zero.
    DivisionByZero,
}

/// A fixed-capacity unsigned integer: `NUMBER_SIZE` limbs, limb 0 least
/// significant, each reduced limb in `[0, BASE)`.  The represented value is
/// the base-`BASE` sum of the limbs.
pub struct BigNumber {
    /// The limbs, least significant first.  Always `NUMBER_SIZE` long.
    pub prec: Vec<u32>,
}

impl View for BigNumber {
    type V = Seq<u32>;

    open spec fn view(&self) -> Seq<u32> {
        self.prec@
    }
}

/// The leading-zero count the `leading_zeros` query returns: the number of
/// zero bits above the topmost set bit of the most significant nonzero limb,
/// within that limb's full 32-bit slot; the whole bit width if no limb is set.
pub open spec fn lz_spec(s: Seq<u32>) -> int
    decreases s.len(),
{
    if all_zero(s) {
        32 * s.len() as int
    } else if s.last() == 0 {
        lz_spec(s.drop_last())
    } else {
        32 - bit_len(s.last() as nat)
    }
}

/// Bit length of one limb: the `t` with `2^(t-1) <= x < 2^t`, or zero.
fn u32_bit_length(x: u32) -> (r: usize)
    ensures
        r == bit_len(x as nat),
        r <= 32,
{
    let mut t: usize = 0;
    let mut p: u64 = 1;
    proof {
        lemma_pow0(2);
    }
    while p <= x as u64
        invariant
            t <= 32,
            p == pow(2, t as nat),
            t == 0 || pow(2, (t - 1) as nat) <= x as nat,
        decreases 32 - t,
    {
        proof {
            if t == 32 {
                lemma_pow2(32);
                lemma2_to64();
                assert(false);
            }
            lemma_pow1(2);
            lemma_pow_adds(2, 1, t as nat);
        }
        p = p * 2;
        t = t + 1;
    }
    proof {
        lemma_bit_len_unique(x as nat, t as nat);
    }
    t
}

/// A fresh vector holding the same limbs.
pub(crate) fn clone_limbs(v: &Vec<u32>) -> (r: Vec<u32>)
    ensures
        r@ == v@,
{
    let mut r: Vec<u32> = Vec::new();
    let mut i: usize = 0;
    while i < v.len()
        invariant
            i <= v.len(),
            r@ =~= v@.take(i as int),
        decreases v.len() - i,
    {
        r.push(v[i]);
        i += 1;
    }
    proof {
        assert(r@ =~= v@);
    }
    r
}

impl BigNumber {
    /// Structural well-formedness: the limb count is fixed.
    pub open spec fn wf(&self) -> bool {
        self@.len() == NUMBER_SIZE
    }

    /// The representation invariant: well-formed with every limb reduced.
    pub open spec fn reduced(&self) -> bool {
        self.wf() && all_below_base(self@)
    }

    /// The integer this number represents.
    pub open spec fn value(&self) -> int {
        limbs_value(self@)
    }

    /// The zero value: every limb zero.
    pub fn empty() -> (r: BigNumber)
        ensures
            r.reduced(),
            r.value() == 0,
            forall|i: int| 0 <= i < NUMBER_SIZE ==> r@[i] == 0,
    {
        let mut prec: Vec<u32> = Vec::new();
        let mut i: usize = 0;
        while i < NUMBER_SIZE
            invariant
                i <= NUMBER_SIZE,
                prec@.len() == i,
                forall|j: int| 0 <= j < i ==> prec@[j] == 0,
            decreases NUMBER_SIZE - i,
        {
            prec.push(0);
            i += 1;
        }
        let r = BigNumber { prec };
        proof {
            lemma_value_zero_iff(r@);
        }
        r
    }

    /// The zero value, under the conventional constructor name.
    pub fn new() -> (r: BigNumber)
        ensures
            r.reduced(),
            r.value() == 0,
            forall|i: int| 0 <= i < NUMBER_SIZE ==> r@[i] == 0,
    {
        BigNumber::empty()
    }

    /// A fresh number with the same limbs.
    pub fn duplicate(&self) -> (r: BigNumber)
        ensures
            r@ == self@,
    {
        BigNumber { prec: clone_limbs(&self.prec) }
    }

    /// Builds the number representing a single reduced limb.  A value at or
    /// above `BASE` cannot stand in one limb and is refused as invalid input.
    pub fn from(num: u32) -> (r: Result<BigNumber, BigNumberError>)
        ensures
            num < BASE <==> r is Ok,
            r matches Err(e) ==> e == BigNumberError::InvalidInput,
            r matches Ok(b) ==> b.reduced() && b.value() == num && b@[0] == num && (forall|i: int|
                1 <= i < NUMBER_SIZE ==> b@[i] == 0),
    {
        if num >= BASE {
            return Err(BigNumberError::InvalidInput);
        }
        let mut b = BigNumber::empty();
        let ghost z = b@;
        b.prec.set(0, num);
        proof {
            lemma_value_update(z, 0, num);
            lemma_pow0(BASE as int);
        }
        Ok(b)
    }

    /// Builds the number representing a wide scalar spanning two limbs:
    /// limb 0 gets `num % BASE`, limb 1 gets `num / BASE`.
    pub fn from_upper(num: u32) -> (r: BigNumber)
        ensures
            r.reduced(),
            r.value() == num,
            r@[0] == num % BASE,
            r@[1] == num / BASE,
            forall|i: int| 2 <= i < NUMBER_SIZE ==> r@[i] == 0,
    {
        let lo = num % BASE;
        let hi = num / BASE;
        let mut b = BigNumber::empty();
        let ghost z = b@;
        b.prec.set(0, lo);
        let ghost z1 = b@;
        b.prec.set(1, hi);
        proof {
            lemma_value_update(z, 0, lo);
            lemma_value_update(z1, 1, hi);
            lemma_pow0(BASE as int);
            lemma_pow1(BASE as int);
            lemma_fundamental_div_mod(num as int, BASE as int);
        }
        b
    }

    /// True exactly when the represented value is zero.
    pub fn is_zero(&self) -> (r: bool)
        requires
            self.wf(),
        ensures
            r == (self.value() == 0),
    {
        let mut i: usize = 0;
        while i < NUMBER_SIZE
            invariant
                i <= NUMBER_SIZE,
                self.wf(),
                forall|j: int| 0 <= j < i ==> self@[j] == 0,
            decreases NUMBER_SIZE - i,
        {
            if self.prec[i] != 0 {
                proof {
                    lemma_value_zero_iff(self@);
                }
                return false;
            }
            i += 1;
        }
        proof {
            lemma_value_zero_iff(self@);
        }
        true
    }

    /// Structural equality: the limb sequences agree position by position.
    pub fn equals(&self, other: &BigNumber) -> (r: bool)
        requires
            self.wf(),
            other.wf(),
        ensures
            r <==> self@ =~= other@,
    {
        let mut i: usize = 0;
        while i < NUMBER_SIZE
            invariant
                i <= NUMBER_SIZE,
                self.wf(),
                other.wf(),
                forall|j: int| 0 <= j < i ==> self@[j] == other@[j],
            decreases NUMBER_SIZE - i,
        {
            if self.prec[i] != other.prec[i] {
                return false;
            }
            i += 1;
        }
        true
    }

    /// Magnitude comparison, deciding at the most significant differing limb.
    pub fn lt(&self, other: &BigNumber) -> (r: bool)
        requires
            self.reduced(),
            other.reduced(),
        ensures
            r == (self.value() < other.value()),
    {
        let mut i: usize = NUMBER_SIZE;
        while i > 0
            invariant
                i <= NUMBER_SIZE,
                self.reduced(),
                other.reduced(),
                forall|j: int| i <= j < NUMBER_SIZE ==> self@[j] == other@[j],
            decreases i,
        {
            i -= 1;
            if self.prec[i] < other.prec[i] {
                proof {
                    lemma_value_order(self@, other@, i as int);
                }
                return true;
            }
            if self.prec[i] > other.prec[i] {
                proof {
                    lemma_value_order(other@, self@, i as int);
                }
                return false;
            }
        }
        proof {
            assert(self@ =~= other@);
        }
        false
    }

    /// Magnitude comparison the other way round.
    pub fn gt(&self, other: &BigNumber) -> (r: bool)
        requires
            self.reduced(),
            other.reduced(),
        ensures
            r == (self.value() > other.value()),
    {
        other.lt(self)
    }

    /// Decodes a raw byte buffer of exactly `NUMBER_SIZE * 4` bytes into
    /// limbs, four bytes each in a fixed little-endian convention (the native
    /// order on little-endian hosts), with no further validation: a four-byte
    /// group at or above `BASE` yields an unreduced limb.  Any other buffer
    /// length is refused as invalid input.
    pub fn from_ne_bytes(bytes: &[u8]) -> (r: Result<BigNumber, BigNumberError>)
        ensures
            bytes@.len() == NUMBER_SIZE * 4 <==> r is Ok,
            r matches Err(e) ==> e == BigNumberError::InvalidInput,
            r matches Ok(b) ==> b.wf() && (forall|i: int|
                0 <= i < NUMBER_SIZE ==> b@[i] == bytes@[4 * i] + 0x100 * bytes@[4 * i + 1]
                    + 0x10000 * bytes@[4 * i + 2] + 0x1000000 * bytes@[4 * i + 3]),
    {
        if bytes.len() != NUMBER_SIZE * 4 {
            return Err(BigNumberError::InvalidInput);
        }
        let mut prec: Vec<u32> = Vec::new();
        let mut i: usize = 0;
        while i < NUMBER_SIZE
            invariant
                i <= NUMBER_SIZE,
                bytes@.len() == NUMBER_SIZE * 4,
                prec@.len() == i,
                forall|j: int|
                    0 <= j < i ==> prec@[j] == bytes@[4 * j] + 0x100 * bytes@[4 * j + 1] + 0x10000
                        * bytes@[4 * j + 2] + 0x1000000 * bytes@[4 * j + 3],
            decreases NUMBER_SIZE - i,
        {
            let limb: u32 = bytes[4 * i] as u32 + 0x100 * bytes[4 * i + 1] as u32 + 0x10000
                * bytes[4 * i + 2] as u32 + 0x1000000 * bytes[4 * i + 3] as u32;
            prec.push(limb);
            i += 1;
        }
        Ok(BigNumber { prec })
    }

    /// The leading-zero bit count of the most significant nonzero limb, over
    /// the limb's full 32-bit storage slot and regardless of the limb's
    /// position; the total bit width if the number is zero.
    pub fn leading_zeros(&self) -> (r: usize)
        requires
            self.wf(),
        ensures
            r == lz_spec(self@),
    {
        let mut i: usize = NUMBER_SIZE;
        proof {
            assert(self@.take(NUMBER_SIZE as int) =~= self@);
        }
        while i > 0
            invariant
                i <= NUMBER_SIZE,
                self.wf(),
                forall|j: int| i <= j < NUMBER_SIZE ==> self@[j] == 0,
                all_zero(self@) <==> all_zero(self@.take(i as int)),
                !all_zero(self@.take(i as int)) ==> lz_spec(self@) == lz_spec(
                    self@.take(i as int),
                ),
            decreases i,
        {
            let chunk = self.prec[i - 1];
            proof {
                let t = self@.take(i as int);
                assert(t.last() == self@[i - 1]);
                assert(t.drop_last() =~= self@.take(i - 1));
            }
            if chunk != 0 {
                let bl = u32_bit_length(chunk);
                return 32 - bl;
            }
            i -= 1;
        }
        proof {
            assert(self@.take(0) =~= Seq::<u32>::empty());
            assert(all_zero(self@));
        }
        NUMBER_SIZE * 32
    }

    /// Cyclically rotates the limb array right by `shift` positions (taken
    /// modulo the limb count): the limb at index `(i + shift) % NUMBER_SIZE`
    /// moves to index `i`, so low limbs wrap around to the top.
    pub fn rotated_right(&mut self, shift: usize)
        requires
            old(self).wf(),
        ensures
            final(self).wf(),
            forall|i: int|
                0 <= i < NUMBER_SIZE ==> final(self)@[i] == old(self)@[(i + shift as int % (
                NUMBER_SIZE as int)) % (NUMBER_SIZE as int)],
    {
        let sh = shift % NUMBER_SIZE;
        if sh == 0 {
            proof {
                assert forall|i: int| 0 <= i < NUMBER_SIZE implies #[trigger] self@[i] == self@[(i
                    + shift as int % (NUMBER_SIZE as int)) % (NUMBER_SIZE as int)] by {
                    lemma_small_mod(i as nat, NUMBER_SIZE as nat);
                }
            }
            return;
        }
        let temp = clone_limbs(&self.prec);
        let mut i: usize = 0;
        while i < NUMBER_SIZE
            invariant
                i <= NUMBER_SIZE,
                0 < sh < NUMBER_SIZE,
                sh == shift as int % (NUMBER_SIZE as int),
                temp@ == old(self)@,
                temp@.len() == NUMBER_SIZE,
                self@.len() == NUMBER_SIZE,
                forall|j: int|
                    0 <= j < i ==> self@[j] == temp@[(j + sh as int) % (NUMBER_SIZE as int)],
            decreases NUMBER_SIZE - i,
        {
            self.prec.set(i, temp[(i + sh) % NUMBER_SIZE]);
            i += 1;
        }
    }
}

impl Default for BigNumber {
    /// The zero value.
    fn default() -> (r: BigNumber)
        ensures
            r.reduced(),
            r.value() == 0,
    {
        BigNumber::new()
    }
}

} // verus!
