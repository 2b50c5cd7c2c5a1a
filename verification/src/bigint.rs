//! The magnitude value type: normalized little-endian limb storage with
//! construction, primitive conversion, equality and ordering.

use crate::limbs::{
    lemma_nat_of_drop_last_zero, lemma_nat_of_injective, lemma_nat_of_lt_at,
    lemma_nat_of_normalized_pos, lemma_nat_of_shorter, limb_base, nat_of, normalized,
};
use vstd::arithmetic::power2::{lemma2_to64, lemma_pow2_strictly_increases, pow2};
use vstd::prelude::*;
use vstd::slice::slice_to_vec;

verus! {

/// Why a magnitude could not be read from text.
#[derive(Clone, Copy, Debug, PartialEq, Eq, Structural)]
pub enum ParseBigIntError {
    /// The input held no digit at all.
    Empty,
    /// A digit lay outside the alphabet of the requested radix.
    InvalidDigit,
    /// The requested radix is outside the supported range.
    InvalidRadix,
}

/// An unsigned integer of unbounded magnitude.
///
/// The value is stored as its base-2^32 digits, least significant first, with
/// no superfluous most-significant zero limb; zero is the empty sequence.
#[derive(Debug, Hash, Eq)]
pub struct BigUint {
    pub(crate) limbs: Vec<u32>,
}

impl BigUint {
    /// The limb sequence, least significant first.
    pub open(crate) spec fn limb_seq(&self) -> Seq<u32> {
        self.limbs@
    }

    /// The natural number this magnitude denotes.
    pub open(crate) spec fn as_nat(&self) -> nat {
        nat_of(self.limbs@)
    }

    /// Well-formed: the limb sequence is normalized.
    pub open(crate) spec fn wf(&self) -> bool {
        normalized(self.limbs@)
    }

    /// Wraps a limb vector, trimming most-significant zero limbs.
    pub(crate) fn from_limbs(limbs: Vec<u32>) -> (r: BigUint)
        ensures
            r.wf(),
            r.as_nat() == nat_of(limbs@),
    {
        let mut v = limbs;
        let ghost orig = v@;
        while v.len() > 0 && v[v.len() - 1] == 0
            invariant
                nat_of(v@) == nat_of(orig),
            decreases v.len(),
        {
            proof {
                lemma_nat_of_drop_last_zero(v@);
            }
            v.pop();
        }
        BigUint { limbs: v }
    }

    /// Creates a magnitude from its little-endian base-2^32 digits.
    pub fn new(digits: Vec<u32>) -> (r: BigUint)
        ensures
            r.wf(),
            r.as_nat() == nat_of(digits@),
    {
        BigUint::from_limbs(digits)
    }

    /// Creates a magnitude from a borrowed little-endian base-2^32 digit slice.
    pub fn from_slice(slice: &[u32]) -> (r: BigUint)
        ensures
            r.wf(),
            r.as_nat() == nat_of(slice@),
    {
        BigUint::from_limbs(slice_to_vec(slice))
    }

    /// Overwrites this magnitude with the value of a little-endian digit slice.
    pub fn assign_from_slice(&mut self, slice: &[u32])
        ensures
            final(self).wf(),
            final(self).as_nat() == nat_of(slice@),
    {
        *self = BigUint::from_slice(slice);
    }

    /// The zero magnitude.
    pub fn zero() -> (r: BigUint)
        ensures
            r.wf(),
            r.as_nat() == 0,
    {
        BigUint { limbs: Vec::new() }
    }

    /// The unit magnitude.
    pub fn one() -> (r: BigUint)
        ensures
            r.wf(),
            r.as_nat() == 1,
    {
        let v: Vec<u32> = vec![1];
        proof {
            assert(v@.drop_first() =~= Seq::<u32>::empty());
            assert(nat_of(v@.drop_first()) == 0);
            assert(nat_of(v@) == 1);
        }
        BigUint { limbs: v }
    }

    /// Whether this magnitude is zero.
    pub fn is_zero(&self) -> (r: bool)
        requires
            self.wf(),
        ensures
            r == (self.as_nat() == 0),
    {
        proof {
            if self.limbs@.len() > 0 {
                lemma_nat_of_normalized_pos(self.limbs@);
            }
        }
        self.limbs.len() == 0
    }

    /// Creates a magnitude holding a 32-bit value.
    pub fn from_u32(x: u32) -> (r: BigUint)
        ensures
            r.wf(),
            r.as_nat() == x as nat,
    {
        if x == 0 {
            BigUint::zero()
        } else {
            let v: Vec<u32> = vec![x];
            proof {
                assert(v@.drop_first() =~= Seq::<u32>::empty());
                assert(nat_of(v@.drop_first()) == 0);
                assert(nat_of(v@) == x as nat);
            }
            BigUint { limbs: v }
        }
    }

    /// Creates a magnitude holding a 64-bit value.
    pub fn from_u64(x: u64) -> (r: BigUint)
        ensures
            r.wf(),
            r.as_nat() == x as nat,
    {
        let lo = x as u32;
        let hi = (x >> 32) as u32;
        assert(x == (lo as u64) + 0x1_0000_0000u64 * (hi as u64)) by (bit_vector)
            requires
                lo == x as u32,
                hi == (x >> 32) as u32,
        ;
        if hi == 0 {
            BigUint::from_u32(lo)
        } else {
            let v: Vec<u32> = vec![lo, hi];
            proof {
                let d = v@.drop_first();
                assert(d.drop_first() =~= Seq::<u32>::empty());
                assert(nat_of(d.drop_first()) == 0);
                assert(d[0] == hi);
                assert(nat_of(d) == hi as nat);
                assert(nat_of(v@) == lo as nat + limb_base() * (hi as nat));
            }
            BigUint { limbs: v }
        }
    }

    /// Extracts the value as a 64-bit integer, when it fits.
    pub fn to_u64(&self) -> (r: Option<u64>)
        requires
            self.wf(),
        ensures
            r is Some <==> self.as_nat() < 0x1_0000_0000_0000_0000,
            r is Some ==> r->0 as nat == self.as_nat(),
    {
        proof {
            lemma2_to64();
        }
        if self.limbs.len() == 0 {
            Some(0)
        } else if self.limbs.len() == 1 {
            proof {
                let d = self.limbs@.drop_first();
                assert(d =~= Seq::<u32>::empty());
                assert(nat_of(d) == 0);
                assert(nat_of(self.limbs@) == self.limbs@[0] as nat);
            }
            Some(self.limbs[0] as u64)
        } else if self.limbs.len() == 2 {
            let lo = self.limbs[0];
            let hi = self.limbs[1];
            let r: u64 = lo as u64 | ((hi as u64) << 32);
            assert(r == (lo as u64) + 0x1_0000_0000u64 * (hi as u64)) by (bit_vector)
                requires
                    r == lo as u64 | ((hi as u64) << 32),
            ;
            proof {
                let d = self.limbs@.drop_first();
                assert(d.drop_first() =~= Seq::<u32>::empty());
                assert(nat_of(d.drop_first()) == 0);
                assert(d[0] == hi);
                assert(nat_of(d) == hi as nat);
                assert(nat_of(self.limbs@) == lo as nat + limb_base() * (hi as nat));
            }
            Some(r)
        } else {
            proof {
                lemma_nat_of_normalized_pos(self.limbs@);
                if 64 < 32 * (self.limbs@.len() - 1) {
                    lemma_pow2_strictly_increases(64, (32 * (self.limbs@.len() - 1)) as nat);
                }
            }
            None
        }
    }

    /// Whether this magnitude denotes a smaller value than `other`.
    pub fn lt(&self, other: &BigUint) -> (r: bool)
        requires
            self.wf(),
            other.wf(),
        ensures
            r == (self.as_nat() < other.as_nat()),
    {
        if self.limbs.len() < other.limbs.len() {
            proof {
                lemma_nat_of_shorter(self.limbs@, other.limbs@);
            }
            return true;
        }
        if other.limbs.len() < self.limbs.len() {
            proof {
                lemma_nat_of_shorter(other.limbs@, self.limbs@);
            }
            return false;
        }
        let mut i = self.limbs.len();
        while i > 0
            invariant
                self.wf(),
                other.wf(),
                self.limbs@.len() == other.limbs@.len(),
                i <= self.limbs@.len(),
                forall|k: int| i <= k < self.limbs@.len() ==> self.limbs@[k] == other.limbs@[k],
            decreases i,
        {
            i = i - 1;
            let a = self.limbs[i];
            let b = other.limbs[i];
            if a < b {
                proof {
                    lemma_nat_of_lt_at(self.limbs@, other.limbs@, i as int);
                }
                return true;
            }
            if b < a {
                proof {
                    lemma_nat_of_lt_at(other.limbs@, self.limbs@, i as int);
                }
                return false;
            }
        }
        proof {
            assert(self.limbs@ =~= other.limbs@);
        }
        false
    }

    /// Whether this magnitude denotes at most the value of `other`.
    pub fn le(&self, other: &BigUint) -> (r: bool)
        requires
            self.wf(),
            other.wf(),
        ensures
            r == (self.as_nat() <= other.as_nat()),
    {
        !other.lt(self)
    }
}

impl Clone for BigUint {
    /// An independent copy with the same limbs.
    fn clone(&self) -> (r: Self)
        ensures
            r.limb_seq() == self.limb_seq(),
            r.as_nat() == self.as_nat(),
            r.wf() == self.wf(),
    {
        let v = self.limbs.clone();
        proof {
            assert(v@ =~= self.limbs@);
        }
        BigUint { limbs: v }
    }
}

impl PartialEq for BigUint {
    /// Equal exactly when the normalized limb sequences are equal.
    fn eq(&self, other: &Self) -> (r: bool) {
        if self.limbs.len() != other.limbs.len() {
            return false;
        }
        let mut i: usize = 0;
        while i < self.limbs.len()
            invariant
                self.limbs@.len() == other.limbs@.len(),
                i <= self.limbs@.len(),
                forall|k: int| 0 <= k < i ==> self.limbs@[k] == other.limbs@[k],
            decreases self.limbs@.len() - i,
        {
            if self.limbs[i] != other.limbs[i] {
                return false;
            }
            i = i + 1;
        }
        proof {
            assert(self.limbs@ =~= other.limbs@);
        }
        true
    }
}

impl vstd::std_specs::cmp::PartialEqSpecImpl for BigUint {
    open spec fn obeys_eq_spec() -> bool {
        true
    }

    open spec fn eq_spec(&self, other: &Self) -> bool {
        self.limb_seq() == other.limb_seq()
    }
}

impl Default for BigUint {
    /// The default magnitude is zero.
    fn default() -> (r: Self)
        ensures
            r.wf(),
            r.as_nat() == 0,
    {
        BigUint::zero()
    }
}

/// Conversion into a magnitude, for callers' own numeric types.
pub trait ToBigUint {
    /// The magnitude this value denotes, when it has one.
    fn to_biguint(&self) -> Option<BigUint>;
}

/// Well-formed magnitudes with the same value have the same limbs: the
/// normalized representation is unique.
pub proof fn lemma_value_determines_limbs(a: &BigUint, b: &BigUint)
    requires
        a.wf(),
        b.wf(),
        a.as_nat() == b.as_nat(),
    ensures
        a.limb_seq() == b.limb_seq(),
{
    lemma_nat_of_injective(a.limbs@, b.limbs@);
}

} // verus!
