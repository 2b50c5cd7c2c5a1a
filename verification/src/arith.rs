//! Core arithmetic: addition with carry propagation, subtraction with borrow
//! propagation, multiplication, and long division with remainder.

use crate::bigint::BigUint;
use crate::limbs::{
    lemma_nat_of_bound, lemma_nat_of_prepend_zeros, lemma_nat_of_shorter, lemma_nat_of_snoc,
    lemma_prefix_val_full, lemma_prefix_val_succ, lemma_prefix_val_zero, limb_base, nat_of,
    prefix_val,
};
use vstd::arithmetic::div_mod::{
    lemma_fundamental_div_mod, lemma_fundamental_div_mod_converse,
};
use vstd::arithmetic::power2::{lemma2_to64, lemma_pow2_adds, pow2};
use vstd::prelude::*;

verus! {

impl BigUint {
    /// The sum of two magnitudes.
    pub fn add(&self, other: &BigUint) -> (r: BigUint)
        requires
            self.wf(),
            other.wf(),
        ensures
            r.wf(),
            r.as_nat() == self.as_nat() + other.as_nat(),
    {
        let a = &self.limbs;
        let b = &other.limbs;
        let n = if a.len() >= b.len() {
            a.len()
        } else {
            b.len()
        };
        let mut out: Vec<u32> = Vec::new();
        let mut carry: u32 = 0;
        let mut i: usize = 0;
        proof {
            lemma_prefix_val_zero(a@);
            lemma_prefix_val_zero(b@);
            lemma2_to64();
        }
        while i < n
            invariant
                n >= a@.len(),
                n >= b@.len(),
                i <= n,
                carry <= 1,
                out@.len() == i,
                nat_of(out@) + (carry as nat) * pow2((32 * i) as nat) == prefix_val(a@, i as int)
                    + prefix_val(b@, i as int),
            decreases n - i,
        {
            let av: u32 = if i < a.len() {
                a[i]
            } else {
                0
            };
            let bv: u32 = if i < b.len() {
                b[i]
            } else {
                0
            };
            let sum: u64 = av as u64 + bv as u64 + carry as u64;
            let limb: u32;
            let newc: u32;
            if sum >= 0x1_0000_0000 {
                limb = (sum - 0x1_0000_0000) as u32;
                newc = 1;
            } else {
                limb = sum as u32;
                newc = 0;
            }
            proof {
                lemma2_to64();
                let p = pow2((32 * i) as nat);
                let pn = pow2((32 * (i + 1)) as nat);
                lemma_pow2_adds((32 * i) as nat, 32);
                assert(pn == p * limb_base());
                lemma_nat_of_snoc(out@, limb);
                lemma_prefix_val_succ(a@, i as int);
                lemma_prefix_val_succ(b@, i as int);
                assert((limb as nat) * p + (newc as nat) * (p * limb_base()) == (av as nat) * p + (
                bv as nat) * p + (carry as nat) * p) by (nonlinear_arith)
                    requires
                        limb as nat + limb_base() * (newc as nat) == av as nat + bv as nat
                            + carry as nat,
                ;
            }
            out.push(limb);
            carry = newc;
            i = i + 1;
        }
        proof {
            lemma_prefix_val_full(a@, i as int);
            lemma_prefix_val_full(b@, i as int);
        }
        if carry > 0 {
            proof {
                lemma_nat_of_snoc(out@, carry);
            }
            out.push(carry);
        }
        BigUint::from_limbs(out)
    }

    /// The difference of two magnitudes; defined only when no underflow occurs.
    pub fn sub(&self, other: &BigUint) -> (r: BigUint)
        requires
            self.wf(),
            other.wf(),
            other.as_nat() <= self.as_nat(),
        ensures
            r.wf(),
            r.as_nat() == self.as_nat() - other.as_nat(),
    {
        let a = &self.limbs;
        let b = &other.limbs;
        proof {
            if a@.len() < b@.len() {
                lemma_nat_of_shorter(a@, b@);
            }
            lemma_prefix_val_zero(a@);
            lemma_prefix_val_zero(b@);
            lemma2_to64();
        }
        let n = a.len();
        let mut out: Vec<u32> = Vec::new();
        let mut borrow: u32 = 0;
        let mut i: usize = 0;
        while i < n
            invariant
                n == a@.len(),
                b@.len() <= n,
                i <= n,
                borrow <= 1,
                out@.len() == i,
                nat_of(out@) + prefix_val(b@, i as int) == prefix_val(a@, i as int) + (
                borrow as nat) * pow2((32 * i) as nat),
            decreases n - i,
        {
            let av: u32 = a[i];
            let bv: u32 = if i < b.len() {
                b[i]
            } else {
                0
            };
            let limb: u32;
            let newb: u32;
            if av as u64 >= bv as u64 + borrow as u64 {
                limb = av - bv - borrow;
                newb = 0;
            } else {
                limb = ((0x1_0000_0000u64 + av as u64) - bv as u64 - borrow as u64) as u32;
                newb = 1;
            }
            proof {
                lemma2_to64();
                let p = pow2((32 * i) as nat);
                let pn = pow2((32 * (i + 1)) as nat);
                lemma_pow2_adds((32 * i) as nat, 32);
                assert(pn == p * limb_base());
                lemma_nat_of_snoc(out@, limb);
                lemma_prefix_val_succ(a@, i as int);
                lemma_prefix_val_succ(b@, i as int);
                assert((limb as nat) * p + (bv as nat) * p + (borrow as nat) * p == (av as nat) * p
                    + (newb as nat) * (p * limb_base())) by (nonlinear_arith)
                    requires
                        limb as nat + bv as nat + borrow as nat == av as nat + limb_base() * (
                        newb as nat),
                ;
            }
            out.push(limb);
            borrow = newb;
            i = i + 1;
        }
        proof {
            lemma_prefix_val_full(a@, i as int);
            lemma_prefix_val_full(b@, i as int);
            if borrow == 1 {
                lemma_nat_of_bound(out@);
                assert(false);
            }
        }
        BigUint::from_limbs(out)
    }

    /// The product of this magnitude with a single limb, plus a single-limb
    /// addend, in one carry-propagating pass.
    pub(crate) fn mul_small(&self, m: u32, addend: u32) -> (r: BigUint)
        requires
            self.wf(),
        ensures
            r.wf(),
            r.as_nat() == self.as_nat() * (m as nat) + addend as nat,
    {
        let a = &self.limbs;
        let mut out: Vec<u32> = Vec::new();
        let mut carry: u32 = addend;
        let mut i: usize = 0;
        proof {
            lemma_prefix_val_zero(a@);
            lemma2_to64();
            assert(nat_of(out@) == 0);
            assert((carry as nat) * pow2(0) == carry as nat) by (nonlinear_arith)
                requires
                    pow2(0) == 1,
            ;
            assert((m as nat) * prefix_val(a@, 0) == 0) by (nonlinear_arith)
                requires
                    prefix_val(a@, 0) == 0,
            ;
        }
        while i < a.len()
            invariant
                i <= a@.len(),
                out@.len() == i,
                nat_of(out@) + (carry as nat) * pow2((32 * i) as nat) == (m as nat) * prefix_val(
                    a@,
                    i as int,
                ) + addend as nat,
            decreases a@.len() - i,
        {
            proof {
                assert((a@[i as int] as nat) * (m as nat) + (carry as nat)
                    < 0x1_0000_0000_0000_0000) by (nonlinear_arith)
                    requires
                        a@[i as int] < 0x1_0000_0000,
                        m < 0x1_0000_0000,
                        carry < 0x1_0000_0000,
                ;
            }
            let cur: u64 = (a[i] as u64) * (m as u64) + carry as u64;
            let limb: u32 = (cur % 0x1_0000_0000) as u32;
            let newc: u32 = (cur / 0x1_0000_0000) as u32;
            proof {
                lemma2_to64();
                lemma_fundamental_div_mod(cur as int, 0x1_0000_0000);
                assert(limb as nat + limb_base() * (newc as nat) == cur as nat);
                let p = pow2((32 * i) as nat);
                lemma_pow2_adds((32 * i) as nat, 32);
                assert(pow2((32 * (i + 1)) as nat) == p * limb_base());
                lemma_nat_of_snoc(out@, limb);
                lemma_prefix_val_succ(a@, i as int);
                assert((limb as nat) * p + (newc as nat) * (p * limb_base()) + (m as nat)
                    * prefix_val(a@, i as int) == (m as nat) * (prefix_val(a@, i as int) + (
                a@[i as int] as nat) * p) + (carry as nat) * p) by (nonlinear_arith)
                    requires
                        limb as nat + limb_base() * (newc as nat) == (a@[i as int] as nat) * (
                        m as nat) + carry as nat,
                ;
            }
            out.push(limb);
            carry = newc;
            i = i + 1;
        }
        proof {
            lemma_prefix_val_full(a@, i as int);
        }
        if carry > 0 {
            proof {
                lemma_nat_of_snoc(out@, carry);
            }
            out.push(carry);
        }
        proof {
            assert(self.as_nat() * (m as nat) == (m as nat) * nat_of(a@)) by (nonlinear_arith)
                requires
                    self.as_nat() == nat_of(a@),
            ;
        }
        BigUint::from_limbs(out)
    }

    /// Shifts left by whole limbs: multiplication by a power of the limb base.
    pub(crate) fn shl_limbs(&self, z: usize) -> (r: BigUint)
        ensures
            r.wf(),
            r.as_nat() == pow2(32 * z as nat) * self.as_nat(),
    {
        let mut v: Vec<u32> = vec![0u32; z];
        v.extend_from_slice(self.limbs.as_slice());
        proof {
            assert(v@ =~= Seq::<u32>::new(z as nat, |i: int| 0u32) + self.limbs@);
            lemma_nat_of_prepend_zeros(z as nat, self.limbs@);
        }
        BigUint::from_limbs(v)
    }

    /// The product of two magnitudes, by most-significant-first
    /// multiply-and-accumulate over the right operand's limbs.
    pub fn mul(&self, other: &BigUint) -> (r: BigUint)
        requires
            self.wf(),
            other.wf(),
        ensures
            r.wf(),
            r.as_nat() == self.as_nat() * other.as_nat(),
    {
        let b = &other.limbs;
        let mut acc = BigUint::zero();
        let mut i = b.len();
        proof {
            assert(b@.skip(i as int) =~= Seq::<u32>::empty());
            assert(nat_of(b@.skip(i as int)) == 0);
            assert(self.as_nat() * 0 == 0) by (nonlinear_arith);
        }
        while i > 0
            invariant
                self.wf(),
                other.wf(),
                acc.wf(),
                i <= b@.len(),
                b == &other.limbs,
                acc.as_nat() == self.as_nat() * nat_of(b@.skip(i as int)),
            decreases i,
        {
            i = i - 1;
            let part = self.mul_small(b[i], 0);
            let shifted = acc.shl_limbs(1);
            let next = shifted.add(&part);
            proof {
                lemma2_to64();
                assert(b@.skip(i as int).drop_first() =~= b@.skip(i as int + 1));
                assert(b@.skip(i as int)[0] == b@[i as int]);
                assert(nat_of(b@.skip(i as int)) == b@[i as int] as nat + limb_base() * nat_of(
                    b@.skip(i as int + 1),
                ));
                assert(pow2(32 * 1nat) == limb_base());
                assert(limb_base() * (self.as_nat() * nat_of(b@.skip(i as int + 1))) + self.as_nat()
                    * (b@[i as int] as nat) == self.as_nat() * (b@[i as int] as nat + limb_base()
                    * nat_of(b@.skip(i as int + 1)))) by (nonlinear_arith);
            }
            acc = next;
        }
        proof {
            assert(b@.skip(0) =~= b@);
        }
        acc
    }

    /// Checked multiplication; unbounded magnitudes always have a product.
    pub fn checked_mul(&self, v: &BigUint) -> (r: Option<BigUint>)
        requires
            self.wf(),
            v.wf(),
        ensures
            r is Some,
            r->0.wf(),
            r->0.as_nat() == self.as_nat() * v.as_nat(),
    {
        Some(self.mul(v))
    }

    /// Divides by a single-limb divisor in one most-significant-first pass,
    /// returning quotient and remainder.
    pub(crate) fn divmod_small(&self, d: u32) -> (r: (BigUint, u32))
        requires
            self.wf(),
            d > 0,
        ensures
            r.0.wf(),
            (r.1 as nat) < d as nat,
            r.0.as_nat() * (d as nat) + r.1 as nat == self.as_nat(),
    {
        let a = &self.limbs;
        let mut out: Vec<u32> = Vec::new();
        let mut rem: u32 = 0;
        let mut j = a.len();
        proof {
            assert(a@.skip(j as int) =~= Seq::<u32>::empty());
            assert(nat_of(a@.skip(j as int)) == 0);
        }
        while j > 0
            invariant
                self.wf(),
                d > 0,
                j <= a@.len(),
                rem < d,
                a == &self.limbs,
                out@.len() == a@.len() - j,
                (d as nat) * nat_of(out@) + rem as nat == nat_of(a@.skip(j as int)),
            decreases j,
        {
            j = j - 1;
            let cur: u64 = (rem as u64) * 0x1_0000_0000 + a[j] as u64;
            let qd64: u64 = cur / (d as u64);
            let rd: u32 = (cur % (d as u64)) as u32;
            proof {
                lemma_fundamental_div_mod(cur as int, d as int);
                assert(cur as int == (d as int) * ((cur as int) / (d as int)) + (cur as int) % (
                d as int));
                assert(qd64 as int == (cur as int) / (d as int));
                assert(rd as int == (cur as int) % (d as int));
                assert((d as nat) * (qd64 as nat) == (qd64 as nat) * (d as nat))
                    by (nonlinear_arith);
                assert((qd64 as nat) * (d as nat) + rd as nat == cur as nat);
                assert(cur < (d as nat) * 0x1_0000_0000) by (nonlinear_arith)
                    requires
                        cur == (rem as nat) * 0x1_0000_0000 + a@[j as int] as nat,
                        rem < d,
                        a@[j as int] < 0x1_0000_0000,
                ;
                assert(qd64 < 0x1_0000_0000) by (nonlinear_arith)
                    requires
                        (qd64 as nat) * (d as nat) + rd as nat == cur as nat,
                        cur < (d as nat) * 0x1_0000_0000,
                        d > 0,
                ;
            }
            let qd = qd64 as u32;
            let ghost old_out = out@;
            let ghost old_rem = rem;
            out.insert(0, qd);
            rem = rd;
            proof {
                lemma2_to64();
                assert(out@ =~= old_out.insert(0, qd));
                assert(out@.drop_first() =~= old_out);
                assert(out@[0] == qd);
                assert(nat_of(out@) == qd as nat + limb_base() * nat_of(old_out));
                assert(a@.skip(j as int).drop_first() =~= a@.skip(j as int + 1));
                assert(a@.skip(j as int)[0] == a@[j as int]);
                assert(nat_of(a@.skip(j as int)) == a@[j as int] as nat + limb_base() * nat_of(
                    a@.skip(j as int + 1),
                ));
                assert((d as nat) * (qd as nat + limb_base() * nat_of(old_out)) + rd as nat == (
                a@[j as int] as nat) + limb_base() * ((d as nat) * nat_of(old_out)
                    + old_rem as nat)) by (nonlinear_arith)
                    requires
                        (qd as nat) * (d as nat) + rd as nat == (old_rem as nat) * limb_base() + (
                        a@[j as int] as nat),
                ;
            }
        }
        proof {
            assert(a@.skip(0) =~= a@);
            assert((d as nat) * nat_of(out@) == nat_of(out@) * (d as nat)) by (nonlinear_arith);
        }
        (BigUint::from_limbs(out), rem)
    }

    /// Half of this magnitude, rounding down.
    pub(crate) fn half(&self) -> (r: BigUint)
        requires
            self.wf(),
        ensures
            r.wf(),
            r.as_nat() == self.as_nat() / 2,
    {
        let (q, rem) = self.divmod_small(2);
        proof {
            lemma_fundamental_div_mod_converse(
                self.as_nat() as int,
                2,
                q.as_nat() as int,
                rem as int,
            );
        }
        q
    }

    /// Quotient and remainder of division, in one long-division pass.
    pub fn div_rem(&self, other: &BigUint) -> (r: (BigUint, BigUint))
        requires
            self.wf(),
            other.wf(),
            other.as_nat() > 0,
        ensures
            r.0.wf(),
            r.1.wf(),
            r.0.as_nat() == self.as_nat() / other.as_nat(),
            r.1.as_nat() == self.as_nat() % other.as_nat(),
            r.0.as_nat() * other.as_nat() + r.1.as_nat() == self.as_nat(),
            r.1.as_nat() < other.as_nat(),
    {
        proof {
            vstd::arithmetic::div_mod::lemma_fundamental_div_mod(
                self.as_nat() as int,
                other.as_nat() as int,
            );
        }
        if self.lt(other) {
            let q = BigUint::zero();
            let r = self.clone();
            proof {
                lemma_fundamental_div_mod_converse(
                    self.as_nat() as int,
                    other.as_nat() as int,
                    0,
                    self.as_nat() as int,
                );
            }
            return (q, r);
        }
        let alen = self.limbs.len();
        let blen = other.limbs.len();
        proof {
            crate::limbs::lemma_nat_of_normalized_pos(other.limbs@);
            if alen < blen {
                lemma_nat_of_shorter(self.limbs@, other.limbs@);
                assert(false);
            }
        }
        let c = alen - blen + 1;
        let mut d = other.shl_limbs(c);
        let mut q = BigUint::zero();
        let mut r = self.clone();
        proof {
            lemma_nat_of_bound(self.limbs@);
            assert(self.as_nat() < pow2(32 * alen as nat));
            crate::limbs::lemma_nat_of_normalized_pos(other.limbs@);
            assert(other.as_nat() >= pow2((32 * (blen - 1)) as nat));
            lemma_pow2_adds((32 * (blen - 1)) as nat, 32 * c as nat);
            assert(pow2(32 * alen as nat) == pow2((32 * (blen - 1)) as nat) * pow2(
                32 * c as nat,
            ));
            assert(pow2((32 * (blen - 1)) as nat) * pow2(32 * c as nat) <= other.as_nat() * pow2(
                32 * c as nat,
            )) by (nonlinear_arith)
                requires
                    pow2((32 * (blen - 1)) as nat) <= other.as_nat(),
                    pow2(32 * c as nat) >= 0,
            ;
            assert(d.as_nat() == pow2(32 * c as nat) * other.as_nat());
            assert(pow2(32 * c as nat) * other.as_nat() == other.as_nat() * pow2(32 * c as nat))
                by (nonlinear_arith);
            assert(self.as_nat() < d.as_nat());
            assert(0 * d.as_nat() == 0) by (nonlinear_arith);
        }
        let mut lc = c;
        while lc > 0
            invariant
                self.wf(),
                other.wf(),
                d.wf(),
                q.wf(),
                r.wf(),
                other.as_nat() > 0,
                d.as_nat() == pow2(32 * lc as nat) * other.as_nat(),
                q.as_nat() * d.as_nat() + r.as_nat() == self.as_nat(),
                r.as_nat() < d.as_nat(),
            decreases lc,
        {
            lc = lc - 1;
            let mut k: u32 = 0;
            while k < 32
                invariant
                    self.wf(),
                    other.wf(),
                    d.wf(),
                    q.wf(),
                    r.wf(),
                    other.as_nat() > 0,
                    k <= 32,
                    d.as_nat() == pow2((32 * lc + 32 - k) as nat) * other.as_nat(),
                    q.as_nat() * d.as_nat() + r.as_nat() == self.as_nat(),
                    r.as_nat() < d.as_nat(),
                decreases 32 - k,
            {
                let ghost old_d = d.as_nat();
                let ghost old_q = q.as_nat();
                let ghost old_r = r.as_nat();
                let ghost e = (32 * lc + 32 - k - 1) as nat;
                proof {
                    vstd::arithmetic::power2::lemma_pow2_unfold((32 * lc + 32 - k) as nat);
                    assert(old_d == 2 * (pow2(e) * other.as_nat())) by (nonlinear_arith)
                        requires
                            old_d == 2 * pow2(e) * other.as_nat(),
                    ;
                    lemma_fundamental_div_mod_converse(
                        old_d as int,
                        2,
                        (pow2(e) * other.as_nat()) as int,
                        0,
                    );
                }
                d = d.half();
                let q2 = q.add(&q);
                proof {
                    assert(old_q * old_d == (old_q + old_q) * d.as_nat()) by (nonlinear_arith)
                        requires
                            old_d == 2 * d.as_nat(),
                    ;
                }
                if d.le(&r) {
                    r = r.sub(&d);
                    q = q2.add(&BigUint::one());
                    proof {
                        assert((old_q + old_q + 1) * d.as_nat() + (old_r - d.as_nat()) == (old_q
                            + old_q) * d.as_nat() + old_r) by (nonlinear_arith);
                    }
                } else {
                    q = q2;
                }
                k = k + 1;
            }
        }
        proof {
            lemma2_to64();
            assert(d.as_nat() == pow2(0) * other.as_nat());
            assert(pow2(0) * other.as_nat() == other.as_nat()) by (nonlinear_arith)
                requires
                    pow2(0) == 1,
            ;
            lemma_fundamental_div_mod_converse(
                self.as_nat() as int,
                other.as_nat() as int,
                q.as_nat() as int,
                r.as_nat() as int,
            );
        }
        (q, r)
    }

    /// The quotient of division, rounding toward zero.
    pub fn div(&self, other: &BigUint) -> (r: BigUint)
        requires
            self.wf(),
            other.wf(),
            other.as_nat() > 0,
        ensures
            r.wf(),
            r.as_nat() == self.as_nat() / other.as_nat(),
    {
        self.div_rem(other).0
    }

    /// The remainder of division.
    pub fn rem(&self, other: &BigUint) -> (r: BigUint)
        requires
            self.wf(),
            other.wf(),
            other.as_nat() > 0,
        ensures
            r.wf(),
            r.as_nat() == self.as_nat() % other.as_nat(),
    {
        self.div_rem(other).1
    }

    /// Checked division: the quotient, or `None` exactly when the divisor is
    /// zero.
    pub fn checked_div(&self, v: &BigUint) -> (r: Option<BigUint>)
        requires
            self.wf(),
            v.wf(),
        ensures
            r is Some <==> v.as_nat() != 0,
            r is Some ==> r->0.wf() && r->0.as_nat() == self.as_nat() / v.as_nat(),
    {
        if v.is_zero() {
            None
        } else {
            Some(self.div(v))
        }
    }

    /// Checked addition; unbounded magnitudes always have a sum.
    pub fn checked_add(&self, v: &BigUint) -> (r: Option<BigUint>)
        requires
            self.wf(),
            v.wf(),
        ensures
            r is Some,
            r->0.wf(),
            r->0.as_nat() == self.as_nat() + v.as_nat(),
    {
        Some(self.add(v))
    }

    /// Checked subtraction: the difference, or `None` exactly when the
    /// subtrahend exceeds this magnitude.
    pub fn checked_sub(&self, v: &BigUint) -> (r: Option<BigUint>)
        requires
            self.wf(),
            v.wf(),
        ensures
            r is Some <==> v.as_nat() <= self.as_nat(),
            r is Some ==> r->0.wf() && r->0.as_nat() == self.as_nat() - v.as_nat(),
    {
        if self.lt(v) {
            None
        } else {
            Some(self.sub(v))
        }
    }
}

} // verus!
