//! Number-theoretic operations: exponentiation, modular exponentiation,
//! greatest common divisor, least common multiple, integer roots, and the
//! standard integer relations.

use crate::bigint::BigUint;
use crate::limbs::{lemma_nat_of_normalized_pos, lemma_prefix_val_full, lemma_prefix_val_succ,
    lemma_prefix_val_zero, prefix_val};
use vstd::arithmetic::div_mod::{
    lemma_fundamental_div_mod, lemma_fundamental_div_mod_converse, lemma_mod_bound,
    lemma_mod_multiples_basic, lemma_mod_multiples_vanish, lemma_mod_self_0, lemma_mul_mod_noop,
    lemma_small_mod,
};
use vstd::arithmetic::power::{
    lemma_pow0, lemma_pow1, lemma_pow_adds, lemma_pow_increases, lemma_pow_multiplies,
    lemma_pow_positive, pow,
};
use vstd::arithmetic::power2::{lemma2_to64, lemma_pow2_adds, lemma_pow2_pos, lemma_pow2_unfold,
    pow2};
use vstd::bits::{lemma_low_bits_mask_values, lemma_u32_low_bits_mask_is_mod, lemma_u32_shr_is_div};
use vstd::prelude::*;

verus! {

/// The greatest common divisor, by Euclid's recursion; zero for two zeros.
pub open spec fn gcd_nat(a: nat, b: nat) -> nat
    decreases b,
{
    if b == 0 {
        a
    } else {
        gcd_nat(b, a % b)
    }
}

/// The least common multiple; zero when either argument is zero.
pub open spec fn lcm_nat(a: nat, b: nat) -> nat {
    if a == 0 || b == 0 {
        0
    } else {
        a * b / gcd_nat(a, b)
    }
}

/// The greatest common divisor divides both arguments, and is zero exactly
/// for two zero arguments.
pub proof fn lemma_gcd_divides(a: nat, b: nat)
    ensures
        gcd_nat(a, b) == 0 <==> (a == 0 && b == 0),
        gcd_nat(a, b) != 0 ==> a % gcd_nat(a, b) == 0 && b % gcd_nat(a, b) == 0,
    decreases b,
{
    let g = gcd_nat(a, b);
    if b == 0 {
        if a != 0 {
            lemma_mod_self_0(a as int);
            lemma_small_mod(0, a);
        }
    } else {
        lemma_mod_bound(a as int, b as int);
        lemma_gcd_divides(b, a % b);
        assert(g == gcd_nat(b, a % b));
        assert(g != 0);
        let k = b / g;
        let m = (a % b) / g;
        lemma_fundamental_div_mod(b as int, g as int);
        lemma_fundamental_div_mod((a % b) as int, g as int);
        assert(b == g * k);
        assert(a % b == g * m);
        lemma_fundamental_div_mod(a as int, b as int);
        let q = a as int / b as int;
        assert(a == b * q + a % b);
        assert(a == g * (k * q + m)) by (nonlinear_arith)
            requires
                a == b * q + a % b,
                b == g * k,
                a % b == g * m,
        ;
        assert((k * q + m) >= 0) by (nonlinear_arith)
            requires
                g * (k * q + m) == a,
                a >= 0,
                g > 0,
        ;
        lemma_mod_multiples_basic(k * q + m, g as int);
        assert(((k * q + m) * (g as int)) == a) by (nonlinear_arith)
            requires
                a == g * (k * q + m),
        ;
    }
}

impl BigUint {
    /// The greatest common divisor, by Euclid's algorithm.
    pub fn gcd(&self, other: &BigUint) -> (r: BigUint)
        requires
            self.wf(),
            other.wf(),
        ensures
            r.wf(),
            r.as_nat() == gcd_nat(self.as_nat(), other.as_nat()),
    {
        let mut a = self.clone();
        let mut b = other.clone();
        while b.limbs.len() > 0
            invariant
                a.wf(),
                b.wf(),
                gcd_nat(a.as_nat(), b.as_nat()) == gcd_nat(self.as_nat(), other.as_nat()),
            decreases b.as_nat(),
        {
            proof {
                lemma_nat_of_normalized_pos(b.limbs@);
            }
            let t = a.rem(&b);
            proof {
                lemma_mod_bound(a.as_nat() as int, b.as_nat() as int);
            }
            a = b;
            b = t;
        }
        a
    }

    /// The least common multiple; zero when either operand is zero.
    pub fn lcm(&self, other: &BigUint) -> (r: BigUint)
        requires
            self.wf(),
            other.wf(),
        ensures
            r.wf(),
            r.as_nat() == lcm_nat(self.as_nat(), other.as_nat()),
    {
        let g = self.gcd(other);
        if g.is_zero() {
            proof {
                lemma_gcd_divides(self.as_nat(), other.as_nat());
            }
            return BigUint::zero();
        }
        proof {
            lemma_gcd_divides(self.as_nat(), other.as_nat());
        }
        let q = self.div(&g);
        let r = q.mul(other);
        proof {
            let a = self.as_nat();
            let b = other.as_nat();
            let gv = g.as_nat();
            lemma_fundamental_div_mod(a as int, gv as int);
            let k = a / gv;
            assert(a == gv * k);
            if a == 0 {
                assert(k == 0) by (nonlinear_arith)
                    requires
                        a == gv * k,
                        a == 0,
                        gv > 0,
                        k >= 0,
                ;
                assert(k * b == 0) by (nonlinear_arith)
                    requires
                        k == 0,
                ;
            } else {
                assert(a * b == (k * b) * gv) by (nonlinear_arith)
                    requires
                        a == gv * k,
                ;
                vstd::arithmetic::div_mod::lemma_div_by_multiple((k * b) as int, gv as int);
                assert(a * b / gv == k * b);
            }
        }
        r
    }

    /// Whether `other` divides this magnitude evenly; a zero divisor
    /// divides only zero.
    pub fn is_multiple_of(&self, other: &BigUint) -> (r: bool)
        requires
            self.wf(),
            other.wf(),
        ensures
            r == if other.as_nat() == 0 {
                self.as_nat() == 0
            } else {
                self.as_nat() % other.as_nat() == 0
            },
    {
        if other.is_zero() {
            self.is_zero()
        } else {
            let rem = self.rem(other);
            rem.is_zero()
        }
    }

    /// Whether `other` divides this magnitude evenly.
    pub fn divides(&self, other: &BigUint) -> (r: bool)
        requires
            self.wf(),
            other.wf(),
        ensures
            r == if other.as_nat() == 0 {
                self.as_nat() == 0
            } else {
                self.as_nat() % other.as_nat() == 0
            },
    {
        self.is_multiple_of(other)
    }

    /// Whether this magnitude is even.
    pub fn is_even(&self) -> (r: bool)
        requires
            self.wf(),
        ensures
            r == (self.as_nat() % 2 == 0),
    {
        proof {
            lemma2_to64();
            if self.limbs@.len() > 0 {
                let s = self.limbs@;
                let rest = crate::limbs::nat_of(s.drop_first());
                assert(self.as_nat() == s[0] as nat + 0x1_0000_0000 * rest);
                assert(0x1_0000_0000 * rest == 2 * (0x8000_0000 * rest)) by (nonlinear_arith);
                lemma_mod_multiples_vanish((0x8000_0000 * rest) as int, s[0] as int, 2);
                let l = s[0];
                lemma_low_bits_mask_values();
                lemma_u32_low_bits_mask_is_mod(l, 1);
                vstd::arithmetic::power2::lemma_pow2_unfold(1);
            }
        }
        if self.limbs.len() == 0 {
            true
        } else {
            self.limbs[0] & 1 == 0
        }
    }

    /// Whether this magnitude is odd.
    pub fn is_odd(&self) -> (r: bool)
        requires
            self.wf(),
        ensures
            r == (self.as_nat() % 2 == 1),
    {
        proof {
            lemma_mod_bound(self.as_nat() as int, 2);
        }
        !self.is_even()
    }

    /// Floor division; for unsigned values the ordinary quotient.
    pub fn div_floor(&self, other: &BigUint) -> (r: BigUint)
        requires
            self.wf(),
            other.wf(),
            other.as_nat() > 0,
        ensures
            r.wf(),
            r.as_nat() == self.as_nat() / other.as_nat(),
    {
        self.div(other)
    }

    /// Floor modulus; for unsigned values the ordinary remainder.
    pub fn mod_floor(&self, other: &BigUint) -> (r: BigUint)
        requires
            self.wf(),
            other.wf(),
            other.as_nat() > 0,
        ensures
            r.wf(),
            r.as_nat() == self.as_nat() % other.as_nat(),
    {
        self.rem(other)
    }

    /// Raises this magnitude to a machine-word power, by repeated squaring.
    pub fn pow(&self, exponent: u32) -> (r: BigUint)
        requires
            self.wf(),
        ensures
            r.wf(),
            r.as_nat() == pow(self.as_nat() as int, exponent as nat),
    {
        let mut result = BigUint::one();
        let mut base = self.clone();
        let mut e = exponent;
        proof {
            lemma_pow0(self.as_nat() as int);
            if self.as_nat() == 0 {
                if exponent != 0 {
                    vstd::arithmetic::power::lemma0_pow(exponent as nat);
                }
            } else {
                lemma_pow_positive(self.as_nat() as int, exponent as nat);
            }
            assert(1 * pow(self.as_nat() as int, exponent as nat) == pow(
                self.as_nat() as int,
                exponent as nat,
            )) by (nonlinear_arith);
        }
        while e > 0
            invariant
                result.wf(),
                base.wf(),
                pow(base.as_nat() as int, e as nat) >= 0,
                result.as_nat() * pow(base.as_nat() as int, e as nat) == pow(
                    self.as_nat() as int,
                    exponent as nat,
                ),
            decreases e,
        {
            let ghost r0 = result.as_nat();
            let ghost b0 = base.as_nat();
            let ghost e0 = e as nat;
            proof {
                assert(e == 2 * (e >> 1u32) + (e & 1)) by (bit_vector);
                assert((e & 1) == 0 || (e & 1) == 1) by (bit_vector);
                assert((e >> 1u32) < e) by (bit_vector)
                    requires
                        e > 0,
                ;
                let f = (e >> 1u32) as nat;
                lemma_pow_adds(b0 as int, f, f);
                lemma_pow_adds(b0 as int, 2 * f, (e & 1) as nat);
                lemma_pow1(b0 as int);
                lemma_pow0(b0 as int);
                assert(pow(b0 as int, 2 * f) == pow((b0 * b0) as int, f)) by {
                    lemma_pow_multiplies(b0 as int, 2, f);
                    lemma_pow_adds(b0 as int, 1, 1);
                    lemma_pow1(b0 as int);
                    assert(2 * f == f * 2) by (nonlinear_arith);
                }
                if b0 > 0 {
                    assert(b0 * b0 > 0) by (nonlinear_arith)
                        requires
                            b0 > 0,
                    ;
                    lemma_pow_positive((b0 * b0) as int, f);
                } else {
                    assert(b0 * b0 == 0) by (nonlinear_arith)
                        requires
                            b0 == 0,
                    ;
                    if f == 0 {
                        lemma_pow0((b0 * b0) as int);
                    } else {
                        vstd::arithmetic::power::lemma0_pow(f);
                    }
                }
                if b0 == 0 {
                    assert(pow(0int, f) >= 0) by {
                        if f == 0 {
                            lemma_pow0(0int);
                        } else {
                            vstd::arithmetic::power::lemma0_pow(f);
                        }
                    }
                } else {
                    lemma_pow_positive(b0 as int, f);
                }
            }
            if e & 1 == 1 {
                result = result.mul(&base);
                proof {
                    let f = (e >> 1u32) as nat;
                    assert((r0 * b0) * (pow(b0 as int, f) * pow(b0 as int, f)) == r0 * (b0 * (pow(
                        b0 as int,
                        f,
                    ) * pow(b0 as int, f)))) by (nonlinear_arith);
                }
            }
            base = base.mul(&base);
            proof {
                let f = (e >> 1u32) as nat;
                if e & 1 == 1 {
                    assert(result.as_nat() * pow(base.as_nat() as int, f) == r0 * (pow(
                        b0 as int,
                        (2 * f + 1) as nat,
                    ))) by (nonlinear_arith)
                        requires
                            result.as_nat() == r0 * b0,
                            base.as_nat() == b0 * b0,
                            pow(base.as_nat() as int, f) == pow(b0 as int, 2 * f),
                            pow(b0 as int, (2 * f + 1) as nat) == pow(b0 as int, 2 * f) * b0,
                    ;
                } else {
                    assert(result.as_nat() * pow(base.as_nat() as int, f) == r0 * pow(
                        b0 as int,
                        2 * f,
                    )) by (nonlinear_arith)
                        requires
                            result.as_nat() == r0,
                            base.as_nat() == b0 * b0,
                            pow(base.as_nat() as int, f) == pow(b0 as int, 2 * f),
                    ;
                    assert(pow(b0 as int, e0) == pow(b0 as int, 2 * f) * pow(b0 as int, 0));
                    lemma_pow0(b0 as int);
                }
            }
            e = e >> 1;
        }
        proof {
            lemma_pow0(base.as_nat() as int);
            assert(result.as_nat() * 1 == result.as_nat()) by (nonlinear_arith);
        }
        result
    }
    /// Modular exponentiation by repeated squaring, reducing after every
    /// multiplication; the result is `0` when the modulus is `1`.
    pub fn modpow(&self, exponent: &BigUint, modulus: &BigUint) -> (r: BigUint)
        requires
            self.wf(),
            exponent.wf(),
            modulus.wf(),
            modulus.as_nat() > 0,
        ensures
            r.wf(),
            r.as_nat() == pow(self.as_nat() as int, exponent.as_nat()) % (modulus.as_nat() as int),
    {
        let ghost sv = self.as_nat() as int;
        let ghost m = modulus.as_nat() as int;
        let one_b = BigUint::one();
        let mut result = one_b.rem(modulus);
        let mut base = self.rem(modulus);
        proof {
            lemma_pow0(sv);
            lemma_pow1(sv);
            lemma_prefix_val_zero(exponent.limb_seq());
            lemma2_to64();
        }
        let elen = exponent.limbs.len();
        let mut li: usize = 0;
        while li < elen
            invariant
                result.wf(),
                base.wf(),
                modulus.wf(),
                exponent.wf(),
                self.wf(),
                modulus.as_nat() > 0,
                li <= elen,
                elen == exponent.limb_seq().len(),
                m == modulus.as_nat() as int,
                sv == self.as_nat() as int,
                result.as_nat() == pow(sv, prefix_val(exponent.limb_seq(), li as int)) % m,
                base.as_nat() == pow(sv, pow2(32 * (li as nat))) % m,
            decreases elen - li,
        {
            let l = exponent.limbs[li];
            let mut k: u32 = 0;
            proof {
                lemma2_to64();
                lemma_small_mod(0, pow2(0));
                assert((l as nat) % pow2(0) == 0) by {
                    assert(pow2(0) == 1);
                    lemma_mod_bound(l as int, 1);
                }
                assert(pow2(32 * (li as nat)) * ((l as nat) % pow2(0)) == 0) by (nonlinear_arith)
                    requires
                        (l as nat) % pow2(0) == 0,
                ;
            }
            while k < 32
                invariant
                    result.wf(),
                    base.wf(),
                    modulus.wf(),
                    exponent.wf(),
                    self.wf(),
                    modulus.as_nat() > 0,
                    li < elen,
                    elen == exponent.limb_seq().len(),
                    l == exponent.limb_seq()[li as int],
                    m == modulus.as_nat() as int,
                    sv == self.as_nat() as int,
                    k <= 32,
                    result.as_nat() == pow(
                        sv,
                        prefix_val(exponent.limb_seq(), li as int) + pow2(32 * (li as nat)) * ((
                        l as nat) % pow2(k as nat)),
                    ) % m,
                    base.as_nat() == pow(sv, pow2(32 * (li as nat) + k as nat)) % m,
                decreases 32 - k,
            {
                let ghost p_lo = prefix_val(exponent.limb_seq(), li as int);
                let ghost pos = 32 * (li as nat) + k as nat;
                let ghost expo = p_lo + pow2(32 * (li as nat)) * ((l as nat) % pow2(k as nat));
                let ghost r0 = result.as_nat();
                let ghost b0 = base.as_nat();
                let b = (l >> k) & 1;
                proof {
                    lemma_u32_shr_is_div(l, k);
                    lemma_low_bits_mask_values();
                    lemma_u32_low_bits_mask_is_mod(l >> k, 1);
                    lemma2_to64();
                    assert(b as nat == ((l as nat) / pow2(k as nat)) % 2);
                    assert((l >> k) & 1 == 0 || (l >> k) & 1 == 1) by (bit_vector);
                    lemma_mod_pow2_succ(l as nat, k as nat);
                    lemma_pow2_adds(32 * (li as nat), k as nat);
                    let aa = pow2(32 * (li as nat));
                    let m0 = (l as nat) % pow2(k as nat);
                    let m1 = (l as nat) % pow2((k + 1) as nat);
                    assert(m1 == m0 + pow2(k as nat) * (b as nat));
                    assert(aa * m1 == aa * m0 + (b as nat) * (aa * pow2(k as nat)))
                        by (nonlinear_arith)
                        requires
                            m1 == m0 + pow2(k as nat) * (b as nat),
                    ;
                    assert(aa * pow2(k as nat) == pow2(pos));
                    assert(aa * m1 == aa * m0 + (b as nat) * pow2(pos));
                    lemma_pow_nonneg(sv, expo);
                    lemma_pow_nonneg(sv, pow2(pos));
                }
                if b == 1 {
                    let t = result.mul(&base);
                    result = t.rem(modulus);
                    proof {
                        let x = pow(sv, expo);
                        let y = pow(sv, pow2(pos));
                        lemma_mul_mod_noop(x, y, m);
                        lemma_pow_adds(sv, expo, pow2(pos));
                        assert(r0 as int == x % m);
                        assert(b0 as int == y % m);
                        assert(t.as_nat() == r0 * b0);
                        assert((r0 * b0) as int == (x % m) * (y % m));
                        assert(result.as_nat() as int == ((x % m) * (y % m)) % m);
                        assert(result.as_nat() as int == (x * y) % m);
                        assert(result.as_nat() as int == pow(sv, expo + pow2(pos)) % m);
                    }
                }
                let t2 = base.mul(&base);
                base = t2.rem(modulus);
                proof {
                    let y = pow(sv, pow2(pos));
                    lemma_mul_mod_noop(y, y, m);
                    lemma_pow_adds(sv, pow2(pos), pow2(pos));
                    lemma_pow2_unfold((pos + 1) as nat);
                    assert(b0 as int == y % m);
                    assert(t2.as_nat() == b0 * b0);
                    assert((b0 * b0) as int == (y % m) * (y % m));
                    assert(base.as_nat() as int == (y * y) % m);
                    assert(base.as_nat() as int == pow(sv, pow2(pos) + pow2(pos)) % m);
                    assert(base.as_nat() as int == pow(sv, pow2((pos + 1) as nat)) % m);
                    let aa = pow2(32 * (li as nat));
                    let m1 = (l as nat) % pow2((k + 1) as nat);
                    let m0 = (l as nat) % pow2(k as nat);
                    assert(aa * m1 == aa * m0 + (b as nat) * pow2(pos));
                    if b == 1 {
                        assert(expo + pow2(pos) == p_lo + aa * m1) by (nonlinear_arith)
                            requires
                                aa * m1 == aa * m0 + (b as nat) * pow2(pos),
                                b == 1,
                                expo == p_lo + aa * m0,
                        ;
                        assert(result.as_nat() == pow(sv, p_lo + aa * m1) % m);
                    } else {
                        assert(b == 0);
                        assert(aa * m1 == aa * m0) by (nonlinear_arith)
                            requires
                                aa * m1 == aa * m0 + (b as nat) * pow2(pos),
                                b == 0,
                        ;
                        assert(result.as_nat() == pow(sv, p_lo + aa * m1) % m);
                    }
                    assert(32 * (li as nat) + (k + 1) as nat == pos + 1);
                }
                k = k + 1;
            }
            proof {
                lemma2_to64();
                lemma_small_mod(l as nat, pow2(32));
                lemma_prefix_val_succ(exponent.limb_seq(), li as int);
                assert(pow2(32 * (li as nat)) * (l as nat) == (l as nat) * pow2(32 * (li as nat)))
                    by (nonlinear_arith);
                lemma_pow2_adds(32 * (li as nat), 32);
                assert(32 * ((li + 1) as nat) == 32 * (li as nat) + 32) by (nonlinear_arith);
            }
            li = li + 1;
        }
        proof {
            lemma_prefix_val_full(exponent.limb_seq(), li as int);
        }
        result
    }

    /// The integer `n`-th root: the greatest magnitude whose `n`-th power
    /// does not exceed this value, found by binary search.
    pub fn nth_root(&self, n: u32) -> (r: BigUint)
        requires
            self.wf(),
            n >= 1,
        ensures
            r.wf(),
            pow(r.as_nat() as int, n as nat) <= self.as_nat(),
            self.as_nat() < pow((r.as_nat() + 1) as int, n as nat),
    {
        let mut lo = BigUint::zero();
        let mut hi = self.add(&BigUint::one());
        proof {
            vstd::arithmetic::power::lemma0_pow(n as nat);
            lemma_pow1((self.as_nat() + 1) as int);
            lemma_pow_increases(self.as_nat() + 1, 1, n as nat);
        }
        let mut go = {
            let l1 = lo.add(&BigUint::one());
            l1.lt(&hi)
        };
        while go
            invariant
                lo.wf(),
                hi.wf(),
                self.wf(),
                n >= 1,
                lo.as_nat() < hi.as_nat(),
                pow(lo.as_nat() as int, n as nat) <= self.as_nat(),
                self.as_nat() < pow(hi.as_nat() as int, n as nat),
                go == (lo.as_nat() + 1 < hi.as_nat()),
            decreases hi.as_nat() - lo.as_nat(),
        {
            let sum = lo.add(&hi);
            let mid = sum.half();
            proof {
                lemma_fundamental_div_mod((lo.as_nat() + hi.as_nat()) as int, 2);
                lemma_mod_bound((lo.as_nat() + hi.as_nat()) as int, 2);
            }
            let mp = mid.pow(n);
            if mp.le(self) {
                lo = mid;
            } else {
                hi = mid;
            }
            go = {
                let l1 = lo.add(&BigUint::one());
                l1.lt(&hi)
            };
        }
        lo
    }

    /// The integer cube root.
    pub fn cbrt(&self) -> (r: BigUint)
        requires
            self.wf(),
        ensures
            r.wf(),
            pow(r.as_nat() as int, 3) <= self.as_nat(),
            self.as_nat() < pow((r.as_nat() + 1) as int, 3),
    {
        self.nth_root(3)
    }
}

/// A power of a non-negative base is non-negative.
proof fn lemma_pow_nonneg(b: int, e: nat)
    requires
        b >= 0,
    ensures
        pow(b, e) >= 0,
{
    if b > 0 {
        lemma_pow_positive(b, e);
    } else if e == 0 {
        lemma_pow0(b);
    } else {
        vstd::arithmetic::power::lemma0_pow(e);
    }
}

/// Splitting a remainder by the next power of two isolates one bit.
proof fn lemma_mod_pow2_succ(x: nat, k: nat)
    ensures
        x % pow2((k + 1) as nat) == x % pow2(k) + pow2(k) * ((x / pow2(k)) % 2),
{
    lemma_pow2_pos(k);
    lemma_pow2_pos((k + 1) as nat);
    let p = pow2(k) as int;
    let q = (x as int) / p;
    lemma_fundamental_div_mod(x as int, p);
    lemma_mod_bound(x as int, p);
    lemma_fundamental_div_mod(q, 2);
    lemma_mod_bound(q, 2);
    lemma_pow2_unfold((k + 1) as nat);
    assert(x as int == (2 * p) * (q / 2) + (p * (q % 2) + (x as int) % p)) by (nonlinear_arith)
        requires
            x as int == p * q + (x as int) % p,
            q == 2 * (q / 2) + q % 2,
    ;
    assert(p * (q % 2) + (x as int) % p < 2 * p) by (nonlinear_arith)
        requires
            q % 2 <= 1,
            (x as int) % p < p,
            p > 0,
    ;
    assert((x as int) % p >= 0 && p * (q % 2) >= 0) by (nonlinear_arith)
        requires
            (x as int) % p >= 0,
            q % 2 >= 0,
            p > 0,
    ;
    lemma_fundamental_div_mod_converse(
        x as int,
        2 * p,
        q / 2,
        p * (q % 2) + (x as int) % p,
    );
}

} // verus!
