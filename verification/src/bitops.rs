//! Bit-level access: single-bit test and update, shifts, bit counts, and
//! word-wise logical operations, all specified against the bits of the
//! denoted natural number.

use crate::bigint::BigUint;
use crate::limbs::{
    lemma_nat_of_bound, lemma_nat_of_normalized_pos, lemma_nat_of_split, limb_base, nat_of,
};
use vstd::arithmetic::div_mod::{
    lemma_basic_div, lemma_div_denominator, lemma_fundamental_div_mod,
    lemma_fundamental_div_mod_converse, lemma_hoist_over_denominator, lemma_mod_bound,
    lemma_mod_multiples_vanish,
};
use vstd::arithmetic::power2::{
    lemma2_to64, lemma_pow2_adds, lemma_pow2_pos, lemma_pow2_strictly_increases, pow2,
};
use vstd::bits::{
    lemma_low_bits_mask_values, lemma_u32_low_bits_mask_is_mod, lemma_u32_shr_is_div,
    lemma_u64_shl_is_mul,
};
use vstd::prelude::*;

verus! {

/// Whether bit `i` (counted from the least significant end) of the natural
/// number `v` is set.
pub open spec fn bit_of(v: nat, i: nat) -> bool {
    (v / pow2(i)) % 2 == 1
}

/// A bit inside the stored limbs is the corresponding bit of that limb.
pub proof fn lemma_bit_of_limb(s: Seq<u32>, k: int, o: nat)
    requires
        0 <= k < s.len(),
        o < 32,
    ensures
        bit_of(nat_of(s), (32 * k + o) as nat) == (((s[k] as nat) / pow2(o)) % 2 == 1),
{
    lemma2_to64();
    let v = nat_of(s);
    let p = pow2((32 * k) as nat);
    let low = nat_of(s.take(k));
    let high = nat_of(s.skip(k));
    lemma_nat_of_split(s, k);
    lemma_nat_of_bound(s.take(k));
    assert(s.take(k).len() == k);
    lemma_pow2_pos((32 * k) as nat);
    lemma_fundamental_div_mod_converse(v as int, p as int, high as int, low as int);
    assert(v as int / (p as int) == high as int);
    lemma_pow2_adds((32 * k) as nat, o);
    lemma_pow2_pos(o);
    lemma_div_denominator(v as int, p as int, pow2(o) as int);
    assert(v as int / (pow2((32 * k + o) as nat) as int) == (high as int) / (pow2(o) as int));
    let high2 = nat_of(s.skip(k).drop_first());
    assert(s.skip(k)[0] == s[k]);
    assert(high == s[k] as nat + limb_base() * high2);
    lemma_pow2_adds(o, (32 - o) as nat);
    assert(limb_base() == pow2(o) * pow2((32 - o) as nat));
    let j = pow2((32 - o) as nat) * high2;
    assert((pow2(o) * pow2((32 - o) as nat)) * high2 == (pow2((32 - o) as nat) * high2) * pow2(o))
        by (nonlinear_arith);
    assert(high == s[k] as nat + j * pow2(o));
    lemma_hoist_over_denominator(s[k] as int, j as int, pow2(o));
    assert((high as int) / (pow2(o) as int) == (s[k] as nat) / pow2(o) + j);
    vstd::arithmetic::power2::lemma_pow2_unfold((32 - o) as nat);
    assert(j == 2 * (pow2((32 - o - 1) as nat) * high2)) by (nonlinear_arith)
        requires
            j == pow2((32 - o) as nat) * high2,
            pow2((32 - o) as nat) == 2 * pow2((32 - o - 1) as nat),
    ;
    lemma_mod_multiples_vanish(
        (pow2((32 - o - 1) as nat) * high2) as int,
        ((s[k] as nat) / pow2(o)) as int,
        2,
    );
}

/// Bits above the stored limbs are clear.
pub proof fn lemma_bit_of_high(s: Seq<u32>, i: nat)
    requires
        i >= 32 * s.len(),
    ensures
        !bit_of(nat_of(s), i),
{
    lemma_nat_of_bound(s);
    if 32 * s.len() < i {
        lemma_pow2_strictly_increases(32 * s.len(), i);
    }
    lemma_pow2_pos(i);
    lemma_basic_div(nat_of(s) as int, pow2(i) as int);
}

/// The number of set bits in a natural number.
pub open spec fn pop_count(v: nat) -> nat
    decreases v,
{
    if v == 0 {
        0
    } else {
        v % 2 + pop_count(v / 2)
    }
}

/// The number of set bits among the first `n` bit positions.
pub open spec fn ones_below(v: nat, n: nat) -> nat
    decreases n,
{
    if n == 0 {
        0
    } else {
        ones_below(v, (n - 1) as nat) + if bit_of(v, (n - 1) as nat) {
            1nat
        } else {
            0nat
        }
    }
}

/// Zero has no set bits below any position.
pub proof fn lemma_ones_below_zero(n: nat)
    ensures
        ones_below(0, n) == 0,
    decreases n,
{
    if n > 0 {
        lemma_ones_below_zero((n - 1) as nat);
        lemma_pow2_pos((n - 1) as nat);
        lemma_basic_div(0, pow2((n - 1) as nat) as int);
    }
}

/// Halving shifts every counted bit position down by one.
proof fn lemma_ones_below_shift(v: nat, n: nat)
    requires
        n >= 1,
    ensures
        ones_below(v, n) == (if bit_of(v, 0) {
            1nat
        } else {
            0nat
        }) + ones_below(v / 2, (n - 1) as nat),
    decreases n,
{
    lemma2_to64();
    if n == 1 {
        assert(ones_below(v, 0) == 0);
        assert(ones_below(v / 2, 0) == 0);
        assert(ones_below(v, 1) == ones_below(v, 0) + if bit_of(v, 0) {
            1nat
        } else {
            0nat
        });
    } else {
        lemma_ones_below_shift(v, (n - 1) as nat);
        lemma_pow2_pos((n - 2) as nat);
        lemma_div_denominator(v as int, 2, pow2((n - 2) as nat) as int);
        vstd::arithmetic::power2::lemma_pow2_unfold((n - 1) as nat);
        assert(2 * pow2((n - 2) as nat) == pow2((n - 1) as nat));
        assert(((v / 2) as int) / (pow2((n - 2) as nat) as int) == v as int / (pow2(
            (n - 1) as nat,
        ) as int));
        assert(bit_of(v, (n - 1) as nat) == bit_of(v / 2, (n - 2) as nat));
        assert(ones_below(v, n) == ones_below(v, (n - 1) as nat) + if bit_of(v, (n - 1) as nat) {
            1nat
        } else {
            0nat
        });
        assert(ones_below(v / 2, (n - 1) as nat) == ones_below(v / 2, (n - 2) as nat) + if bit_of(
            v / 2,
            (n - 2) as nat,
        ) {
            1nat
        } else {
            0nat
        });
    }
}

/// Counting every position up to the value's width counts all of its set
/// bits.
pub proof fn lemma_pop_count_is_ones_below(v: nat, n: nat)
    requires
        v < pow2(n),
    ensures
        pop_count(v) == ones_below(v, n),
    decreases n,
{
    lemma2_to64();
    if v == 0 {
        lemma_ones_below_zero(n);
    } else {
        assert(n >= 1) by {
            if n == 0 {
                assert(pow2(0) == 1);
            }
        }
        lemma_ones_below_shift(v, n);
        vstd::arithmetic::power2::lemma_pow2_unfold(n);
        assert(v / 2 < pow2((n - 1) as nat)) by {
            lemma_fundamental_div_mod(v as int, 2);
            lemma_mod_bound(v as int, 2);
        }
        lemma_pop_count_is_ones_below(v / 2, (n - 1) as nat);
        assert(bit_of(v, 0) == (v % 2 == 1)) by {
            vstd::arithmetic::div_mod::lemma_div_basics(v as int);
            assert(pow2(0) == 1);
        }
        lemma_mod_bound(v as int, 2);
    }
}

/// Set bits split across a power-of-two boundary count separately.
proof fn lemma_pop_add_mul_pow2(a: nat, b: nat, n: nat)
    requires
        a < pow2(n),
    ensures
        pop_count(a + pow2(n) * b) == pop_count(a) + pop_count(b),
    decreases n,
{
    lemma2_to64();
    let x = a + pow2(n) * b;
    lemma_pow2_pos(n);
    if x == 0 {
        assert(a == 0);
        assert(b == 0) by (nonlinear_arith)
            requires
                pow2(n) * b == 0,
                pow2(n) > 0,
        ;
    } else if n == 0 {
        assert(pow2(0) == 1);
        assert(a == 0);
        assert(x == b) by (nonlinear_arith)
            requires
                x == a + pow2(0) * b,
                a == 0,
                pow2(0) == 1,
        ;
    } else {
        vstd::arithmetic::power2::lemma_pow2_unfold(n);
        let j = pow2((n - 1) as nat) * b;
        assert(pow2(n) * b == 2 * j) by (nonlinear_arith)
            requires
                pow2(n) == 2 * pow2((n - 1) as nat),
                j == pow2((n - 1) as nat) * b,
        ;
        lemma_mod_multiples_vanish(j as int, a as int, 2);
        assert(x % 2 == a % 2);
        lemma_hoist_over_denominator(a as int, j as int, 2);
        assert(x / 2 == a / 2 + j);
        assert(a / 2 < pow2((n - 1) as nat)) by {
            lemma_fundamental_div_mod(a as int, 2);
            lemma_mod_bound(a as int, 2);
        }
        lemma_pop_add_mul_pow2(a / 2, b, (n - 1) as nat);
        lemma_fundamental_div_mod(a as int, 2);
        lemma_mod_bound(a as int, 2);
        assert(pop_count(x) == x % 2 + pop_count(x / 2));
        assert(pop_count(a) == a % 2 + pop_count(a / 2));
    }
}

/// The division form and the shift-and-mask form of a limb's bit agree.
proof fn lemma_u32_bit(l: u32, o: u32)
    requires
        o < 32,
    ensures
        ((l >> o) & 1 == 1) == (((l as nat) / pow2(o as nat)) % 2 == 1),
{
    lemma2_to64();
    lemma_u32_shr_is_div(l, o);
    lemma_low_bits_mask_values();
    lemma_u32_low_bits_mask_is_mod(l >> o, 1);
}

impl BigUint {
    /// Whether the bit at the given position is set; positions beyond the
    /// most significant limb read as clear.
    pub fn bit(&self, bit: u64) -> (r: bool)
        requires
            self.wf(),
        ensures
            r == bit_of(self.as_nat(), bit as nat),
    {
        let k64 = bit / 32;
        let o = (bit % 32) as u32;
        proof {
            lemma_fundamental_div_mod(bit as int, 32);
        }
        if k64 >= self.limbs.len() as u64 {
            proof {
                lemma_bit_of_high(self.limbs@, bit as nat);
            }
            false
        } else {
            let k = k64 as usize;
            let l = self.limbs[k];
            proof {
                lemma_bit_of_limb(self.limbs@, k as int, o as nat);
                lemma_u32_bit(l, o);
            }
            (l >> o) & 1 == 1
        }
    }

    /// Shifts left: multiplication by the given power of two.
    pub fn shl(&self, n: u64) -> (r: BigUint)
        requires
            self.wf(),
            n as nat / 32 + self.limb_seq().len() <= usize::MAX as nat,
        ensures
            r.wf(),
            r.as_nat() == self.as_nat() * pow2(n as nat),
    {
        let z = (n / 32) as usize;
        let off = (n % 32) as u32;
        proof {
            lemma_fundamental_div_mod(n as int, 32);
        }
        let m64: u64 = 1u64 << off;
        proof {
            lemma_pow2_pos(off as nat);
            lemma2_to64();
            assert(pow2(off as nat) < 0x1_0000_0000) by {
                lemma_pow2_strictly_increases(off as nat, 32);
            }
            lemma_u64_shl_is_mul(1u64, off as u64);
        }
        let m = m64 as u32;
        let shifted = self.shl_limbs(z);
        let r = shifted.mul_small(m, 0);
        proof {
            lemma_pow2_adds(32 * z as nat, off as nat);
            assert((pow2(32 * z as nat) * self.as_nat()) * pow2(off as nat) == self.as_nat() * (
            pow2(32 * z as nat) * pow2(off as nat))) by (nonlinear_arith);
        }
        r
    }

    /// Shifts right: division by the given power of two, rounding down.
    pub fn shr(&self, n: u64) -> (r: BigUint)
        requires
            self.wf(),
        ensures
            r.wf(),
            r.as_nat() == self.as_nat() / pow2(n as nat),
    {
        let z64 = n / 32;
        let off = (n % 32) as u32;
        proof {
            lemma_fundamental_div_mod(n as int, 32);
            lemma_pow2_pos(n as nat);
        }
        if z64 >= self.limbs.len() as u64 {
            proof {
                lemma_nat_of_bound(self.limbs@);
                if 32 * self.limbs@.len() < n as nat {
                    lemma_pow2_strictly_increases(32 * self.limbs@.len(), n as nat);
                }
                lemma_basic_div(self.as_nat() as int, pow2(n as nat) as int);
            }
            return BigUint::zero();
        }
        let z = z64 as usize;
        let tail_slice = vstd::slice::slice_subrange(
            self.limbs.as_slice(),
            z,
            self.limbs.len(),
        );
        let tail = BigUint::from_limbs(vstd::slice::slice_to_vec(tail_slice));
        proof {
            let s = self.limbs@;
            let p = pow2((32 * z) as nat);
            lemma_nat_of_split(s, z as int);
            lemma_nat_of_bound(s.take(z as int));
            assert(s.take(z as int).len() == z);
            lemma_pow2_pos((32 * z) as nat);
            assert(p * nat_of(s.skip(z as int)) == nat_of(s.skip(z as int)) * p)
                by (nonlinear_arith);
            lemma_fundamental_div_mod_converse(
                self.as_nat() as int,
                p as int,
                nat_of(s.skip(z as int)) as int,
                nat_of(s.take(z as int)) as int,
            );
            assert(tail_slice@ =~= s.skip(z as int));
            assert(tail.as_nat() == self.as_nat() / p);
        }
        let m64: u64 = 1u64 << off;
        proof {
            lemma_pow2_pos(off as nat);
            lemma2_to64();
            assert(pow2(off as nat) < 0x1_0000_0000) by {
                lemma_pow2_strictly_increases(off as nat, 32);
            }
            lemma_u64_shl_is_mul(1u64, off as u64);
        }
        let m = m64 as u32;
        let (q, rm) = tail.divmod_small(m);
        proof {
            let p = pow2((32 * z) as nat);
            lemma_fundamental_div_mod_converse(
                tail.as_nat() as int,
                pow2(off as nat) as int,
                q.as_nat() as int,
                rm as int,
            );
            lemma_pow2_adds((32 * z) as nat, off as nat);
            lemma_div_denominator(self.as_nat() as int, p as int, pow2(off as nat) as int);
        }
        q
    }
    /// Sets or clears one bit in place, growing or renormalizing the limb
    /// storage as needed.
    pub fn set_bit(&mut self, bit: u64, value: bool)
        requires
            old(self).wf(),
            value ==> bit as nat / 32 + 1 <= usize::MAX as nat,
        ensures
            final(self).wf(),
            forall|j: nat|
                #[trigger] bit_of(final(self).as_nat(), j) == if j == bit as nat {
                    value
                } else {
                    bit_of(old(self).as_nat(), j)
                },
    {
        let ghost s0 = self.limbs@;
        let ghost v0 = old(self).as_nat();
        let k64 = bit / 32;
        let o = (bit % 32) as u32;
        proof {
            lemma_fundamental_div_mod(bit as int, 32);
        }
        if !value && k64 >= self.limbs.len() as u64 {
            proof {
                lemma_bit_of_high(s0, bit as nat);
            }
            return ;
        }
        let k = k64 as usize;
        let oldlen = self.limbs.len();
        let n = if value && k + 1 > oldlen {
            k + 1
        } else {
            oldlen
        };
        let mut v: Vec<u32> = Vec::new();
        let mut i: usize = 0;
        while i < n
            invariant
                i <= n,
                v@.len() == i,
                self.limbs@ == s0,
                oldlen == s0.len(),
                k64 == k,
                n >= s0.len(),
                value ==> n > k,
                !value ==> (n == s0.len() && k < n),
                o < 32,
                forall|t: int|
                    0 <= t < i ==> v@[t] == {
                        let cur = if t < s0.len() {
                            s0[t]
                        } else {
                            0u32
                        };
                        if t == k as int {
                            if value {
                                cur | (1u32 << o)
                            } else {
                                cur & !(1u32 << o)
                            }
                        } else {
                            cur
                        }
                    },
            decreases n - i,
        {
            let cur: u32 = if i < self.limbs.len() {
                self.limbs[i]
            } else {
                0
            };
            let nl: u32 = if i == k {
                if value {
                    cur | (1u32 << o)
                } else {
                    cur & !(1u32 << o)
                }
            } else {
                cur
            };
            v.push(nl);
            i = i + 1;
        }
        proof {
            assert forall|j: nat|
                #[trigger] bit_of(nat_of(v@), j) == (if j == bit as nat {
                    value
                } else {
                    bit_of(v0, j)
                }) by {
                lemma_fundamental_div_mod(j as int, 32);
                let jk = (j / 32) as int;
                let jo = (j % 32) as nat;
                assert(j == 32 * jk + jo);
                if jk < v@.len() {
                    lemma_bit_of_limb(v@, jk, jo);
                    lemma_u32_bit(v@[jk], (j % 32) as u32);
                } else {
                    lemma_bit_of_high(v@, j);
                }
                if jk < s0.len() {
                    lemma_bit_of_limb(s0, jk, jo);
                    lemma_u32_bit(s0[jk], (j % 32) as u32);
                } else {
                    lemma_bit_of_high(s0, j);
                }
                let jo32 = (j % 32) as u32;
                let cur: u32 = if jk < s0.len() {
                    s0[jk]
                } else {
                    0u32
                };
                if jk < v@.len() {
                    lemma_u32_bit(cur, jo32);
                    if jk == k as int {
                        if value {
                            if jo32 == o {
                                assert(((cur | (1u32 << o)) >> o) & 1 == 1) by (bit_vector)
                                    requires
                                        o < 32,
                                ;
                            } else {
                                assert(((cur | (1u32 << o)) >> jo32) & 1 == (cur >> jo32) & 1)
                                    by (bit_vector)
                                    requires
                                        o < 32,
                                        jo32 < 32,
                                        jo32 != o,
                                ;
                            }
                        } else {
                            if jo32 == o {
                                assert(((cur & !(1u32 << o)) >> o) & 1 == 0) by (bit_vector)
                                    requires
                                        o < 32,
                                ;
                            } else {
                                assert(((cur & !(1u32 << o)) >> jo32) & 1 == (cur >> jo32) & 1)
                                    by (bit_vector)
                                    requires
                                        o < 32,
                                        jo32 < 32,
                                        jo32 != o,
                                ;
                            }
                        }
                    }
                    if jk >= s0.len() {
                        assert(cur == 0);
                        assert((0u32 >> jo32) & 1 == 0) by (bit_vector);
                    }
                }
            }
        }
        *self = BigUint::from_limbs(v);
    }

    /// The number of significant bits: the least `n` with this value below
    /// 2^n; zero has zero significant bits.
    pub fn bits(&self) -> (r: u64)
        requires
            self.wf(),
            self.limb_seq().len() < 0x0800_0000_0000_0000,
        ensures
            self.as_nat() < pow2(r as nat),
            r > 0 ==> self.as_nat() >= pow2((r - 1) as nat),
            (r == 0) == (self.as_nat() == 0),
    {
        let len = self.limbs.len();
        if len == 0 {
            proof {
                lemma2_to64();
            }
            return 0;
        }
        proof {
            lemma_nat_of_normalized_pos(self.limbs@);
        }
        let top = self.limbs[len - 1];
        let lz = top.leading_zeros();
        let sig = 32 - lz;
        proof {
            vstd::std_specs::bits::axiom_u32_leading_zeros(top);
            lemma_pow2_pos((sig - 1) as nat);
            lemma_pow2_pos(sig as nat);
            // top < pow2(sig)
            if sig < 32 {
                lemma_u32_shr_is_div(top, sig);
                assert((top as nat) / pow2(sig as nat) == 0);
                lemma_fundamental_div_mod(top as int, pow2(sig as nat) as int);
                vstd::arithmetic::div_mod::lemma_mod_bound(top as int, pow2(sig as nat) as int);
                assert((top as nat) < pow2(sig as nat));
            } else {
                lemma2_to64();
            }
            // top >= pow2(sig - 1)
            lemma_u32_shr_is_div(top, (sig - 1) as u32);
            assert((top >> ((sig - 1) as u32)) & 1 != 0);
            assert((top >> ((sig - 1) as u32)) & 1 == 1 || (top >> ((sig - 1) as u32)) & 1 == 0)
                by (bit_vector);
            let q = (top as nat) / pow2((sig - 1) as nat);
            assert((q as u32) & 1 == 1);
            assert(q >= 1) by {
                if q == 0 {
                    assert(0u32 & 1 == 0) by (bit_vector);
                }
            }
            lemma_fundamental_div_mod(top as int, pow2((sig - 1) as nat) as int);
            assert(top as nat >= pow2((sig - 1) as nat) * q) by (nonlinear_arith)
                requires
                    top as int == pow2((sig - 1) as nat) * q + (top as nat) % pow2(
                        (sig - 1) as nat,
                    ),
                    (top as nat) % pow2((sig - 1) as nat) >= 0,
            ;
            assert(pow2((sig - 1) as nat) * q >= pow2((sig - 1) as nat)) by (nonlinear_arith)
                requires
                    q >= 1,
                    pow2((sig - 1) as nat) > 0,
            ;
        }
        let r: u64 = 32 * ((len - 1) as u64) + sig as u64;
        proof {
            let w = pow2((32 * (len - 1)) as nat);
            crate::limbs::lemma_nat_of_msb(self.limbs@);
            lemma_pow2_adds((32 * (len - 1)) as nat, sig as nat);
            lemma_pow2_adds((32 * (len - 1)) as nat, (sig - 1) as nat);
            assert((top as nat + 1) * w <= pow2(sig as nat) * w) by (nonlinear_arith)
                requires
                    top as nat + 1 <= pow2(sig as nat),
                    w >= 0,
            ;
            assert(pow2((sig - 1) as nat) * w <= (top as nat) * w) by (nonlinear_arith)
                requires
                    pow2((sig - 1) as nat) <= top as nat,
                    w >= 0,
            ;
            assert(pow2(sig as nat) * w == w * pow2(sig as nat)) by (nonlinear_arith);
            assert(pow2((sig - 1) as nat) * w == w * pow2((sig - 1) as nat)) by (nonlinear_arith);
            lemma_pow2_pos(r as nat);
        }
        r
    }

    /// The total number of set bits.
    pub fn count_ones(&self) -> (r: u64)
        requires
            self.wf(),
            self.limb_seq().len() < 0x0400_0000_0000_0000,
        ensures
            r as nat == pop_count(self.as_nat()),
    {
        let mut acc: u64 = 0;
        let mut i: usize = 0;
        proof {
            assert(self.limbs@.take(0) =~= Seq::<u32>::empty());
            assert(nat_of(self.limbs@.take(0)) == 0);
        }
        while i < self.limbs.len()
            invariant
                self.wf(),
                self.limbs@.len() < 0x0400_0000_0000_0000,
                i <= self.limbs@.len(),
                acc <= 32 * i,
                acc as nat == pop_count(nat_of(self.limbs@.take(i as int))),
            decreases self.limbs@.len() - i,
        {
            let l = self.limbs[i];
            let mut c: u32 = 0;
            let mut k: u32 = 0;
            while k < 32
                invariant
                    l == self.limbs@[i as int],
                    k <= 32,
                    c <= k,
                    c as nat == ones_below(l as nat, k as nat),
                decreases 32 - k,
            {
                let b = (l >> k) & 1;
                proof {
                    lemma_u32_bit(l, k);
                    assert((l >> k) & 1 == 0 || (l >> k) & 1 == 1) by (bit_vector);
                }
                c = c + b;
                k = k + 1;
            }
            proof {
                lemma2_to64();
                lemma_pop_count_is_ones_below(l as nat, 32);
                crate::limbs::lemma_nat_of_take_succ(self.limbs@, i as int);
                lemma_nat_of_bound(self.limbs@.take(i as int));
                assert(self.limbs@.take(i as int).len() == i);
                assert((l as nat) * pow2((32 * i) as nat) == pow2((32 * i) as nat) * (l as nat))
                    by (nonlinear_arith);
                lemma_pop_add_mul_pow2(
                    nat_of(self.limbs@.take(i as int)),
                    l as nat,
                    (32 * i) as nat,
                );
            }
            acc = acc + c as u64;
            i = i + 1;
        }
        proof {
            crate::limbs::lemma_nat_of_take_full(self.limbs@);
        }
        acc
    }

    /// The position of the lowest set bit, or `None` for zero.
    pub fn trailing_zeros(&self) -> (r: Option<u64>)
        requires
            self.wf(),
            self.limb_seq().len() < 0x0800_0000_0000_0000,
        ensures
            r is Some <==> self.as_nat() != 0,
            r is Some ==> bit_of(self.as_nat(), r->0 as nat),
            r is Some ==> forall|j: nat| j < r->0 as nat ==> !bit_of(self.as_nat(), j),
    {
        let len = self.limbs.len();
        if len == 0 {
            return None;
        }
        proof {
            lemma_nat_of_normalized_pos(self.limbs@);
        }
        let mut f: usize = 0;
        while f < len - 1 && self.limbs[f] == 0
            invariant
                self.wf(),
                len == self.limbs@.len(),
                len >= 1,
                f < len,
                forall|t: int| 0 <= t < f ==> self.limbs@[t] == 0,
            decreases len - f,
        {
            f = f + 1;
        }
        proof {
            if self.limbs@[f as int] == 0 {
                assert(f == len - 1);
                assert(false);
            }
        }
        let l = self.limbs[f];
        let tz = l.trailing_zeros();
        proof {
            vstd::std_specs::bits::axiom_u32_trailing_zeros(l);
        }
        let r: u64 = 32 * (f as u64) + tz as u64;
        proof {
            lemma_bit_of_limb(self.limbs@, f as int, tz as nat);
            lemma_u32_bit(l, tz);
            assert forall|j: nat| j < r as nat implies !bit_of(self.as_nat(), j) by {
                lemma_fundamental_div_mod(j as int, 32);
                let jk = (j / 32) as int;
                let jo = (j % 32) as nat;
                lemma_bit_of_limb(self.limbs@, jk, jo);
                lemma_u32_bit(self.limbs@[jk], (j % 32) as u32);
                let jo32 = (j % 32) as u32;
                if jk < f as int {
                    assert(self.limbs@[jk] == 0);
                    assert((0u32 >> jo32) & 1 == 0) by (bit_vector);
                } else {
                    assert(jk == f as int && jo < tz as nat);
                }
            }
        }
        Some(r)
    }

    /// The number of consecutive set bits starting at the lowest position.
    pub fn trailing_ones(&self) -> (r: u64)
        requires
            self.wf(),
            self.limb_seq().len() < 0x0800_0000_0000_0000,
        ensures
            forall|j: nat| j < r as nat ==> bit_of(self.as_nat(), j),
            !bit_of(self.as_nat(), r as nat),
    {
        let len = self.limbs.len();
        let mut f: usize = 0;
        while f < len && self.limbs[f] == 0xFFFF_FFFF
            invariant
                self.wf(),
                len == self.limbs@.len(),
                f <= len,
                forall|t: int| 0 <= t < f ==> self.limbs@[t] == 0xFFFF_FFFFu32,
            decreases len - f,
        {
            f = f + 1;
        }
        let r: u64;
        if f == len {
            r = 32 * (f as u64);
            proof {
                lemma_bit_of_high(self.limbs@, r as nat);
            }
        } else {
            let l = self.limbs[f];
            let to = l.trailing_ones();
            proof {
                vstd::std_specs::bits::axiom_u32_trailing_ones(l);
            }
            r = 32 * (f as u64) + to as u64;
            proof {
                lemma_bit_of_limb(self.limbs@, f as int, to as nat);
                lemma_u32_bit(l, to);
            }
        }
        proof {
            assert forall|j: nat| j < r as nat implies bit_of(self.as_nat(), j) by {
                lemma_fundamental_div_mod(j as int, 32);
                let jk = (j / 32) as int;
                let jo = (j % 32) as nat;
                assert(jk < self.limbs@.len());
                lemma_bit_of_limb(self.limbs@, jk, jo);
                lemma_u32_bit(self.limbs@[jk], (j % 32) as u32);
                let jo32 = (j % 32) as u32;
                if jk < f as int {
                    assert(self.limbs@[jk] == 0xFFFF_FFFFu32);
                    assert((0xFFFF_FFFFu32 >> jo32) & 1 == 1) by (bit_vector)
                        requires
                            jo32 < 32,
                    ;
                }
            }
        }
        r
    }

    /// Word-wise conjunction: a bit is set exactly when it is set in both
    /// operands.
    pub fn bitand(&self, other: &BigUint) -> (r: BigUint)
        requires
            self.wf(),
            other.wf(),
        ensures
            r.wf(),
            forall|j: nat|
                #[trigger] bit_of(r.as_nat(), j) == (bit_of(self.as_nat(), j) && bit_of(
                    other.as_nat(),
                    j,
                )),
    {
        let n = if self.limbs.len() >= other.limbs.len() {
            self.limbs.len()
        } else {
            other.limbs.len()
        };
        let mut v: Vec<u32> = Vec::new();
        let mut i: usize = 0;
        while i < n
            invariant
                i <= n,
                v@.len() == i,
                n >= self.limbs@.len(),
                n >= other.limbs@.len(),
                forall|t: int|
                    0 <= t < i ==> v@[t] == (crate::bitops::limb_at(self.limbs@, t) & crate::bitops::limb_at(
                        other.limbs@,
                        t,
                    )),
            decreases n - i,
        {
            let av: u32 = if i < self.limbs.len() {
                self.limbs[i]
            } else {
                0
            };
            let bv: u32 = if i < other.limbs.len() {
                other.limbs[i]
            } else {
                0
            };
            v.push(av & bv);
            i = i + 1;
        }
        proof {
            lemma_bitwise_limbs(v@, self.limbs@, other.limbs@, 0);
        }
        BigUint::from_limbs(v)
    }

    /// Word-wise disjunction: a bit is set exactly when it is set in either
    /// operand.
    pub fn bitor(&self, other: &BigUint) -> (r: BigUint)
        requires
            self.wf(),
            other.wf(),
        ensures
            r.wf(),
            forall|j: nat|
                #[trigger] bit_of(r.as_nat(), j) == (bit_of(self.as_nat(), j) || bit_of(
                    other.as_nat(),
                    j,
                )),
    {
        let n = if self.limbs.len() >= other.limbs.len() {
            self.limbs.len()
        } else {
            other.limbs.len()
        };
        let mut v: Vec<u32> = Vec::new();
        let mut i: usize = 0;
        while i < n
            invariant
                i <= n,
                v@.len() == i,
                n >= self.limbs@.len(),
                n >= other.limbs@.len(),
                forall|t: int|
                    0 <= t < i ==> v@[t] == (crate::bitops::limb_at(self.limbs@, t) | crate::bitops::limb_at(
                        other.limbs@,
                        t,
                    )),
            decreases n - i,
        {
            let av: u32 = if i < self.limbs.len() {
                self.limbs[i]
            } else {
                0
            };
            let bv: u32 = if i < other.limbs.len() {
                other.limbs[i]
            } else {
                0
            };
            v.push(av | bv);
            i = i + 1;
        }
        proof {
            lemma_bitwise_limbs(v@, self.limbs@, other.limbs@, 1);
        }
        BigUint::from_limbs(v)
    }

    /// Word-wise exclusive disjunction: a bit is set exactly when it is set
    /// in exactly one operand.
    pub fn bitxor(&self, other: &BigUint) -> (r: BigUint)
        requires
            self.wf(),
            other.wf(),
        ensures
            r.wf(),
            forall|j: nat|
                #[trigger] bit_of(r.as_nat(), j) == (bit_of(self.as_nat(), j) != bit_of(
                    other.as_nat(),
                    j,
                )),
    {
        let n = if self.limbs.len() >= other.limbs.len() {
            self.limbs.len()
        } else {
            other.limbs.len()
        };
        let mut v: Vec<u32> = Vec::new();
        let mut i: usize = 0;
        while i < n
            invariant
                i <= n,
                v@.len() == i,
                n >= self.limbs@.len(),
                n >= other.limbs@.len(),
                forall|t: int|
                    0 <= t < i ==> v@[t] == (crate::bitops::limb_at(self.limbs@, t) ^ crate::bitops::limb_at(
                        other.limbs@,
                        t,
                    )),
            decreases n - i,
        {
            let av: u32 = if i < self.limbs.len() {
                self.limbs[i]
            } else {
                0
            };
            let bv: u32 = if i < other.limbs.len() {
                other.limbs[i]
            } else {
                0
            };
            v.push(av ^ bv);
            i = i + 1;
        }
        proof {
            lemma_bitwise_limbs(v@, self.limbs@, other.limbs@, 2);
        }
        BigUint::from_limbs(v)
    }
}

/// The limb at a position, reading zero beyond the stored length.
pub(crate) open spec fn limb_at(s: Seq<u32>, t: int) -> u32 {
    if 0 <= t < s.len() {
        s[t]
    } else {
        0u32
    }
}

/// A limb-wise logical operation realizes the bit-wise one on the denoted
/// values; `op` selects conjunction, disjunction or exclusive disjunction.
proof fn lemma_bitwise_limbs(v: Seq<u32>, a: Seq<u32>, b: Seq<u32>, op: int)
    requires
        v.len() >= a.len(),
        v.len() >= b.len(),
        0 <= op <= 2,
        forall|t: int|
            0 <= t < v.len() ==> v[t] == (if op == 0 {
                limb_at(a, t) & limb_at(b, t)
            } else if op == 1 {
                limb_at(a, t) | limb_at(b, t)
            } else {
                limb_at(a, t) ^ limb_at(b, t)
            }),
    ensures
        forall|j: nat|
            #[trigger] bit_of(nat_of(v), j) == (if op == 0 {
                bit_of(nat_of(a), j) && bit_of(nat_of(b), j)
            } else if op == 1 {
                bit_of(nat_of(a), j) || bit_of(nat_of(b), j)
            } else {
                bit_of(nat_of(a), j) != bit_of(nat_of(b), j)
            }),
{
    assert forall|j: nat|
        #[trigger] bit_of(nat_of(v), j) == (if op == 0 {
            bit_of(nat_of(a), j) && bit_of(nat_of(b), j)
        } else if op == 1 {
            bit_of(nat_of(a), j) || bit_of(nat_of(b), j)
        } else {
            bit_of(nat_of(a), j) != bit_of(nat_of(b), j)
        }) by {
        lemma_fundamental_div_mod(j as int, 32);
        lemma_mod_bound(j as int, 32);
        let jk = (j / 32) as int;
        let jo = (j % 32) as nat;
        let jo32 = (j % 32) as u32;
        let av = limb_at(a, jk);
        let bv = limb_at(b, jk);
        if jk < a.len() {
            lemma_bit_of_limb(a, jk, jo);
            lemma_u32_bit(av, jo32);
        } else {
            lemma_bit_of_high(a, j);
            lemma_u32_bit(0u32, jo32);
            assert((0u32 >> jo32) & 1 == 0) by (bit_vector);
        }
        if jk < b.len() {
            lemma_bit_of_limb(b, jk, jo);
            lemma_u32_bit(bv, jo32);
        } else {
            lemma_bit_of_high(b, j);
            lemma_u32_bit(0u32, jo32);
            assert((0u32 >> jo32) & 1 == 0) by (bit_vector);
        }
        if jk < v.len() {
            lemma_bit_of_limb(v, jk, jo);
            lemma_u32_bit(v[jk], jo32);
            assert((((av & bv) >> jo32) & 1 == 1) == (((av >> jo32) & 1 == 1) && ((bv >> jo32) & 1
                == 1))) by (bit_vector)
                requires
                    jo32 < 32,
            ;
            assert((((av | bv) >> jo32) & 1 == 1) == (((av >> jo32) & 1 == 1) || ((bv >> jo32) & 1
                == 1))) by (bit_vector)
                requires
                    jo32 < 32,
            ;
            assert((((av ^ bv) >> jo32) & 1 == 1) == (((av >> jo32) & 1 == 1) != ((bv >> jo32) & 1
                == 1))) by (bit_vector)
                requires
                    jo32 < 32,
            ;
        } else {
            lemma_bit_of_high(v, j);
        }
    }
}

} // verus!
