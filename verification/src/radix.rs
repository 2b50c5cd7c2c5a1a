//! Radix conversion: byte encodings, digit arrays in an arbitrary base, and
//! text in bases 2 through 36.

use crate::bigint::{BigUint, ParseBigIntError};
use crate::limbs::{
    lemma_nat_of_normalized_pos, lemma_nat_of_take_full, lemma_nat_of_take_succ, nat_of,
};
use vstd::arithmetic::power::{lemma_pow_multiplies, pow};
use vstd::arithmetic::power2::{lemma_pow2, pow2};
use vstd::prelude::*;
use vstd::string::StrSliceExecFns;

verus! {

/// The natural number denoted by a little-endian digit sequence in the given
/// radix.
pub open spec fn radix_val_le(digits: Seq<u8>, radix: nat) -> nat
    decreases digits.len(),
{
    if digits.len() == 0 {
        0
    } else {
        digits[0] as nat + radix * radix_val_le(digits.drop_first(), radix)
    }
}

/// The natural number denoted by a big-endian digit sequence in the given
/// radix.
pub open spec fn radix_val_be(digits: Seq<u8>, radix: nat) -> nat
    decreases digits.len(),
{
    if digits.len() == 0 {
        0
    } else {
        radix_val_be(digits.drop_last(), radix) * radix + digits.last() as nat
    }
}

/// The digit a code point stands for: `0`-`9`, then `a`-`z` and `A`-`Z` as 10
/// to 35; anything else maps above every supported radix.
pub open spec fn u32_digit(u: u32) -> nat {
    if 48 <= u <= 57 {
        (u - 48) as nat
    } else if 97 <= u <= 122 {
        (u - 87) as nat
    } else if 65 <= u <= 90 {
        (u - 55) as nat
    } else {
        99
    }
}

/// The digit a character stands for.
pub open spec fn char_digit(c: char) -> nat {
    u32_digit(c as u32)
}

/// Whether every character is a digit of the given radix.
pub open spec fn valid_digits(s: Seq<char>, radix: nat) -> bool {
    forall|i: int| 0 <= i < s.len() ==> #[trigger] char_digit(s[i]) < radix
}

/// The natural number denoted by big-endian digit characters.
pub open spec fn str_val(s: Seq<char>, radix: nat) -> nat
    decreases s.len(),
{
    if s.len() == 0 {
        0
    } else {
        str_val(s.drop_last(), radix) * radix + char_digit(s.last())
    }
}

/// The natural number denoted by big-endian ASCII digit codes.
pub open spec fn ascii_val(bytes: Seq<u8>, radix: nat) -> nat
    decreases bytes.len(),
{
    if bytes.len() == 0 {
        0
    } else {
        ascii_val(bytes.drop_last(), radix) * radix + u32_digit(bytes.last() as u32)
    }
}

/// Characters and their ASCII codes denote the same number.
pub proof fn lemma_str_val_bytes(s: Seq<char>, bytes: Seq<u8>, radix: nat)
    requires
        s.len() == bytes.len(),
        forall|i: int| 0 <= i < s.len() ==> char_digit(s[i]) == u32_digit(#[trigger] bytes[i] as u32),
    ensures
        str_val(s, radix) == ascii_val(bytes, radix),
    decreases s.len(),
{
    if s.len() > 0 {
        lemma_str_val_bytes(s.drop_last(), bytes.drop_last(), radix);
    }
}

/// Appending a most significant little-endian digit adds its value scaled by
/// the weight of its position.
pub proof fn lemma_radix_le_snoc(s: Seq<u8>, x: u8, radix: nat)
    ensures
        radix_val_le(s.push(x), radix) == radix_val_le(s, radix) + (x as nat) * pow(
            radix as int,
            s.len(),
        ),
    decreases s.len(),
{
    if s.len() == 0 {
        assert(s.push(x).drop_first() =~= Seq::<u8>::empty());
        assert(radix_val_le(Seq::<u8>::empty(), radix) == 0);
        assert(s.push(x)[0] == x);
        assert(radix_val_le(s.push(x), radix) == x as nat + radix * radix_val_le(
            s.push(x).drop_first(),
            radix,
        ));
        assert(radix * 0 == 0) by (nonlinear_arith);
        assert(radix_val_le(s.push(x), radix) == x as nat);
        vstd::arithmetic::power::lemma_pow0(radix as int);
        assert((x as nat) * pow(radix as int, 0) == x as nat) by (nonlinear_arith)
            requires
                pow(radix as int, 0) == 1,
        ;
    } else {
        assert(s.push(x).drop_first() =~= s.drop_first().push(x));
        lemma_radix_le_snoc(s.drop_first(), x, radix);
        let p1 = pow(radix as int, (s.len() - 1) as nat);
        assert(pow(radix as int, s.len()) == radix * p1) by {
            vstd::arithmetic::power::lemma_pow_adds(radix as int, 1, (s.len() - 1) as nat);
            vstd::arithmetic::power::lemma_pow1(radix as int);
        }
        assert(radix * (radix_val_le(s.drop_first(), radix) + (x as nat) * p1) == radix
            * radix_val_le(s.drop_first(), radix) + (x as nat) * (radix * p1))
            by (nonlinear_arith);
    }
}

/// Dropping a most significant zero digit keeps the denoted value.
pub proof fn lemma_radix_le_drop_last_zero(s: Seq<u8>, radix: nat)
    requires
        s.len() > 0,
        s.last() == 0,
    ensures
        radix_val_le(s.drop_last(), radix) == radix_val_le(s, radix),
{
    assert(s =~= s.drop_last().push(s.last()));
    lemma_radix_le_snoc(s.drop_last(), s.last(), radix);
}

/// A digit sequence with a nonzero most significant digit denotes a nonzero
/// value.
pub proof fn lemma_radix_le_pos(s: Seq<u8>, radix: nat)
    requires
        radix >= 1,
        s.len() > 0,
        s.last() != 0,
    ensures
        radix_val_le(s, radix) > 0,
    decreases s.len(),
{
    if s.len() == 1 {
    } else {
        assert(s.drop_first().last() == s.last());
        lemma_radix_le_pos(s.drop_first(), radix);
        assert(radix * radix_val_le(s.drop_first(), radix) >= 1) by (nonlinear_arith)
            requires
                radix >= 1,
                radix_val_le(s.drop_first(), radix) >= 1,
        ;
    }
}

/// One power of 256 spans four powers of two limb-bytes wide.
proof fn lemma_pow256_is_pow2(k: nat)
    ensures
        pow(256, 4 * k) == pow2(32 * k),
{
    lemma_pow2(32 * k);
    lemma_pow_multiplies(2, 8, 4 * k);
    lemma_pow2(8);
    vstd::arithmetic::power2::lemma2_to64();
    assert(8 * (4 * k) == 32 * k) by (nonlinear_arith);
}

impl BigUint {
    /// The little-endian base-256 encoding, with no superfluous trailing zero
    /// byte; zero encodes as the empty buffer.
    pub fn to_bytes_le(&self) -> (r: Vec<u8>)
        requires
            self.wf(),
        ensures
            radix_val_le(r@, 256) == self.as_nat(),
            r@.len() > 0 ==> r@.last() != 0,
            (r@.len() == 0) == (self.as_nat() == 0),
    {
        let mut out: Vec<u8> = Vec::new();
        let mut k: usize = 0;
        proof {
            assert(self.limbs@.take(0) =~= Seq::<u32>::empty());
            assert(nat_of(self.limbs@.take(0)) == 0);
        }
        while k < self.limbs.len()
            invariant
                self.wf(),
                k <= self.limbs@.len(),
                out@.len() == 4 * k,
                radix_val_le(out@, 256) == nat_of(self.limbs@.take(k as int)),
            decreases self.limbs@.len() - k,
        {
            let l = self.limbs[k];
            proof {
                assert((l & 0xFF) < 256 && ((l >> 8) & 0xFF) < 256 && ((l >> 16) & 0xFF) < 256 && (
                (l >> 24) & 0xFF) < 256) by (bit_vector);
            }
            let b0 = (l & 0xFF) as u8;
            let b1 = ((l >> 8) & 0xFF) as u8;
            let b2 = ((l >> 16) & 0xFF) as u8;
            let b3 = ((l >> 24) & 0xFF) as u8;
            let ghost o0 = out@;
            out.push(b0);
            out.push(b1);
            out.push(b2);
            out.push(b3);
            proof {
                assert(l == (l & 0xFF) + 0x100 * ((l >> 8) & 0xFF) + 0x10000 * ((l >> 16) & 0xFF)
                    + 0x1000000 * ((l >> 24) & 0xFF)) by (bit_vector);
                assert(out@ =~= o0.push(b0).push(b1).push(b2).push(b3));
                let p = pow(256, (4 * k) as nat);
                lemma_radix_le_snoc(o0, b0, 256);
                lemma_radix_le_snoc(o0.push(b0), b1, 256);
                lemma_radix_le_snoc(o0.push(b0).push(b1), b2, 256);
                lemma_radix_le_snoc(o0.push(b0).push(b1).push(b2), b3, 256);
                vstd::arithmetic::power::lemma_pow_adds(256, (4 * k) as nat, 1);
                vstd::arithmetic::power::lemma_pow_adds(256, (4 * k) as nat, 2);
                vstd::arithmetic::power::lemma_pow_adds(256, (4 * k) as nat, 3);
                vstd::arithmetic::power::lemma_pow1(256);
                assert(pow(256, 2) == 0x10000) by {
                    vstd::arithmetic::power::lemma_pow_adds(256, 1, 1);
                }
                assert(pow(256, 3) == 0x1000000) by {
                    vstd::arithmetic::power::lemma_pow_adds(256, 2, 1);
                }
                assert(radix_val_le(o0, 256) + (b0 as nat) * p + (b1 as nat) * (p * 0x100) + (
                b2 as nat) * (p * 0x10000) + (b3 as nat) * (p * 0x1000000) == radix_val_le(o0, 256)
                    + ((b0 as nat + 0x100 * (b1 as nat) + 0x10000 * (b2 as nat) + 0x1000000 * (
                b3 as nat)) * p)) by (nonlinear_arith);
                lemma_pow256_is_pow2(k as nat);
                lemma_nat_of_take_succ(self.limbs@, k as int);
                assert((l as nat) * pow2((32 * k) as nat) == pow2((32 * k) as nat) * (l as nat))
                    by (nonlinear_arith);
            }
            k = k + 1;
        }
        proof {
            lemma_nat_of_take_full(self.limbs@);
        }
        while out.len() > 0 && out[out.len() - 1] == 0
            invariant
                radix_val_le(out@, 256) == self.as_nat(),
            decreases out@.len(),
        {
            proof {
                lemma_radix_le_drop_last_zero(out@, 256);
            }
            out.pop();
        }
        proof {
            if out@.len() > 0 {
                lemma_radix_le_pos(out@, 256);
            }
        }
        out
    }

    /// Decodes a little-endian base-256 buffer; the empty buffer is zero.
    pub fn from_bytes_le(bytes: &[u8]) -> (r: BigUint)
        ensures
            r.wf(),
            r.as_nat() == radix_val_le(bytes@, 256),
    {
        let mut padded = vstd::slice::slice_to_vec(bytes);
        while padded.len() % 4 != 0
            invariant
                radix_val_le(padded@, 256) == radix_val_le(bytes@, 256),
            decreases (4 - padded@.len() % 4) % 4,
        {
            proof {
                lemma_radix_le_snoc(padded@, 0, 256);
                assert((0u8 as nat) * pow(256, padded@.len()) == 0) by (nonlinear_arith);
            }
            padded.push(0);
        }
        let mut v: Vec<u32> = Vec::new();
        let mut i: usize = 0;
        proof {
            assert(padded@.take(0) =~= Seq::<u8>::empty());
            assert(v@ =~= Seq::<u32>::empty());
        }
        while i < padded.len()
            invariant
                padded@.len() % 4 == 0,
                i == 4 * v@.len(),
                i <= padded@.len(),
                nat_of(v@) == radix_val_le(padded@.take(i as int), 256),
            decreases padded@.len() - i,
        {
            proof {
                assert((padded@.len() - i) % 4 == 0) by {
                    vstd::arithmetic::div_mod::lemma_mod_multiples_vanish(
                        (v@.len()) as int,
                        (padded@.len() - i) as int,
                        4,
                    );
                    assert(4 * (v@.len() as int) + (padded@.len() - i) == padded@.len());
                }
                if padded@.len() - i < 4 {
                    assert(padded@.len() - i >= 1);
                    assert(false) by {
                        assert((padded@.len() - i) % 4 == padded@.len() - i) by {
                            vstd::arithmetic::div_mod::lemma_small_mod(
                                (padded@.len() - i) as nat,
                                4,
                            );
                        }
                    }
                }
            }
            let b0 = padded[i];
            let b1 = padded[i + 1];
            let b2 = padded[i + 2];
            let b3 = padded[i + 3];
            let l: u32 = (b0 as u32) | ((b1 as u32) << 8) | ((b2 as u32) << 16) | ((b3 as u32)
                << 24);
            proof {
                let bb0 = b0;
                let bb1 = b1;
                let bb2 = b2;
                let bb3 = b3;
                assert(l == (bb0 as u32) + 0x100 * (bb1 as u32) + 0x10000 * (bb2 as u32)
                    + 0x1000000 * (bb3 as u32)) by (bit_vector)
                    requires
                        l == (bb0 as u32) | ((bb1 as u32) << 8) | ((bb2 as u32) << 16) | ((
                        bb3 as u32) << 24),
                ;
                let t0 = padded@.take(i as int);
                assert(padded@.take(i + 4) =~= t0.push(b0).push(b1).push(b2).push(b3));
                let p = pow(256, i as nat);
                lemma_radix_le_snoc(t0, b0, 256);
                lemma_radix_le_snoc(t0.push(b0), b1, 256);
                lemma_radix_le_snoc(t0.push(b0).push(b1), b2, 256);
                lemma_radix_le_snoc(t0.push(b0).push(b1).push(b2), b3, 256);
                vstd::arithmetic::power::lemma_pow_adds(256, i as nat, 1);
                vstd::arithmetic::power::lemma_pow_adds(256, i as nat, 2);
                vstd::arithmetic::power::lemma_pow_adds(256, i as nat, 3);
                vstd::arithmetic::power::lemma_pow1(256);
                assert(pow(256, 2) == 0x10000) by {
                    vstd::arithmetic::power::lemma_pow_adds(256, 1, 1);
                }
                assert(pow(256, 3) == 0x1000000) by {
                    vstd::arithmetic::power::lemma_pow_adds(256, 2, 1);
                }
                assert(radix_val_le(t0, 256) + (b0 as nat) * p + (b1 as nat) * (p * 0x100) + (
                b2 as nat) * (p * 0x10000) + (b3 as nat) * (p * 0x1000000) == radix_val_le(t0, 256)
                    + ((b0 as nat + 0x100 * (b1 as nat) + 0x10000 * (b2 as nat) + 0x1000000 * (
                b3 as nat)) * p)) by (nonlinear_arith);
                crate::limbs::lemma_nat_of_snoc(v@, l);
                assert(4 * (v@.len() + 1) == i + 4) by (nonlinear_arith)
                    requires
                        i == 4 * v@.len(),
                ;
                lemma_pow256_is_pow2(v@.len());
                assert(4 * v@.len() == i);
            }
            v.push(l);
            i = i + 4;
        }
        proof {
            assert(padded@.take(padded@.len() as int) =~= padded@);
        }
        BigUint::from_limbs(v)
    }

    /// Reverses a digit buffer, turning one endianness into the other.
    fn reverse_digits(v: &[u8]) -> (r: Vec<u8>)
        ensures
            r@.len() == v@.len(),
            forall|t: int| 0 <= t < v@.len() ==> r@[t] == v@[v@.len() - 1 - t],
            forall|radix: nat| radix_val_be(r@, radix) == radix_val_le(v@, radix),
    {
        let mut out: Vec<u8> = Vec::new();
        let mut j = v.len();
        while j > 0
            invariant
                j <= v@.len(),
                out@.len() == v@.len() - j,
                forall|t: int| 0 <= t < out@.len() ==> out@[t] == v@[v@.len() - 1 - t],
                forall|radix: nat|
                    #[trigger] radix_val_be(out@, radix) == radix_val_le(v@.skip(j as int), radix),
            decreases j,
        {
            j = j - 1;
            let ghost o0 = out@;
            out.push(v[j]);
            proof {
                assert forall|radix: nat|
                    #[trigger] radix_val_be(out@, radix) == radix_val_le(
                        v@.skip(j as int),
                        radix,
                    ) by {
                    assert(out@.drop_last() =~= o0);
                    assert(out@.last() == v@[j as int]);
                    assert(v@.skip(j as int).drop_first() =~= v@.skip(j as int + 1));
                    assert(v@.skip(j as int)[0] == v@[j as int]);
                    assert(radix_val_be(o0, radix) * radix == radix * radix_val_le(
                        v@.skip(j as int + 1),
                        radix,
                    )) by (nonlinear_arith)
                        requires
                            radix_val_be(o0, radix) == radix_val_le(v@.skip(j as int + 1), radix),
                    ;
                }
            }
        }
        proof {
            assert(v@.skip(0) =~= v@);
        }
        out
    }

    /// The big-endian base-256 encoding, with no superfluous leading zero
    /// byte; zero encodes as the empty buffer.
    pub fn to_bytes_be(&self) -> (r: Vec<u8>)
        requires
            self.wf(),
        ensures
            radix_val_be(r@, 256) == self.as_nat(),
            r@.len() > 0 ==> r@[0] != 0,
            (r@.len() == 0) == (self.as_nat() == 0),
    {
        let le = self.to_bytes_le();
        BigUint::reverse_digits(le.as_slice())
    }

    /// Decodes a big-endian base-256 buffer; the empty buffer is zero.
    pub fn from_bytes_be(bytes: &[u8]) -> (r: BigUint)
        ensures
            r.wf(),
            r.as_nat() == radix_val_be(bytes@, 256),
    {
        let rev = BigUint::reverse_digits(bytes);
        let r = BigUint::from_bytes_le(rev.as_slice());
        proof {
            assert(bytes@.skip(0) =~= bytes@);
            assert(radix_val_be(rev@, 256) == radix_val_le(bytes@, 256));
            lemma_radix_rev(bytes@, rev@, 256);
        }
        r
    }

    /// The little-endian digits of this magnitude in the given radix, one per
    /// byte, with no superfluous most significant zero digit.
    pub fn to_radix_le(&self, radix: u32) -> (r: Vec<u8>)
        requires
            self.wf(),
            2 <= radix <= 256,
        ensures
            forall|t: int| 0 <= t < r@.len() ==> (#[trigger] r@[t] as nat) < radix as nat,
            radix_val_le(r@, radix as nat) == self.as_nat(),
            r@.len() > 0 ==> r@.last() != 0,
            (r@.len() == 0) == (self.as_nat() == 0),
    {
        if radix == 256 {
            return self.to_bytes_le();
        }
        let mut out: Vec<u8> = Vec::new();
        let mut cur = self.clone();
        proof {
            vstd::arithmetic::power::lemma_pow0(radix as int);
            assert(cur.as_nat() * pow(radix as int, 0) == cur.as_nat()) by (nonlinear_arith)
                requires
                    pow(radix as int, 0) == 1,
            ;
        }
        while cur.limbs.len() > 0
            invariant
                self.wf(),
                cur.wf(),
                2 <= radix < 256,
                self.as_nat() == cur.as_nat() * pow(radix as int, out@.len()) + radix_val_le(
                    out@,
                    radix as nat,
                ),
                forall|t: int| 0 <= t < out@.len() ==> (#[trigger] out@[t] as nat) < radix as nat,
                out@.len() > 0 ==> (cur.as_nat() > 0 || out@.last() != 0),
            decreases cur.as_nat(),
        {
            proof {
                lemma_nat_of_normalized_pos(cur.limbs@);
            }
            let (q, d) = cur.divmod_small(radix);
            proof {
                assert(q.as_nat() < cur.as_nat()) by (nonlinear_arith)
                    requires
                        q.as_nat() * (radix as nat) + (d as nat) == cur.as_nat(),
                        radix >= 2,
                        cur.as_nat() >= 1,
                ;
                lemma_radix_le_snoc(out@, d as u8, radix as nat);
                let pp = pow(radix as int, out@.len());
                assert(pow(radix as int, out@.len() + 1) == radix * pp) by {
                    vstd::arithmetic::power::lemma_pow_adds(radix as int, 1, out@.len());
                    vstd::arithmetic::power::lemma_pow1(radix as int);
                }
                assert(cur.as_nat() * pp == q.as_nat() * ((radix as nat) * pp) + (d as nat) * pp)
                    by (nonlinear_arith)
                    requires
                        cur.as_nat() == q.as_nat() * (radix as nat) + (d as nat),
                ;
                if q.as_nat() == 0 {
                    assert(q.as_nat() * (radix as nat) == 0) by (nonlinear_arith)
                        requires
                            q.as_nat() == 0,
                    ;
                    assert(d as nat == cur.as_nat());
                }
            }
            out.push(d as u8);
            cur = q;
        }
        proof {
            assert(cur.as_nat() * pow(radix as int, out@.len()) == 0) by (nonlinear_arith)
                requires
                    cur.as_nat() == 0,
            ;
            if out@.len() > 0 {
                lemma_radix_le_pos(out@, radix as nat);
            }
        }
        out
    }

    /// The big-endian digits of this magnitude in the given radix.
    pub fn to_radix_be(&self, radix: u32) -> (r: Vec<u8>)
        requires
            self.wf(),
            2 <= radix <= 256,
        ensures
            forall|t: int| 0 <= t < r@.len() ==> (#[trigger] r@[t] as nat) < radix as nat,
            radix_val_be(r@, radix as nat) == self.as_nat(),
            r@.len() > 0 ==> r@[0] != 0,
            (r@.len() == 0) == (self.as_nat() == 0),
    {
        let le = self.to_radix_le(radix);
        BigUint::reverse_digits(le.as_slice())
    }

    /// Reads little-endian digits in the given radix; `None` exactly when the
    /// radix is unsupported or a digit is out of range.  The empty buffer is
    /// zero.
    pub fn from_radix_le(buf: &[u8], radix: u32) -> (r: Option<BigUint>)
        ensures
            r is Some <==> (2 <= radix <= 256 && forall|t: int|
                0 <= t < buf@.len() ==> (#[trigger] buf@[t] as nat) < radix as nat),
            r is Some ==> r->0.wf() && r->0.as_nat() == radix_val_le(buf@, radix as nat),
    {
        if radix < 2 || radix > 256 {
            return None;
        }
        if radix == 256 {
            return Some(BigUint::from_bytes_le(buf));
        }
        let mut t: usize = 0;
        while t < buf.len()
            invariant
                t <= buf@.len(),
                radix < 256,
                forall|u: int| 0 <= u < t ==> (#[trigger] buf@[u] as nat) < radix as nat,
            decreases buf@.len() - t,
        {
            if buf[t] as u32 >= radix {
                return None;
            }
            t = t + 1;
        }
        let mut acc = BigUint::zero();
        let mut j = buf.len();
        proof {
            assert(buf@.skip(j as int) =~= Seq::<u8>::empty());
        }
        while j > 0
            invariant
                acc.wf(),
                j <= buf@.len(),
                2 <= radix < 256,
                forall|u: int| 0 <= u < buf@.len() ==> (#[trigger] buf@[u] as nat) < radix as nat,
                acc.as_nat() == radix_val_le(buf@.skip(j as int), radix as nat),
            decreases j,
        {
            j = j - 1;
            let ghost a0 = acc.as_nat();
            acc = acc.mul_small(radix, buf[j] as u32);
            proof {
                assert(buf@.skip(j as int).drop_first() =~= buf@.skip(j as int + 1));
                assert(buf@.skip(j as int)[0] == buf@[j as int]);
                assert(a0 * (radix as nat) == (radix as nat) * a0) by (nonlinear_arith);
            }
        }
        proof {
            assert(buf@.skip(0) =~= buf@);
        }
        Some(acc)
    }

    /// Reads big-endian digits in the given radix; `None` exactly when the
    /// radix is unsupported or a digit is out of range.  The empty buffer is
    /// zero.
    pub fn from_radix_be(buf: &[u8], radix: u32) -> (r: Option<BigUint>)
        ensures
            r is Some <==> (2 <= radix <= 256 && forall|t: int|
                0 <= t < buf@.len() ==> (#[trigger] buf@[t] as nat) < radix as nat),
            r is Some ==> r->0.wf() && r->0.as_nat() == radix_val_be(buf@, radix as nat),
    {
        let rev = BigUint::reverse_digits(buf);
        let r = BigUint::from_radix_le(rev.as_slice(), radix);
        proof {
            lemma_radix_rev(buf@, rev@, radix as nat);
            assert(forall|t: int| 0 <= t < rev@.len() ==> rev@[t] == buf@[buf@.len() - 1 - t]);
            if forall|t: int| 0 <= t < buf@.len() ==> (#[trigger] buf@[t] as nat) < radix as nat {
                assert(forall|t: int|
                    0 <= t < rev@.len() ==> (#[trigger] rev@[t] as nat) < radix as nat);
            }
            if forall|t: int| 0 <= t < rev@.len() ==> (#[trigger] rev@[t] as nat) < radix as nat {
                assert forall|t: int|
                    0 <= t < buf@.len() implies (#[trigger] buf@[t] as nat) < radix as nat by {
                    assert(rev@[buf@.len() - 1 - t] == buf@[t]);
                    assert((rev@[buf@.len() - 1 - t] as nat) < radix as nat);
                }
            }
        }
        r
    }

    /// Reads ASCII digit codes, most significant first.
    fn parse_ascii_digits(bytes: &[u8], radix: u32) -> (r: Option<BigUint>)
        requires
            2 <= radix <= 36,
        ensures
            r is Some <==> (forall|t: int|
                0 <= t < bytes@.len() ==> u32_digit(#[trigger] bytes@[t] as u32) < radix as nat),
            r is Some ==> r->0.wf() && r->0.as_nat() == ascii_val(bytes@, radix as nat),
    {
        let mut acc = BigUint::zero();
        let mut i: usize = 0;
        proof {
            assert(bytes@.take(0) =~= Seq::<u8>::empty());
        }
        while i < bytes.len()
            invariant
                acc.wf(),
                i <= bytes@.len(),
                2 <= radix <= 36,
                forall|t: int| 0 <= t < i ==> u32_digit(#[trigger] bytes@[t] as u32) < radix as nat,
                acc.as_nat() == ascii_val(bytes@.take(i as int), radix as nat),
            decreases bytes@.len() - i,
        {
            let u = bytes[i] as u32;
            let d: u32 = if 48 <= u && u <= 57 {
                u - 48
            } else if 97 <= u && u <= 122 {
                u - 87
            } else if 65 <= u && u <= 90 {
                u - 55
            } else {
                99
            };
            if d >= radix {
                return None;
            }
            let ghost a0 = acc.as_nat();
            acc = acc.mul_small(radix, d);
            proof {
                assert(bytes@.take(i + 1).drop_last() =~= bytes@.take(i as int));
                assert(bytes@.take(i + 1).last() == bytes@[i as int]);
                assert(a0 * (radix as nat) == (radix as nat) * a0) by (nonlinear_arith);
            }
            i = i + 1;
        }
        proof {
            assert(bytes@.take(bytes@.len() as int) =~= bytes@);
        }
        Some(acc)
    }

    /// Reads ASCII digit text in the given radix; `None` exactly when the
    /// radix is unsupported, the buffer is empty, or a byte is no digit of
    /// the radix.
    pub fn parse_bytes(buf: &[u8], radix: u32) -> (r: Option<BigUint>)
        ensures
            r is Some <==> (2 <= radix <= 36 && buf@.len() > 0 && forall|t: int|
                0 <= t < buf@.len() ==> u32_digit(#[trigger] buf@[t] as u32) < radix as nat),
            r is Some ==> r->0.wf() && r->0.as_nat() == ascii_val(buf@, radix as nat),
    {
        if radix < 2 || radix > 36 {
            return None;
        }
        if buf.len() == 0 {
            return None;
        }
        BigUint::parse_ascii_digits(buf, radix)
    }

    /// Parses digit text in the given radix, reporting which malformation
    /// was found: an unsupported radix, an empty string, or an invalid digit.
    pub fn from_str_radix(s: &str, radix: u32) -> (r: Result<BigUint, ParseBigIntError>)
        ensures
            r is Ok <==> (2 <= radix <= 36 && s@.len() > 0 && valid_digits(s@, radix as nat)),
            r is Ok ==> r->Ok_0.wf() && r->Ok_0.as_nat() == str_val(s@, radix as nat),
            !(2 <= radix <= 36) ==> r == Result::<BigUint, ParseBigIntError>::Err(
                ParseBigIntError::InvalidRadix,
            ),
            (2 <= radix <= 36 && s@.len() == 0) ==> r == Result::<BigUint, ParseBigIntError>::Err(
                ParseBigIntError::Empty,
            ),
            (2 <= radix <= 36 && s@.len() > 0 && !valid_digits(s@, radix as nat)) ==> r
                == Result::<BigUint, ParseBigIntError>::Err(ParseBigIntError::InvalidDigit),
    {
        if radix < 2 || radix > 36 {
            return Err(ParseBigIntError::InvalidRadix);
        }
        let n = s.unicode_len();
        if n == 0 {
            return Err(ParseBigIntError::Empty);
        }
        let mut acc = BigUint::zero();
        let mut i: usize = 0;
        proof {
            assert(s@.take(0) =~= Seq::<char>::empty());
        }
        while i < n
            invariant
                acc.wf(),
                i <= n,
                n == s@.len(),
                2 <= radix <= 36,
                forall|t: int| 0 <= t < i ==> #[trigger] char_digit(s@[t]) < radix as nat,
                acc.as_nat() == str_val(s@.take(i as int), radix as nat),
            decreases n - i,
        {
            let c = s.get_char(i);
            let u = c as u32;
            let d: u32 = if 48 <= u && u <= 57 {
                u - 48
            } else if 97 <= u && u <= 122 {
                u - 87
            } else if 65 <= u && u <= 90 {
                u - 55
            } else {
                99
            };
            if d >= radix {
                proof {
                    assert(char_digit(s@[i as int]) >= radix as nat);
                }
                return Err(ParseBigIntError::InvalidDigit);
            }
            let ghost a0 = acc.as_nat();
            acc = acc.mul_small(radix, d);
            proof {
                assert(s@.take(i + 1).drop_last() =~= s@.take(i as int));
                assert(s@.take(i + 1).last() == s@[i as int]);
                assert(a0 * (radix as nat) == (radix as nat) * a0) by (nonlinear_arith);
            }
            i = i + 1;
        }
        proof {
            assert(s@.take(s@.len() as int) =~= s@);
        }
        Ok(acc)
    }

    /// Parses decimal text.
    pub fn from_str(s: &str) -> (r: Result<BigUint, ParseBigIntError>)
        ensures
            r is Ok <==> (s@.len() > 0 && valid_digits(s@, 10)),
            r is Ok ==> r->Ok_0.wf() && r->Ok_0.as_nat() == str_val(s@, 10),
            s@.len() == 0 ==> r == Result::<BigUint, ParseBigIntError>::Err(
                ParseBigIntError::Empty,
            ),
            (s@.len() > 0 && !valid_digits(s@, 10)) ==> r == Result::<
                BigUint,
                ParseBigIntError,
            >::Err(ParseBigIntError::InvalidDigit),
    {
        BigUint::from_str_radix(s, 10)
    }

    /// Renders this magnitude as digit text in the given radix, lower case,
    /// with no leading zero; zero renders as a single zero digit.
    pub fn to_str_radix(&self, radix: u32) -> (r: String)
        requires
            self.wf(),
            2 <= radix <= 36,
        ensures
            r@.len() > 0,
            valid_digits(r@, radix as nat),
            str_val(r@, radix as nat) == self.as_nat(),
            r@.len() > 1 ==> char_digit(r@[0]) != 0,
    {
        let digits = self.to_radix_le(radix);
        let mut bs: Vec<u8> = Vec::new();
        if digits.len() == 0 {
            bs.push(48);
            proof {
                assert(bs@.drop_last() =~= Seq::<u8>::empty());
                assert(ascii_val(bs@.drop_last(), radix as nat) == 0);
                assert(ascii_val(bs@, radix as nat) == 0) by (nonlinear_arith)
                    requires
                        ascii_val(bs@, radix as nat) == ascii_val(bs@.drop_last(), radix as nat) * (
                        radix as nat) + u32_digit(48),
                        ascii_val(bs@.drop_last(), radix as nat) == 0,
                        u32_digit(48) == 0,
                ;
            }
        } else {
            let mut j = digits.len();
            proof {
                assert(digits@.skip(j as int) =~= Seq::<u8>::empty());
            }
            while j > 0
                invariant
                    j <= digits@.len(),
                    2 <= radix <= 36,
                    bs@.len() == digits@.len() - j,
                    forall|t: int| 0 <= t < digits@.len() ==> (#[trigger] digits@[t] as nat)
                        < radix as nat,
                    digits@.len() > 0 && digits@.last() != 0,
                    ascii_val(bs@, radix as nat) == radix_val_le(
                        digits@.skip(j as int),
                        radix as nat,
                    ),
                    forall|t: int| 0 <= t < bs@.len() ==> 48 <= #[trigger] bs@[t] && bs@[t] <= 122
                        && u32_digit(bs@[t] as u32) < radix as nat,
                    bs@.len() > 0 ==> u32_digit(bs@[0] as u32) == digits@.last() as nat,
                decreases j,
            {
                j = j - 1;
                let d = digits[j];
                let b: u8 = if d < 10 {
                    48 + d
                } else {
                    87 + d
                };
                let ghost b0 = bs@;
                bs.push(b);
                proof {
                    assert(u32_digit(b as u32) == d as nat);
                    assert(bs@.drop_last() =~= b0);
                    assert(bs@.last() == b);
                    assert(digits@.skip(j as int).drop_first() =~= digits@.skip(j as int + 1));
                    assert(digits@.skip(j as int)[0] == digits@[j as int]);
                    assert(ascii_val(b0, radix as nat) * (radix as nat) == (radix as nat)
                        * radix_val_le(digits@.skip(j as int + 1), radix as nat))
                        by (nonlinear_arith)
                        requires
                            ascii_val(b0, radix as nat) == radix_val_le(
                                digits@.skip(j as int + 1),
                                radix as nat,
                            ),
                    ;
                }
            }
            proof {
                assert(digits@.skip(0) =~= digits@);
            }
        }
        let out = ascii_to_string(bs);
        proof {
            assert forall|i: int| 0 <= i < out@.len() implies char_digit(out@[i]) == u32_digit(
                #[trigger] bs@[i] as u32,
            ) by {
                assert((out@[i] as u32) == (bs@[i] as u32));
            }
            lemma_str_val_bytes(out@, bs@, radix as nat);
            assert forall|i: int| 0 <= i < out@.len() implies #[trigger] char_digit(out@[i])
                < radix as nat by {
                assert(char_digit(out@[i]) == u32_digit(bs@[i] as u32));
                if bs@.len() == 1 && bs@[0] == 48 {
                    assert(u32_digit(48) == 0);
                }
            }
        }
        out
    }

    /// Renders this magnitude as digit text in the given radix, upper case,
    /// with no leading zero; zero renders as a single zero digit.
    pub fn to_str_radix_uppercase(&self, radix: u32) -> (r: String)
        requires
            self.wf(),
            2 <= radix <= 36,
        ensures
            r@.len() > 0,
            valid_digits(r@, radix as nat),
            str_val(r@, radix as nat) == self.as_nat(),
            r@.len() > 1 ==> char_digit(r@[0]) != 0,
    {
        let digits = self.to_radix_le(radix);
        let mut bs: Vec<u8> = Vec::new();
        if digits.len() == 0 {
            bs.push(48);
            proof {
                assert(bs@.drop_last() =~= Seq::<u8>::empty());
                assert(ascii_val(bs@.drop_last(), radix as nat) == 0);
                assert(ascii_val(bs@, radix as nat) == 0) by (nonlinear_arith)
                    requires
                        ascii_val(bs@, radix as nat) == ascii_val(bs@.drop_last(), radix as nat) * (
                        radix as nat) + u32_digit(48),
                        ascii_val(bs@.drop_last(), radix as nat) == 0,
                        u32_digit(48) == 0,
                ;
            }
        } else {
            let mut j = digits.len();
            proof {
                assert(digits@.skip(j as int) =~= Seq::<u8>::empty());
            }
            while j > 0
                invariant
                    j <= digits@.len(),
                    2 <= radix <= 36,
                    bs@.len() == digits@.len() - j,
                    forall|t: int| 0 <= t < digits@.len() ==> (#[trigger] digits@[t] as nat)
                        < radix as nat,
                    digits@.len() > 0 && digits@.last() != 0,
                    ascii_val(bs@, radix as nat) == radix_val_le(
                        digits@.skip(j as int),
                        radix as nat,
                    ),
                    forall|t: int| 0 <= t < bs@.len() ==> 48 <= #[trigger] bs@[t] && bs@[t] <= 90
                        && u32_digit(bs@[t] as u32) < radix as nat,
                    bs@.len() > 0 ==> u32_digit(bs@[0] as u32) == digits@.last() as nat,
                decreases j,
            {
                j = j - 1;
                let d = digits[j];
                let b: u8 = if d < 10 {
                    48 + d
                } else {
                    55 + d
                };
                let ghost b0 = bs@;
                bs.push(b);
                proof {
                    assert(u32_digit(b as u32) == d as nat);
                    assert(bs@.drop_last() =~= b0);
                    assert(bs@.last() == b);
                    assert(digits@.skip(j as int).drop_first() =~= digits@.skip(j as int + 1));
                    assert(digits@.skip(j as int)[0] == digits@[j as int]);
                    assert(ascii_val(b0, radix as nat) * (radix as nat) == (radix as nat)
                        * radix_val_le(digits@.skip(j as int + 1), radix as nat))
                        by (nonlinear_arith)
                        requires
                            ascii_val(b0, radix as nat) == radix_val_le(
                                digits@.skip(j as int + 1),
                                radix as nat,
                            ),
                    ;
                }
            }
            proof {
                assert(digits@.skip(0) =~= digits@);
            }
        }
        let out = ascii_to_string(bs);
        proof {
            assert forall|i: int| 0 <= i < out@.len() implies char_digit(out@[i]) == u32_digit(
                #[trigger] bs@[i] as u32,
            ) by {
                assert((out@[i] as u32) == (bs@[i] as u32));
            }
            lemma_str_val_bytes(out@, bs@, radix as nat);
            assert forall|i: int| 0 <= i < out@.len() implies #[trigger] char_digit(out@[i])
                < radix as nat by {
                assert(char_digit(out@[i]) == u32_digit(bs@[i] as u32));
                if bs@.len() == 1 && bs@[0] == 48 {
                    assert(u32_digit(48) == 0);
                }
            }
        }
        out
    }

    /// The little-endian base-2^32 digits, one per entry.
    pub fn to_u32_digits(&self) -> (r: Vec<u32>)
        ensures
            r@ == self.limb_seq(),
    {
        vstd::slice::slice_to_vec(self.limbs.as_slice())
    }

    /// The little-endian base-2^64 digits, one per entry: consecutive limb
    /// pairs packed low-first.
    pub fn to_u64_digits(&self) -> (r: Vec<u64>)
        ensures
            r@.len() == (self.limb_seq().len() + 1) / 2,
            forall|t: int|
                0 <= t < r@.len() ==> (#[trigger] r@[t] as nat) == self.limb_seq()[2 * t] as nat
                    + 0x1_0000_0000 * (if 2 * t + 1 < self.limb_seq().len() {
                    self.limb_seq()[2 * t + 1] as nat
                } else {
                    0
                }),
    {
        let mut out: Vec<u64> = Vec::new();
        let mut i: usize = 0;
        while i + 1 < self.limbs.len()
            invariant
                i <= self.limbs@.len(),
                i == 2 * out@.len(),
                forall|t: int|
                    0 <= t < out@.len() ==> (#[trigger] out@[t] as nat) == self.limbs@[2 * t] as nat
                        + 0x1_0000_0000 * (if 2 * t + 1 < self.limbs@.len() {
                        self.limbs@[2 * t + 1] as nat
                    } else {
                        0
                    }),
            decreases self.limbs@.len() - i,
        {
            let lo = self.limbs[i];
            let hi: u32 = self.limbs[i + 1];
            let d: u64 = lo as u64 | ((hi as u64) << 32);
            proof {
                let llo = lo;
                let lhi = hi;
                assert(d == (llo as u64) + 0x1_0000_0000u64 * (lhi as u64)) by (bit_vector)
                    requires
                        d == llo as u64 | ((lhi as u64) << 32),
                ;
            }
            out.push(d);
            i = i + 2;
        }
        if i < self.limbs.len() {
            out.push(self.limbs[i] as u64);
        }
        out
    }
}

/// Relies on String::from_utf8: bytes below 128 decode to the characters
/// with the same code points, one character per byte.
#[verifier::external_body]
fn ascii_to_string(bytes: Vec<u8>) -> (r: String)
    requires
        forall|i: int| 0 <= i < bytes@.len() ==> bytes@[i] < 128,
    ensures
        r@.len() == bytes@.len(),
        forall|i: int| 0 <= i < bytes@.len() ==> (r@[i] as u32) == (#[trigger] bytes@[i] as u32),
{
    String::from_utf8(bytes).unwrap_or_default()
}

/// Reversal swaps the two digit orders in both directions.
proof fn lemma_radix_rev(v: Seq<u8>, r: Seq<u8>, radix: nat)
    requires
        r.len() == v.len(),
        forall|t: int| 0 <= t < v.len() ==> r[t] == v[v.len() - 1 - t],
    ensures
        radix_val_le(r, radix) == radix_val_be(v, radix),
    decreases v.len(),
{
    if v.len() > 0 {
        assert(r.drop_first() =~= {
            let d = v.drop_last();
            Seq::new(d.len(), |t: int| d[d.len() - 1 - t])
        });
        let d = v.drop_last();
        let rd = Seq::new(d.len(), |t: int| d[d.len() - 1 - t]);
        lemma_radix_rev(d, rd, radix);
        assert(r[0] == v.last());
        assert(radix_val_le(r, radix) == v.last() as nat + radix * radix_val_be(d, radix));
        assert(radix * radix_val_be(d, radix) == radix_val_be(d, radix) * radix)
            by (nonlinear_arith);
    }
}

} // verus!
