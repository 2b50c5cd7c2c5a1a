//! The cross-operation laws of the engine, each stated over the same spec
//! functions that the operations' contracts use.

use crate::bigint::{lemma_value_determines_limbs, BigUint};
use crate::bitops::{lemma_pop_count_is_ones_below, ones_below, pop_count};
use crate::radix::{radix_val_be, radix_val_le, str_val, valid_digits};
use vstd::arithmetic::div_mod::{lemma_fundamental_div_mod, lemma_mod_bound};
use vstd::arithmetic::power2::pow2;
use vstd::prelude::*;

verus! {

/// Rendering a magnitude as digit text and parsing that text back yields the
/// very magnitude: a digit string determines one value, and a value has one
/// normalized representation.
pub proof fn lemma_render_parse_roundtrip(x: &BigUint, y: &BigUint, s: Seq<char>, radix: u32)
    requires
        x.wf(),
        y.wf(),
        2 <= radix <= 36,
        s.len() > 0,
        valid_digits(s, radix as nat),
        str_val(s, radix as nat) == x.as_nat(),
        y.as_nat() == str_val(s, radix as nat),
    ensures
        y.as_nat() == x.as_nat(),
        y.limb_seq() == x.limb_seq(),
{
    lemma_value_determines_limbs(x, y);
}

/// Encoding a magnitude as big-endian bytes and decoding them back yields
/// the very magnitude.
pub proof fn lemma_bytes_be_roundtrip(x: &BigUint, y: &BigUint, bytes: Seq<u8>)
    requires
        x.wf(),
        y.wf(),
        radix_val_be(bytes, 256) == x.as_nat(),
        y.as_nat() == radix_val_be(bytes, 256),
    ensures
        y.as_nat() == x.as_nat(),
        y.limb_seq() == x.limb_seq(),
{
    lemma_value_determines_limbs(x, y);
}

/// Encoding a magnitude as little-endian bytes and decoding them back yields
/// the very magnitude.
pub proof fn lemma_bytes_le_roundtrip(x: &BigUint, y: &BigUint, bytes: Seq<u8>)
    requires
        x.wf(),
        y.wf(),
        radix_val_le(bytes, 256) == x.as_nat(),
        y.as_nat() == radix_val_le(bytes, 256),
    ensures
        y.as_nat() == x.as_nat(),
        y.limb_seq() == x.limb_seq(),
{
    lemma_value_determines_limbs(x, y);
}

/// Adding and then subtracting the same magnitude is the identity.
pub proof fn lemma_add_sub_cancel(a: nat, b: nat)
    ensures
        (a + b) - b == a,
{
}

/// Quotient and remainder reassemble the dividend, and the remainder stays
/// below the divisor.
pub proof fn lemma_div_rem_identity(a: nat, b: nat)
    requires
        b != 0,
    ensures
        (a / b) * b + a % b == a,
        a % b < b,
{
    lemma_fundamental_div_mod(a as int, b as int);
    lemma_mod_bound(a as int, b as int);
    assert((a / b) * b == b * (a / b)) by (nonlinear_arith);
}

/// One is neutral for multiplication and zero is neutral for addition.
pub proof fn lemma_identity_elements(a: nat)
    ensures
        a * 1 == a,
        a + 0 == a,
{
    assert(a * 1 == a) by (nonlinear_arith);
}

/// Exactly one of the three order relations holds between two well-formed
/// magnitudes; equality of values coincides with equality of the stored
/// limbs; and the order of two magnitudes is the order of the values their
/// decimal renderings denote.
pub proof fn lemma_order_trichotomy(a: &BigUint, b: &BigUint, sa: Seq<char>, sb: Seq<char>)
    requires
        a.wf(),
        b.wf(),
        str_val(sa, 10) == a.as_nat(),
        str_val(sb, 10) == b.as_nat(),
    ensures
        a.as_nat() < b.as_nat() || a.as_nat() == b.as_nat() || a.as_nat() > b.as_nat(),
        !(a.as_nat() < b.as_nat() && a.as_nat() == b.as_nat()),
        !(a.as_nat() < b.as_nat() && a.as_nat() > b.as_nat()),
        !(a.as_nat() == b.as_nat() && a.as_nat() > b.as_nat()),
        (a.as_nat() == b.as_nat()) <==> (a.limb_seq() == b.limb_seq()),
        (a.as_nat() < b.as_nat()) <==> (str_val(sa, 10) < str_val(sb, 10)),
{
    if a.as_nat() == b.as_nat() {
        lemma_value_determines_limbs(a, b);
    }
}

/// The total bit count of a value equals the number of bit positions that
/// hold a set bit, counted up to any width that bounds the value.
pub proof fn lemma_count_ones_counts_positions(v: nat, n: nat)
    requires
        v < pow2(n),
    ensures
        pop_count(v) == ones_below(v, n),
{
    lemma_pop_count_is_ones_below(v, n);
}

} // verus!
