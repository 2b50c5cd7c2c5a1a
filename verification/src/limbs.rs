//! The mathematical model of limb storage: the natural number denoted by a
//! little-endian sequence of 32-bit limbs, and the lemmas that relate that
//! value to sequence operations.

use vstd::arithmetic::div_mod::{
    lemma_fundamental_div_mod_converse, lemma_mod_multiples_vanish,
};
use vstd::arithmetic::power2::{
    lemma2_to64, lemma_pow2_adds, lemma_pow2_pos, lemma_pow2_strictly_increases, pow2,
};
use vstd::prelude::*;

verus! {

/// The radix of limb storage: every limb is one digit in base 2^32.
pub open spec fn limb_base() -> nat {
    0x1_0000_0000
}

/// The natural number denoted by a little-endian limb sequence.
pub open spec fn nat_of(s: Seq<u32>) -> nat
    decreases s.len(),
{
    if s.len() == 0 {
        0
    } else {
        s[0] as nat + limb_base() * nat_of(s.drop_first())
    }
}

/// A limb sequence is normalized when it has no superfluous most-significant
/// zero limb; zero is the empty sequence.
pub open spec fn normalized(s: Seq<u32>) -> bool {
    s.len() == 0 || s[s.len() - 1] != 0
}

/// Appending a limb on the most significant end adds its value scaled by the
/// weight of its position.
pub proof fn lemma_nat_of_snoc(s: Seq<u32>, x: u32)
    ensures
        nat_of(s.push(x)) == nat_of(s) + (x as nat) * pow2(32 * s.len()),
    decreases s.len(),
{
    lemma2_to64();
    if s.len() == 0 {
        assert(s.push(x).drop_first() =~= Seq::<u32>::empty());
        assert(s.push(x)[0] == x);
        assert(nat_of(s.push(x).drop_first()) == 0);
        assert(nat_of(s.push(x)) == x as nat);
        assert(nat_of(s) == 0);
        assert((x as nat) * pow2(0) == x as nat) by (nonlinear_arith)
            requires
                pow2(0) == 1,
        ;
    } else {
        assert(s.push(x).drop_first() =~= s.drop_first().push(x));
        lemma_nat_of_snoc(s.drop_first(), x);
        lemma_pow2_adds(32, (32 * (s.len() - 1)) as nat);
        let p1 = pow2((32 * (s.len() - 1)) as nat);
        assert(s.push(x)[0] == s[0]);
        assert(nat_of(s.push(x))
            == s[0] as nat + limb_base() * (nat_of(s.drop_first()) + (x as nat) * p1));
        assert(pow2(32 * s.len()) == limb_base() * p1);
        assert(limb_base() * (nat_of(s.drop_first()) + (x as nat) * p1)
            == limb_base() * nat_of(s.drop_first()) + (x as nat) * (limb_base() * p1))
            by (nonlinear_arith);
        assert(nat_of(s) == s[0] as nat + limb_base() * nat_of(s.drop_first()));
        assert(nat_of(s.push(x)) == nat_of(s) + (x as nat) * (limb_base() * p1));
    }
}

/// Extending a prefix by the limb at position `i` adds that limb's weighted value.
pub proof fn lemma_nat_of_take_succ(s: Seq<u32>, i: int)
    requires
        0 <= i < s.len(),
    ensures
        nat_of(s.take(i + 1)) == nat_of(s.take(i)) + (s[i] as nat) * pow2((32 * i) as nat),
{
    assert(s.take(i + 1) =~= s.take(i).push(s[i]));
    lemma_nat_of_snoc(s.take(i), s[i]);
}

/// The whole sequence is its own full prefix.
pub proof fn lemma_nat_of_take_full(s: Seq<u32>)
    ensures
        nat_of(s.take(s.len() as int)) == nat_of(s),
{
    assert(s.take(s.len() as int) =~= s);
}

/// A sequence of `n` limbs denotes a value below 2^(32 n).
pub proof fn lemma_nat_of_bound(s: Seq<u32>)
    ensures
        nat_of(s) < pow2(32 * s.len()),
    decreases s.len(),
{
    lemma2_to64();
    if s.len() == 0 {
    } else {
        lemma_nat_of_bound(s.drop_first());
        lemma_pow2_adds(32, (32 * (s.len() - 1)) as nat);
        assert(s[0] as nat + limb_base() * nat_of(s.drop_first())
            < limb_base() * pow2((32 * (s.len() - 1)) as nat)) by (nonlinear_arith)
            requires
                s[0] < limb_base(),
                nat_of(s.drop_first()) < pow2((32 * (s.len() - 1)) as nat),
        ;
    }
}

/// The value splits at any cut point into a low prefix and a shifted high part.
pub proof fn lemma_nat_of_split(s: Seq<u32>, k: int)
    requires
        0 <= k <= s.len(),
    ensures
        nat_of(s) == nat_of(s.take(k)) + pow2((32 * k) as nat) * nat_of(s.skip(k)),
    decreases k,
{
    lemma2_to64();
    if k == 0 {
        assert(s.take(0) =~= Seq::<u32>::empty());
        assert(s.skip(0) =~= s);
        assert(nat_of(s.take(0)) == 0);
        assert(pow2(0) * nat_of(s.skip(0)) == nat_of(s)) by (nonlinear_arith)
            requires
                pow2(0) == 1,
                nat_of(s.skip(0)) == nat_of(s),
        ;
    } else {
        lemma_nat_of_split(s, k - 1);
        lemma_nat_of_take_succ(s, k - 1);
        assert(s.skip(k - 1).drop_first() =~= s.skip(k));
        assert(s.skip(k - 1)[0] == s[k - 1]);
        assert(nat_of(s.skip(k - 1)) == s[k - 1] as nat + limb_base() * nat_of(s.skip(k)));
        lemma_pow2_adds((32 * (k - 1)) as nat, 32);
        let p1 = pow2((32 * (k - 1)) as nat);
        let pk = pow2((32 * k) as nat);
        assert(pk == p1 * limb_base());
        assert(nat_of(s) == nat_of(s.take(k - 1)) + p1 * (s[k - 1] as nat + limb_base() * nat_of(
            s.skip(k),
        )));
        assert(nat_of(s.take(k)) == nat_of(s.take(k - 1)) + (s[k - 1] as nat) * p1);
        assert(p1 * (s[k - 1] as nat + limb_base() * nat_of(s.skip(k)))
            == (s[k - 1] as nat) * p1 + (p1 * limb_base()) * nat_of(s.skip(k)))
            by (nonlinear_arith);
        assert(nat_of(s) == nat_of(s.take(k)) + pk * nat_of(s.skip(k)));
    }
}

/// The most significant limb bounds the value from both sides.
pub proof fn lemma_nat_of_msb(s: Seq<u32>)
    requires
        s.len() > 0,
    ensures
        nat_of(s) >= (s.last() as nat) * pow2((32 * (s.len() - 1)) as nat),
        nat_of(s) < (s.last() as nat + 1) * pow2((32 * (s.len() - 1)) as nat),
{
    let l = s.len() as int;
    lemma_nat_of_take_full(s);
    lemma_nat_of_take_succ(s, l - 1);
    lemma_nat_of_bound(s.take(l - 1));
    assert(s.take(l - 1).len() == l - 1);
    let p = pow2((32 * (l - 1)) as nat);
    assert((s.last() as nat + 1) * p == (s.last() as nat) * p + p) by (nonlinear_arith);
}

/// A normalized nonempty sequence denotes a nonzero value.
pub proof fn lemma_nat_of_normalized_pos(s: Seq<u32>)
    requires
        normalized(s),
        s.len() > 0,
    ensures
        nat_of(s) >= pow2((32 * (s.len() - 1)) as nat),
        nat_of(s) > 0,
{
    lemma_nat_of_msb(s);
    lemma_pow2_pos((32 * (s.len() - 1)) as nat);
    assert((s.last() as nat) * pow2((32 * (s.len() - 1)) as nat)
        >= pow2((32 * (s.len() - 1)) as nat)) by (nonlinear_arith)
        requires
            s.last() as nat >= 1,
            pow2((32 * (s.len() - 1)) as nat) > 0,
    ;
}

/// Of two normalized sequences, the one with fewer limbs denotes the smaller value.
pub proof fn lemma_nat_of_shorter(s: Seq<u32>, t: Seq<u32>)
    requires
        normalized(t),
        s.len() < t.len(),
    ensures
        nat_of(s) < nat_of(t),
{
    lemma_nat_of_bound(s);
    lemma_nat_of_normalized_pos(t);
    if 32 * s.len() < 32 * (t.len() - 1) {
        lemma_pow2_strictly_increases(32 * s.len(), (32 * (t.len() - 1)) as nat);
    }
}

/// Comparison decides at the most significant position where two equally long
/// sequences differ.
pub proof fn lemma_nat_of_lt_at(s: Seq<u32>, t: Seq<u32>, j: int)
    requires
        s.len() == t.len(),
        0 <= j < s.len(),
        s[j] < t[j],
        forall|k: int| j < k < s.len() ==> s[k] == t[k],
    ensures
        nat_of(s) < nat_of(t),
{
    lemma_nat_of_split(s, j);
    lemma_nat_of_split(t, j);
    assert(s.skip(j).drop_first() =~= t.skip(j).drop_first());
    assert(nat_of(s.skip(j)) == s[j] as nat + limb_base() * nat_of(s.skip(j).drop_first()));
    assert(nat_of(t.skip(j)) == t[j] as nat + limb_base() * nat_of(t.skip(j).drop_first()));
    lemma_nat_of_bound(s.take(j));
    assert(s.take(j).len() == j);
    let p = pow2((32 * j) as nat);
    lemma_pow2_pos((32 * j) as nat);
    assert(nat_of(s.take(j)) + p * nat_of(s.skip(j)) < nat_of(t.take(j)) + p * nat_of(t.skip(j)))
        by (nonlinear_arith)
        requires
            p > 0,
            nat_of(s.take(j)) < p,
            nat_of(t.take(j)) >= 0,
            nat_of(s.skip(j)) < nat_of(t.skip(j)),
    ;
}

/// The lowest limb and the rest are the value's remainder and quotient by the base.
pub proof fn lemma_nat_of_mod_base(s: Seq<u32>)
    requires
        s.len() > 0,
    ensures
        nat_of(s) % limb_base() == s[0] as nat,
        nat_of(s) / limb_base() == nat_of(s.drop_first()),
{
    lemma_fundamental_div_mod_converse(
        nat_of(s) as int,
        limb_base() as int,
        nat_of(s.drop_first()) as int,
        s[0] as int,
    );
}

/// Normalized limb sequences represent values uniquely.
pub proof fn lemma_nat_of_injective(s: Seq<u32>, t: Seq<u32>)
    requires
        normalized(s),
        normalized(t),
        nat_of(s) == nat_of(t),
    ensures
        s == t,
    decreases s.len(),
{
    if s.len() == 0 && t.len() == 0 {
        assert(s =~= t);
    } else if s.len() == 0 {
        lemma_nat_of_normalized_pos(t);
        assert(false);
    } else if t.len() == 0 {
        lemma_nat_of_normalized_pos(s);
        assert(false);
    } else {
        lemma_nat_of_mod_base(s);
        lemma_nat_of_mod_base(t);
        assert(s[0] == t[0]);
        if s.len() == 1 && t.len() == 1 {
            assert(s =~= t);
        } else {
            let ds = s.drop_first();
            let dt = t.drop_first();
            if s.len() == 1 {
                lemma_nat_of_normalized_pos(dt);
                assert(false);
            } else if t.len() == 1 {
                lemma_nat_of_normalized_pos(ds);
                assert(false);
            } else {
                assert(normalized(ds) && normalized(dt));
                lemma_nat_of_injective(ds, dt);
                assert(s.len() == t.len());
                assert forall|i: int| 0 <= i < s.len() implies s[i] == t[i] by {
                    if i > 0 {
                        assert(s[i] == ds[i - 1]);
                        assert(t[i] == dt[i - 1]);
                    }
                }
                assert(s =~= t);
            }
        }
    }
}

/// Dropping a most significant zero limb keeps the value.
pub proof fn lemma_nat_of_drop_last_zero(s: Seq<u32>)
    requires
        s.len() > 0,
        s.last() == 0,
    ensures
        nat_of(s.drop_last()) == nat_of(s),
{
    lemma_nat_of_take_full(s);
    lemma_nat_of_take_succ(s, s.len() - 1);
    assert(s.drop_last() =~= s.take(s.len() - 1));
}

/// Prepending `z` zero limbs multiplies the value by 2^(32 z).
pub proof fn lemma_nat_of_prepend_zeros(z: nat, s: Seq<u32>)
    ensures
        nat_of(Seq::<u32>::new(z, |i: int| 0u32) + s) == pow2(32 * z) * nat_of(s),
    decreases z,
{
    lemma2_to64();
    let zs = Seq::<u32>::new(z, |i: int| 0u32);
    if z == 0 {
        assert(zs + s =~= s);
        assert(pow2(0) * nat_of(s) == nat_of(s)) by (nonlinear_arith)
            requires
                pow2(0) == 1,
        ;
    } else {
        let zs1 = Seq::<u32>::new((z - 1) as nat, |i: int| 0u32);
        lemma_nat_of_prepend_zeros((z - 1) as nat, s);
        assert((zs + s).drop_first() =~= zs1 + s);
        assert((zs + s)[0] == 0u32);
        assert(nat_of(zs + s) == limb_base() * (pow2((32 * (z - 1)) as nat) * nat_of(s)));
        lemma_pow2_adds(32, (32 * (z - 1)) as nat);
        assert(limb_base() * (pow2((32 * (z - 1)) as nat) * nat_of(s))
            == (limb_base() * pow2((32 * (z - 1)) as nat)) * nat_of(s)) by (nonlinear_arith);
    }
}

/// The value of the first `i` limbs of a sequence; the whole value once `i`
/// reaches the length.  This is the running total of a least-significant-first
/// sweep.
pub open spec fn prefix_val(s: Seq<u32>, i: int) -> nat {
    if i < s.len() {
        nat_of(s.take(i))
    } else {
        nat_of(s)
    }
}

/// A sweep starts at zero.
pub proof fn lemma_prefix_val_zero(s: Seq<u32>)
    ensures
        prefix_val(s, 0) == 0,
{
    if 0 < s.len() {
        assert(s.take(0) =~= Seq::<u32>::empty());
        assert(nat_of(s.take(0)) == 0);
    }
}

/// One step of a sweep adds the next limb's weighted value, or nothing once
/// the sequence is exhausted.
pub proof fn lemma_prefix_val_succ(s: Seq<u32>, i: int)
    requires
        0 <= i,
    ensures
        prefix_val(s, i + 1) == prefix_val(s, i) + if i < s.len() {
            (s[i] as nat) * pow2((32 * i) as nat)
        } else {
            0
        },
{
    if i + 1 < s.len() {
        lemma_nat_of_take_succ(s, i);
    } else if i < s.len() {
        lemma_nat_of_take_succ(s, i);
        lemma_nat_of_take_full(s);
    }
}

/// A full sweep has accumulated the whole value.
pub proof fn lemma_prefix_val_full(s: Seq<u32>, i: int)
    requires
        i >= s.len(),
    ensures
        prefix_val(s, i) == nat_of(s),
{
}

} // verus!
