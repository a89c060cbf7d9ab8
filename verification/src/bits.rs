use vstd::prelude::*;
use vstd::std_specs::bits::{axiom_u32_leading_zeros, axiom_u32_trailing_zeros, u32_leading_zeros, u32_trailing_zeros};

verus! {

/// Whether the binary representation of `x` has a one at position `i`.
pub open spec fn bit(x: u32, i: u32) -> bool {
    (x >> i) & 1u32 == 1u32
}

/// The sum of `w(i)` over the positions `i < n` at which `x` has a one.
pub open spec fn weighted_count(x: u32, n: nat, w: spec_fn(u32) -> nat) -> nat
    decreases n,
{
    if n == 0 {
        0
    } else {
        let i = (n - 1) as u32;
        weighted_count(x, (n - 1) as nat, w) + if bit(x, i) {
            w(i)
        } else {
            0
        }
    }
}

/// The sum of `w(i)` over all positions `i < n`.
pub open spec fn weight_below(n: nat, w: spec_fn(u32) -> nat) -> nat
    decreases n,
{
    if n == 0 {
        0
    } else {
        weight_below((n - 1) as nat, w) + w((n - 1) as u32)
    }
}

/// The number of ones in the binary representation of `x`.
pub open spec fn ones_in(x: u32) -> nat {
    weighted_count(x, 32, |i: u32| 1nat)
}

/// `u32::count_ones` returns the number of ones in the binary representation
/// of its argument, as std documents it.
pub assume_specification[ u32::count_ones ](x: u32) -> (r: u32)
    ensures
        r == ones_in(x),
;

pub proof fn lemma_bit_ops(a: u32, b: u32, i: u32)
    by (bit_vector)
    requires
        i < 32,
    ensures
        bit(a | b, i) == (bit(a, i) || bit(b, i)),
        bit(a & b, i) == (bit(a, i) && bit(b, i)),
        bit(a & !b, i) == (bit(a, i) && !bit(b, i)),
        bit(a ^ b, i) == (bit(a, i) != bit(b, i)),
        !bit(0u32, i),
        bit(0xffff_ffffu32, i),
{
}

pub proof fn lemma_bit_single(j: u32, i: u32)
    by (bit_vector)
    requires
        i < 32,
        j < 32,
    ensures
        bit(1u32 << j, i) == (i == j),
        (1u32 << j) != 0,
{
}

pub proof fn lemma_bit_test(x: u32, i: u32)
    by (bit_vector)
    requires
        i < 32,
    ensures
        ((x & (1u32 << i)) != 0) == bit(x, i),
{
}

pub proof fn lemma_single_order(i: u32, j: u32)
    by (bit_vector)
    requires
        i < 32,
        j < 32,
    ensures
        ((1u32 << i) < (1u32 << j)) == (i < j),
        ((1u32 << i) == (1u32 << j)) == (i == j),
        0 < (1u32 << j),
{
}

pub proof fn lemma_flip_set_bit(x: u32, j: u32)
    by (bit_vector)
    requires
        j < 32,
        bit(x, j),
    ensures
        x ^ (1u32 << j) == x & !(1u32 << j),
{
}

/// Two words with the same ones are the same word.
pub proof fn lemma_bit_ext(a: u32, b: u32)
    requires
        forall|i: u32| i < 32 ==> bit(a, i) == bit(b, i),
    ensures
        a == b,
{
    let x = a ^ b;
    if x != 0 {
        axiom_u32_trailing_zeros(x);
        let tz = u32_trailing_zeros(x);
        assert(tz < 32);
        assert(bit(x, tz));
        lemma_bit_ops(a, b, tz);
        assert(false);
    }
    assert(a ^ b == 0 ==> a == b) by (bit_vector);
}

/// The position of the lowest one of a word that is not zero.
pub open spec fn lowest_bit(x: u32) -> u32 {
    u32_trailing_zeros(x)
}

/// The position of the highest one of a word that is not zero.
pub open spec fn highest_bit(x: u32) -> u32 {
    (31 - u32_leading_zeros(x)) as u32
}

pub proof fn lemma_lowest_bit(x: u32)
    requires
        x != 0,
    ensures
        lowest_bit(x) < 32,
        bit(x, lowest_bit(x)),
        forall|i: u32| i < lowest_bit(x) ==> !bit(x, i),
{
    axiom_u32_trailing_zeros(x);
    let tz = u32_trailing_zeros(x);
    assert forall|i: u32| i < tz implies !bit(x, i) by {
        assert((x >> i) & 1u32 == 0u32);
    }
}

pub proof fn lemma_highest_bit(x: u32)
    requires
        x != 0,
    ensures
        highest_bit(x) < 32,
        bit(x, highest_bit(x)),
        forall|i: u32| highest_bit(x) < i < 32 ==> !bit(x, i),
{
    axiom_u32_leading_zeros(x);
    let lz = u32_leading_zeros(x);
    let h = (31 - lz) as u32;
    let y = (x >> h) & 1u32;
    assert(y != 0u32);
    assert(y == 0u32 || y == 1u32) by (bit_vector)
        requires
            y == (x >> h) & 1u32,
    ;
    assert forall|i: u32| h < i < 32 implies !bit(x, i) by {
        assert((x >> i) & 1u32 == 0u32);
    }
}

pub proof fn lemma_weighted_or_and(a: u32, b: u32, n: nat, w: spec_fn(u32) -> nat)
    requires
        n <= 32,
    ensures
        weighted_count(a | b, n, w) + weighted_count(a & b, n, w) == weighted_count(a, n, w)
            + weighted_count(b, n, w),
    decreases n,
{
    if n > 0 {
        lemma_weighted_or_and(a, b, (n - 1) as nat, w);
        lemma_bit_ops(a, b, (n - 1) as u32);
    }
}

pub proof fn lemma_weighted_split(a: u32, b: u32, n: nat, w: spec_fn(u32) -> nat)
    requires
        n <= 32,
    ensures
        weighted_count(a & !b, n, w) + weighted_count(a & b, n, w) == weighted_count(a, n, w),
    decreases n,
{
    if n > 0 {
        lemma_weighted_split(a, b, (n - 1) as nat, w);
        lemma_bit_ops(a, b, (n - 1) as u32);
    }
}

pub proof fn lemma_weighted_zero(n: nat, w: spec_fn(u32) -> nat)
    requires
        n <= 32,
    ensures
        weighted_count(0, n, w) == 0,
    decreases n,
{
    if n > 0 {
        lemma_weighted_zero((n - 1) as nat, w);
        lemma_bit_ops(0, 0, (n - 1) as u32);
    }
}

pub proof fn lemma_weighted_all(n: nat, w: spec_fn(u32) -> nat)
    requires
        n <= 32,
    ensures
        weighted_count(0xffff_ffffu32, n, w) == weight_below(n, w),
    decreases n,
{
    if n > 0 {
        lemma_weighted_all((n - 1) as nat, w);
        lemma_bit_ops(0, 0, (n - 1) as u32);
    }
}

pub proof fn lemma_weighted_single(j: u32, n: nat, w: spec_fn(u32) -> nat)
    requires
        j < 32,
        n <= 32,
    ensures
        weighted_count(1u32 << j, n, w) == if j < n {
            w(j)
        } else {
            0
        },
    decreases n,
{
    if n > 0 {
        lemma_weighted_single(j, (n - 1) as nat, w);
        lemma_bit_single(j, (n - 1) as u32);
    }
}

/// A word counts at most what all positions together weigh.
pub proof fn lemma_weighted_bound(x: u32, n: nat, w: spec_fn(u32) -> nat)
    requires
        n <= 32,
    ensures
        weighted_count(x, n, w) <= weight_below(n, w),
    decreases n,
{
    if n > 0 {
        lemma_weighted_bound(x, (n - 1) as nat, w);
    }
}

/// Where every position weighs something, only zero counts nothing.
pub proof fn lemma_weighted_positive(x: u32, n: nat, w: spec_fn(u32) -> nat)
    requires
        n <= 32,
        forall|i: u32| i < 32 ==> #[trigger] w(i) > 0,
        weighted_count(x, n, w) == 0,
    ensures
        forall|i: u32| i < n ==> !bit(x, i),
    decreases n,
{
    if n > 0 {
        lemma_weighted_positive(x, (n - 1) as nat, w);
    }
}

/// The number of places below `n` of which `f` holds.
pub open spec fn count_true(f: spec_fn(u32) -> bool, n: nat) -> nat
    decreases n,
{
    if n == 0 {
        0
    } else {
        count_true(f, (n - 1) as nat) + if f((n - 1) as u32) {
            1nat
        } else {
            0nat
        }
    }
}

/// A word whose ones are at the places of which `f` holds has as many ones as
/// there are such places.
pub proof fn lemma_count_true(x: u32, n: nat, f: spec_fn(u32) -> bool)
    requires
        n <= 32,
        forall|i: u32| i < 32 ==> bit(x, i) == #[trigger] f(i),
    ensures
        weighted_count(x, n, |i: u32| 1nat) == count_true(f, n),
    decreases n,
{
    if n > 0 {
        lemma_count_true(x, (n - 1) as nat, f);
    }
}

pub proof fn lemma_unit_weight_below(n: nat)
    ensures
        weight_below(n, |i: u32| 1nat) == n,
    decreases n,
{
    if n > 0 {
        lemma_unit_weight_below((n - 1) as nat);
    }
}

} // verus!
