//! Facts about single bits, byte order and address masks.

use vstd::prelude::*;

verus! {

/// Bit `b` of `w`.
pub open spec fn bit(w: u64, b: int) -> bool {
    (w >> (b as u64)) & 1 == 1
}

/// Setting one bit changes that bit and no other.
pub proof fn lemma_set_bit(w: u64, b: u64, c: u64)
    by (bit_vector)
    requires
        b < 64,
        c < 64,
    ensures
        ((w | (1u64 << b)) >> c) & 1 == 1 <==> (c == b || (w >> c) & 1 == 1),
{
}

/// Clearing one bit changes that bit and no other.
pub proof fn lemma_clear_bit(w: u64, b: u64, c: u64)
    by (bit_vector)
    requires
        b < 64,
        c < 64,
    ensures
        ((w & !(1u64 << b)) >> c) & 1 == 1 <==> (c != b && (w >> c) & 1 == 1),
{
}

/// The two ways of asking for one bit agree.
pub proof fn lemma_test_bit(w: u64, b: u64)
    by (bit_vector)
    requires
        b < 64,
    ensures
        w & (1u64 << b) != 0 <==> (w >> b) & 1 == 1,
{
}

/// A word of ones has every bit set.
pub proof fn lemma_full_word(b: u64)
    by (bit_vector)
    requires
        b < 64,
    ensures
        (0xFFFF_FFFF_FFFF_FFFFu64 >> b) & 1 == 1,
{
}

/// Complementing a word flips each of its bits.
pub proof fn lemma_not_bit(w: u64, b: u64)
    by (bit_vector)
    requires
        b < 64,
    ensures
        ((!w) >> b) & 1 == 1 <==> (w >> b) & 1 != 1,
        ((!w) >> b) & 1 == 0 <==> (w >> b) & 1 == 1,
        !w == 0 ==> (w >> b) & 1 == 1,
{
}

/// `x` divided by `d`, rounded up.
pub open spec fn ceil_div(x: int, d: int) -> int {
    (x + d - 1) / d
}

/// `x` divided by `d`, rounded up.
pub fn div_ceil(x: u64, d: u64) -> (r: u64)
    requires
        d > 0,
    ensures
        r == ceil_div(x as int, d as int),
{
    let q: u64 = x / d;
    let m: u64 = x % d;
    proof {
        lemma_ceil_div(x as int, d as int);
    }
    if m == 0 {
        q
    } else {
        q + 1
    }
}

/// Rounding up adds one exactly when the division leaves a remainder.
pub proof fn lemma_ceil_div(x: int, d: int)
    requires
        x >= 0,
        d > 0,
    ensures
        ceil_div(x, d) == x / d + (if x % d == 0 { 0int } else { 1int }),
        ceil_div(x, d) <= x,
{
    let q = x / d;
    let m = x % d;
    vstd::arithmetic::div_mod::lemma_fundamental_div_mod(x, d);
    assert(x == d * q + m);
    vstd::arithmetic::div_mod::lemma_div_pos_is_pos(x, d);
    if m == 0 {
        vstd::arithmetic::div_mod::lemma_fundamental_div_mod_converse(x + d - 1, d, q, d - 1);
        assert(q <= x) by (nonlinear_arith)
            requires
                x == d * q + m,
                m >= 0,
                d > 0,
                q >= 0,
        ;
    } else {
        assert(x + d - 1 == (q + 1) * d + (m - 1)) by (nonlinear_arith)
            requires
                x == d * q + m,
        ;
        vstd::arithmetic::div_mod::lemma_fundamental_div_mod_converse(x + d - 1, d, q + 1, m - 1);
        assert(q + 1 <= x) by (nonlinear_arith)
            requires
                x == d * q + m,
                m >= 1,
                d > 0,
                q >= 0,
        ;
    }
}

} // verus!
