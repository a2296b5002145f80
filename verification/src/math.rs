use vstd::prelude::*;

verus! {

/// The quotient of `a` by `b`, rounded towards positive infinity.
pub open spec fn ceil_div(a: int, b: int) -> int {
    (a + b - 1) / b
}

pub open spec fn pow2(k: nat) -> int
    decreases k,
{
    if k == 0 {
        1
    } else {
        2 * pow2((k - 1) as nat)
    }
}

/// `ceil_div(a, b)` is the unique `q` with `b * (q - 1) < a <= b * q`.
pub proof fn lemma_ceil_div_char(a: int, b: int, q: int)
    requires
        b >= 1,
        b * (q - 1) < a <= b * q,
    ensures
        ceil_div(a, b) == q,
{
    assert((a + b - 1) / b == q) by (nonlinear_arith)
        requires
            b >= 1,
            b * (q - 1) < a <= b * q,
    ;
}

pub proof fn lemma_ceil_div_exact(a: int, b: int)
    requires
        b >= 1,
        a >= 0,
        a % b == 0,
    ensures
        ceil_div(a, b) == a / b,
        b * (a / b) == a,
    decreases a,
{
    let q = a / b;
    assert(b * (q - 1) < a && a <= b * q && b * q == a) by (nonlinear_arith)
        requires
            b >= 1,
            a >= 0,
            a % b == 0,
            q == a / b,
    ;
    lemma_ceil_div_char(a, b, q);
}

/// Loading one more page advances the page count by one: from a
/// page-aligned cursor `a`, taking `c` records with `1 <= c <= b` lands on
/// `ceil_div(a + c, b) == a / b + 1`.
pub proof fn lemma_ceil_div_page_step(a: int, b: int, c: int)
    requires
        b >= 1,
        a >= 0,
        a % b == 0,
        1 <= c <= b,
    ensures
        ceil_div(a + c, b) == a / b + 1,
{
    lemma_ceil_div_exact(a, b);
    let q = a / b;
    assert(b * ((q + 1) - 1) < a + c && a + c <= b * (q + 1)) by (nonlinear_arith)
        requires
            b >= 1,
            1 <= c <= b,
            b * q == a,
    ;
    lemma_ceil_div_char(a + c, b, q + 1);
}

pub proof fn lemma_ceil_div_zero(b: int)
    requires
        b >= 1,
    ensures
        ceil_div(0, b) == 0,
{
    assert((b - 1) / b == 0) by (nonlinear_arith)
        requires
            b >= 1,
    ;
}

/// The defining bracket of the ceiling quotient.
pub proof fn lemma_ceil_div_props(a: int, b: int)
    requires
        b >= 1,
        a >= 0,
    ensures
        b * (ceil_div(a, b) - 1) < a <= b * ceil_div(a, b),
{
    let q = (a + b - 1) / b;
    assert(b * (q - 1) < a <= b * q) by (nonlinear_arith)
        requires
            b >= 1,
            a >= 0,
            q == (a + b - 1) / b,
    ;
}

/// Stepping past a position that is not a page boundary does not open a
/// new page.
pub proof fn lemma_ceil_div_increment(x: int, b: int)
    requires
        b >= 1,
        x >= 0,
        x % b != 0,
    ensures
        ceil_div(x + 1, b) == ceil_div(x, b),
{
    lemma_ceil_div_props(x, b);
    let q = ceil_div(x, b);
    assert(x < b * q) by (nonlinear_arith)
        requires
            b >= 1,
            x >= 0,
            x % b != 0,
            x <= b * q,
    ;
    lemma_ceil_div_char(x + 1, b, q);
}

pub proof fn lemma_ceil_div_bounds(a: int, b: int)
    requires
        b >= 1,
        a >= 0,
    ensures
        0 <= ceil_div(a, b) <= a,
        a >= 1 ==> 1 <= ceil_div(a, b),
{
    assert(0 <= (a + b - 1) / b <= a && (a >= 1 ==> 1 <= (a + b - 1) / b)) by (nonlinear_arith)
        requires
            b >= 1,
            a >= 0,
    ;
}

pub proof fn lemma_ceil_div_mono(a1: int, a2: int, b: int)
    requires
        b >= 1,
        0 <= a1 <= a2,
    ensures
        ceil_div(a1, b) <= ceil_div(a2, b),
{
    assert((a1 + b - 1) / b <= (a2 + b - 1) / b) by (nonlinear_arith)
        requires
            b >= 1,
            0 <= a1 <= a2,
    ;
}


/// Ceiling of the base-two logarithm: how many halvings-with-remainder a
/// count needs before it reaches one.
pub open spec fn clog2(r: int) -> int
    decreases r,
{
    if r <= 1 {
        0
    } else {
        1 + clog2(ceil_div(r, 2))
    }
}

pub proof fn lemma_clog2_nonneg(r: int)
    ensures
        clog2(r) >= 0,
    decreases r,
{
    if r > 1 {
        lemma_clog2_nonneg(ceil_div(r, 2));
    }
}

pub proof fn lemma_clog2_mono(a: int, b: int)
    requires
        0 <= a <= b,
    ensures
        clog2(a) <= clog2(b),
    decreases b,
{
    lemma_clog2_nonneg(b);
    if a >= 2 {
        let ca = ceil_div(a, 2);
        let cb = ceil_div(b, 2);
        lemma_ceil_div_mono(a, b, 2);
        assert(0 <= ca && cb < b);
        lemma_clog2_mono(ca, cb);
    }
}

/// A bound on the quotient gives a bound on the ceiling quotient.
pub proof fn lemma_ceil_div_le(a: int, b: int, q: int)
    requires
        b >= 1,
        0 <= a <= b * q,
        q >= 0,
    ensures
        ceil_div(a, b) <= q,
{
    assert((a + b - 1) / b <= q) by (nonlinear_arith)
        requires
            b >= 1,
            0 <= a <= b * q,
            q >= 0,
    ;
}

/// A larger fan-in never needs more pages: the ceiling quotient shrinks as
/// the divisor grows.
pub proof fn lemma_ceil_div_divisor(a: int, big: int, small: int)
    requires
        a >= 0,
        big >= small >= 1,
    ensures
        ceil_div(a, big) <= ceil_div(a, small),
{
    let q = ceil_div(a, small);
    lemma_ceil_div_props(a, small);
    lemma_ceil_div_bounds(a, small);
    assert(small * q <= big * q) by (nonlinear_arith)
        requires
            big >= small >= 1,
            q >= 0,
    ;
    lemma_ceil_div_le(a, big, q);
}

pub proof fn lemma_pow2_pos(k: nat)
    ensures
        pow2(k) >= 1,
    decreases k,
{
    if k > 0 {
        lemma_pow2_pos((k - 1) as nat);
    }
}

pub proof fn lemma_pow2_add(a: nat, b: nat)
    ensures
        pow2(a + b) == pow2(a) * pow2(b),
    decreases a,
{
    if a == 0 {
        assert(pow2(b) == 1 * pow2(b)) by (nonlinear_arith);
    } else {
        lemma_pow2_add((a - 1) as nat, b);
        assert(pow2((a - 1) as nat + b) == pow2((a - 1) as nat) * pow2(b));
        assert(pow2(a + b) == 2 * (pow2((a - 1) as nat) * pow2(b)));
        assert(2 * (pow2((a - 1) as nat) * pow2(b)) == (2 * pow2((a - 1) as nat)) * pow2(
            b,
        )) by (nonlinear_arith);
    }
}

pub proof fn lemma_pow2_64()
    ensures
        pow2(64) == 0x10000000000000000,
{
    assert(pow2(0) == 1);
    assert(pow2(1) == 2);
    assert(pow2(2) == 4);
    assert(pow2(3) == 8);
    assert(pow2(4) == 16);
    lemma_pow2_add(4, 4);
    assert(pow2(8) == 256);
    lemma_pow2_add(8, 8);
    assert(pow2(16) == 0x10000);
    lemma_pow2_add(16, 16);
    assert(pow2(32) == 0x100000000);
    lemma_pow2_add(32, 32);
}

/// Nothing below a power of two needs more halvings than the exponent.
pub proof fn lemma_clog2_pow2(r: int, k: nat)
    requires
        0 <= r <= pow2(k),
    ensures
        clog2(r) <= k,
    decreases k,
{
    if r >= 2 {
        assert(k > 0) by {
            if k == 0 {
                assert(pow2(0) == 1);
            }
        }
        let c = ceil_div(r, 2);
        let p = pow2((k - 1) as nat);
        assert(pow2(k) == 2 * p);
        assert((r + 1) / 2 <= p) by (nonlinear_arith)
            requires
                r <= 2 * p,
                p >= 0,
                r >= 2,
        ;
        lemma_pow2_pos((k - 1) as nat);
        lemma_clog2_pow2(c, (k - 1) as nat);
    }
}

} // verus!
