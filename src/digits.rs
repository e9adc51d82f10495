//! Digits of fixed-width numbers, the single-digit change of a number, and the
//! count of digit positions in which two numbers differ.

use vstd::prelude::*;
use vstd::arithmetic::div_mod::lemma_div_denominator;

verus! {

/// The number base.
pub const BASE: usize = 10;

/// Weight of digit position `i`: `BASE^i`.
pub open spec fn weight(i: nat) -> nat
    decreases i,
{
    if i == 0 {
        1
    } else {
        BASE as nat * weight((i - 1) as nat)
    }
}

/// The digit of `x` at position `i`, position 0 being the least significant.
pub open spec fn digit(x: nat, i: nat) -> nat
    decreases i,
{
    if i == 0 {
        x % BASE as nat
    } else {
        digit(x / BASE as nat, (i - 1) as nat)
    }
}

/// `x` with the digit at position `i` replaced by `d`.
pub open spec fn with_digit_changed(x: nat, i: nat, d: nat) -> nat
    decreases i,
{
    if i == 0 {
        (x / BASE as nat) * BASE as nat + d
    } else {
        with_digit_changed(x / BASE as nat, (i - 1) as nat, d) * BASE as nat + x % BASE as nat
    }
}

/// The number of positions among the lowest `n` in which the digits of `a`
/// and `b` differ (their Hamming distance as `n`-digit strings).
pub open spec fn differing(a: nat, b: nat, n: nat) -> nat
    decreases n,
{
    if n == 0 {
        0
    } else {
        (if a % BASE as nat != b % BASE as nat { 1nat } else { 0nat })
            + differing(a / BASE as nat, b / BASE as nat, (n - 1) as nat)
    }
}

/// `a` and `b` differ in at most one of the lowest `n` digit positions.
pub open spec fn close(a: nat, b: nat, n: nat) -> bool {
    differing(a, b, n) <= 1
}

pub proof fn lemma_weight_positive(i: nat)
    ensures
        weight(i) >= 1,
    decreases i,
{
    if i > 0 {
        lemma_weight_positive((i - 1) as nat);
    }
}

pub proof fn lemma_weight_grows(i: nat)
    ensures
        weight(i + 1) == BASE as nat * weight(i),
        weight(i) < weight(i + 1),
{
    lemma_weight_positive(i);
}

pub proof fn lemma_weights_increase(i: nat, j: nat)
    requires
        i <= j,
    ensures
        weight(i) <= weight(j),
    decreases j - i,
{
    if i < j {
        lemma_weights_increase(i, (j - 1) as nat);
        lemma_weight_grows((j - 1) as nat);
    }
}

/// A digit width whose domain fits in a `usize` is below 20.
pub proof fn lemma_fitting_width(n: nat)
    requires
        weight(n) <= usize::MAX,
    ensures
        n < 20,
{
    reveal_with_fuel(weight, 21);
    assert(weight(20) > usize::MAX);
    if n >= 20 {
        lemma_weights_increase(20, n);
    }
}

/// The digit at position `i` is `(x / BASE^i) % BASE`.
pub proof fn lemma_digit_by_division(x: nat, i: nat)
    ensures
        (x / weight(i)) % BASE as nat == digit(x, i),
        digit(x, i) < BASE,
    decreases i,
{
    if i > 0 {
        let p = (i - 1) as nat;
        lemma_weight_positive(p);
        lemma_digit_by_division(x / BASE as nat, p);
        lemma_div_denominator(x as int, BASE as int, weight(p) as int);
        assert(weight(i) == BASE as nat * weight(p));
        assert(x / weight(i) == (x / BASE as nat) / weight(p));
    } else {
        assert(weight(0) == 1);
        assert(x / weight(0) == x);
    }
}

/// Changing a digit is subtracting its old weighted value and adding the new.
pub proof fn lemma_change_by_arithmetic(x: nat, i: nat, d: nat)
    ensures
        digit(x, i) * weight(i) <= x,
        x - digit(x, i) * weight(i) + d * weight(i) == with_digit_changed(x, i, d),
    decreases i,
{
    if i > 0 {
        let p = (i - 1) as nat;
        let y = x / BASE as nat;
        let g = digit(x, i);
        let w = weight(p);
        lemma_change_by_arithmetic(y, p, d);
        assert(g * weight(i) == BASE as nat * (g * w)) by (nonlinear_arith)
            requires
                weight(i) == BASE as nat * w,
        ;
        assert(d * weight(i) == BASE as nat * (d * w)) by (nonlinear_arith)
            requires
                weight(i) == BASE as nat * w,
        ;
        assert(weight(i) == BASE as nat * w);
        assert(g == digit(y, p));
        assert(x == BASE as nat * y + x % BASE as nat);
        assert(g * weight(i) <= x);
        assert(x - g * weight(i) + d * weight(i) == BASE as nat * (y - g * w + d * w) + x
            % BASE as nat);
    } else {
        assert(weight(0) == 1);
        assert(digit(x, 0) * weight(0) == x % BASE as nat);
        assert(d * weight(0) == d);
    }
}

/// A single-digit change of a number below `BASE^n` stays below `BASE^n`.
pub proof fn lemma_change_in_range(x: nat, i: nat, d: nat, n: nat)
    requires
        x < weight(n),
        i < n,
        d < BASE,
    ensures
        with_digit_changed(x, i, d) < weight(n),
    decreases i,
{
    let p = (n - 1) as nat;
    lemma_weight_grows(p);
    if i > 0 {
        lemma_change_in_range(x / BASE as nat, (i - 1) as nat, d, p);
    }
}

/// `differing` adds one for each position whose digits differ: widening by
/// one position adds one exactly when the digits at that position differ.
pub proof fn lemma_differing_by_digits(a: nat, b: nat, n: nat)
    ensures
        differing(a, b, n + 1) == differing(a, b, n) + (if digit(a, n) != digit(b, n) {
            1nat
        } else {
            0nat
        }),
    decreases n,
{
    let b10 = BASE as nat;
    if n > 0 {
        let p = (n - 1) as nat;
        lemma_differing_by_digits(a / b10, b / b10, p);
        assert(digit(a, n) == digit(a / b10, p));
        assert(digit(b, n) == digit(b / b10, p));
        assert(differing(a, b, n) == (if a % b10 != b % b10 { 1nat } else { 0nat })
            + differing(a / b10, b / b10, p));
        assert(differing(a, b, n + 1) == (if a % b10 != b % b10 { 1nat } else { 0nat })
            + differing(a / b10, b / b10, n));
    } else {
        assert(differing(a / b10, b / b10, 0) == 0);
        assert(differing(a, b, 1) == (if a % b10 != b % b10 { 1nat } else { 0nat })
            + differing(a / b10, b / b10, 0));
    }
}

pub proof fn lemma_differing_self(a: nat, n: nat)
    ensures
        differing(a, a, n) == 0,
    decreases n,
{
    if n > 0 {
        lemma_differing_self(a / BASE as nat, (n - 1) as nat);
    }
}

pub proof fn lemma_differing_symmetric(a: nat, b: nat, n: nat)
    ensures
        differing(a, b, n) == differing(b, a, n),
    decreases n,
{
    if n > 0 {
        lemma_differing_symmetric(a / BASE as nat, b / BASE as nat, (n - 1) as nat);
    }
}

/// A single-digit change of `x` is close to `x`.
pub proof fn lemma_change_is_close(x: nat, i: nat, d: nat, n: nat)
    requires
        i < n,
        d < BASE,
    ensures
        close(with_digit_changed(x, i, d), x, n),
    decreases i,
{
    let p = (n - 1) as nat;
    if i == 0 {
        lemma_differing_self(x / BASE as nat, p);
    } else {
        lemma_change_is_close(x / BASE as nat, (i - 1) as nat, d, p);
    }
}

/// Two numbers below `BASE^n` with the same `n` digits are equal.
pub proof fn lemma_same_digits_equal(a: nat, b: nat, n: nat)
    requires
        a < weight(n),
        b < weight(n),
        differing(a, b, n) == 0,
    ensures
        a == b,
    decreases n,
{
    if n > 0 {
        let p = (n - 1) as nat;
        lemma_weight_grows(p);
        lemma_same_digits_equal(a / BASE as nat, b / BASE as nat, p);
    }
}

/// A number close to `c` (both below `BASE^n`, `n >= 1`) is a single-digit
/// change of `c`.
pub proof fn lemma_close_is_change(x: nat, c: nat, n: nat)
    requires
        n >= 1,
        x < weight(n),
        c < weight(n),
        close(x, c, n),
    ensures
        exists|i: nat, d: nat| i < n && d < BASE && x == #[trigger] with_digit_changed(c, i, d),
    decreases n,
{
    let p = (n - 1) as nat;
    let b = BASE as nat;
    lemma_weight_grows(p);
    if x % b != c % b || p == 0 {
        lemma_same_digits_equal(x / b, c / b, p);
        assert(x == with_digit_changed(c, 0, x % b));
    } else {
        lemma_close_is_change(x / b, c / b, p);
        let (i, d) = choose|i: nat, d: nat|
            i < p && d < BASE && x / b == #[trigger] with_digit_changed(c / b, i, d);
        assert(x == with_digit_changed(c, i + 1, d));
    }
}

} // verus!
