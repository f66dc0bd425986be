//! Exact integer arithmetic for the two IEEE-754 double operations of the
//! jump hash step. Values are non-negative and held in units of 2^-52, so
//! every double of at least 1 is an integer here.

use vstd::prelude::*;

verus! {

/// Two to the power `e`.
pub open spec fn pow2n(e: nat) -> nat
    decreases e,
{
    if e == 0 {
        1
    } else {
        2 * pow2n((e - 1) as nat)
    }
}

/// The exponent of the gap between consecutive doubles near a value whose
/// integer part, in units of 2^-52, is `f`.
pub open spec fn spacing_exp(f: nat) -> nat
    decreases f,
{
    if f < 0x20_0000_0000_0000 {
        0
    } else {
        1 + spacing_exp(f / 2)
    }
}

/// The gap between consecutive doubles near a value whose integer part, in
/// units of 2^-52, is `f`: a double at least 1 with 53 significant bits.
pub open spec fn spacing(f: nat) -> nat {
    pow2n(spacing_exp(f))
}

/// The double nearest to `num / den` (in units of 2^-52, that is, the value
/// is `num / den * 2^-52`), ties going to the even significand: the IEEE-754
/// rounding of a quotient or product of at least 1.
#[verifier::opaque]
pub open spec fn round_scaled(num: nat, den: nat) -> nat {
    let f = num / den;
    let u = spacing(f);
    let q = f / u;
    let rem = (f % u) * den + num % den;
    if 2 * rem < u * den {
        q * u
    } else if 2 * rem > u * den {
        (q + 1) * u
    } else if q % 2 == 0 {
        q * u
    } else {
        (q + 1) * u
    }
}

/// `pow2n` adds exponents.
pub proof fn lemma_pow2n_add(a: nat, b: nat)
    ensures
        pow2n(a + b) == pow2n(a) * pow2n(b),
    decreases b,
{
    if b > 0 {
        lemma_pow2n_add(a, (b - 1) as nat);
        assert((a + b - 1) as nat == a + (b - 1) as nat);
        assert(pow2n(a + b) == 2 * pow2n((a + b - 1) as nat));
        assert(pow2n(a) * pow2n(b) == pow2n(a) * (2 * pow2n((b - 1) as nat)));
        assert(pow2n(a) * (2 * pow2n((b - 1) as nat)) == 2 * (pow2n(a) * pow2n((b - 1) as nat)))
            by (nonlinear_arith);
        assert(pow2n(a + b) == 2 * pow2n(a + (b - 1) as nat));
    } else {
        assert(a + b == a);
        assert(pow2n(b) == 1);
    }
}

/// `pow2n` is positive.
pub proof fn lemma_pow2n_positive(a: nat)
    ensures
        pow2n(a) >= 1,
    decreases a,
{
    if a > 0 {
        lemma_pow2n_positive((a - 1) as nat);
    }
}

/// `pow2n` is positive and grows.
pub proof fn lemma_pow2n_grows(a: nat, b: nat)
    ensures
        pow2n(a) >= 1,
        a < b ==> 2 * pow2n(a) <= pow2n(b),
    decreases b,
{
    lemma_pow2n_positive(a);
    lemma_pow2n_positive(b);
    if a + 1 < b {
        lemma_pow2n_grows(a, (b - 1) as nat);
        lemma_pow2n_positive((b - 1) as nat);
    }
}

/// A smaller power of two divides a larger one.
pub proof fn lemma_pow2n_divides(a: nat, b: nat)
    requires
        a <= b,
    ensures
        pow2n(b) % pow2n(a) == 0,
{
    lemma_pow2n_add(a, (b - a) as nat);
    lemma_pow2n_grows(a, a);
    vstd::arithmetic::div_mod::lemma_mod_multiples_basic(pow2n((b - a) as nat) as int, pow2n(a) as int);
    assert(pow2n((b - a) as nat) * pow2n(a) == pow2n(a) * pow2n((b - a) as nat)) by (nonlinear_arith);
}

/// The values of the powers of two that the jump step uses.
pub proof fn lemma_pow2n_values()
    ensures
        pow2n(52) == 0x10_0000_0000_0000,
        pow2n(53) == 0x20_0000_0000_0000,
        pow2n(63) == 0x8000_0000_0000_0000,
        pow2n(115) == 0x8_0000_0000_0000_0000_0000_0000_0000,
{
    reveal_with_fuel(pow2n, 64);
    lemma_pow2n_add(52, 63);
}

/// Doubles near `f` have `spacing(f)` between them: a value with integer
/// part `f` of at least 1 lies in `[2^52, 2^53)` gaps.
pub proof fn lemma_binade(f: nat)
    requires
        f >= 0x10_0000_0000_0000,
    ensures
        0x10_0000_0000_0000 * spacing(f) <= f,
        f < 0x20_0000_0000_0000 * spacing(f),
        spacing(f) >= 1,
    decreases f,
{
    lemma_pow2n_grows(spacing_exp(f), spacing_exp(f));
    if f >= 0x20_0000_0000_0000 {
        lemma_binade(f / 2);
        assert(spacing(f) == 2 * spacing(f / 2));
    }
}

/// The gap grows with the value.
pub proof fn lemma_spacing_monotone(x: nat, y: nat)
    requires
        x <= y,
    ensures
        spacing_exp(x) <= spacing_exp(y),
    decreases y,
{
    if x >= 0x20_0000_0000_0000 {
        lemma_spacing_monotone(x / 2, y / 2);
    }
}

/// A power of two of at least 1 (in units of 2^-52) is a double.
pub proof fn lemma_power_of_two_is_double(k: nat)
    requires
        k >= 52,
    ensures
        pow2n(k) >= 0x10_0000_0000_0000,
        pow2n(k) % spacing(pow2n(k)) == 0,
{
    lemma_pow2n_values();
    if k > 52 {
        lemma_pow2n_grows(52, k);
    }
    lemma_binade(pow2n(k));
    let e = spacing_exp(pow2n(k));
    if e > k {
        lemma_pow2n_grows(k, e);
        assert(0x10_0000_0000_0000 * spacing(pow2n(k)) > pow2n(k)) by (nonlinear_arith)
            requires
                spacing(pow2n(k)) >= 2 * pow2n(k),
                pow2n(k) >= 1,
        ;
    }
    lemma_pow2n_divides(e, k);
}

/// A whole number from 1 to 2^53 (in units of 2^-52) is a double.
pub proof fn lemma_whole_number_is_double(c: nat)
    requires
        1 <= c <= 0x20_0000_0000_0000,
    ensures
        c * 0x10_0000_0000_0000 >= 0x10_0000_0000_0000,
        (c * 0x10_0000_0000_0000) % spacing(c * 0x10_0000_0000_0000) == 0,
{
    let x = c * 0x10_0000_0000_0000;
    lemma_pow2n_values();
    lemma_binade(x);
    let e = spacing_exp(x);
    let s = spacing(x);
    assert(s <= c) by (nonlinear_arith)
        requires
            0x10_0000_0000_0000 * s <= x,
            x == c * 0x10_0000_0000_0000,
    ;
    if e <= 52 {
        lemma_pow2n_divides(e, 52);
        let k = pow2n(52) / s;
        lemma_pow2n_positive(e);
        vstd::arithmetic::div_mod::lemma_fundamental_div_mod(pow2n(52) as int, s as int);
        assert(s * k == k * s) by (nonlinear_arith);
        assert(pow2n(52) == k * s);
        assert(x == (c * k) * s) by (nonlinear_arith)
            requires
                x == c * 0x10_0000_0000_0000,
                0x10_0000_0000_0000 == k * s,
        ;
        vstd::arithmetic::div_mod::lemma_mod_multiples_basic((c * k) as int, s as int);
    } else {
        lemma_pow2n_grows(52, e);
        if e > 53 {
            lemma_pow2n_grows(53, e);
        }
        assert(s == 0x20_0000_0000_0000);
        assert(c == 0x20_0000_0000_0000);
        assert(x == 0x10_0000_0000_0000 * s);
        vstd::arithmetic::div_mod::lemma_mod_multiples_basic(0x10_0000_0000_0000, s as int);
    }
}

/// Rounding never falls below a double that lies at or under the exact value.
pub proof fn lemma_round_at_least(num: nat, den: nat, x: nat)
    requires
        den > 0,
        x >= 0x10_0000_0000_0000,
        x * den <= num,
        x % spacing(x) == 0,
    ensures
        round_scaled(num, den) >= x,
{
    reveal(round_scaled);
    let f = num / den;
    vstd::arithmetic::div_mod::lemma_fundamental_div_mod(num as int, den as int);
    assert(x <= f) by (nonlinear_arith)
        requires
            x * den <= num,
            num == den * f + num % den,
            num % den < den,
            den > 0,
    ;
    let u = spacing(f);
    let q = f / u;
    lemma_binade(f);
    lemma_binade(x);
    lemma_spacing_monotone(x, f);
    vstd::arithmetic::div_mod::lemma_fundamental_div_mod(f as int, u as int);
    if spacing_exp(x) == spacing_exp(f) {
        let xq = x / u;
        vstd::arithmetic::div_mod::lemma_fundamental_div_mod(x as int, u as int);
        assert(x == u * xq);
        assert(xq <= q) by (nonlinear_arith)
            requires
                u * xq <= f,
                f == u * q + f % u,
                f % u < u,
                u > 0,
        ;
        assert(q * u >= x) by (nonlinear_arith)
            requires
                xq <= q,
                x == u * xq,
                u > 0,
        ;
    } else {
        lemma_pow2n_grows(spacing_exp(x), spacing_exp(f));
        assert(q >= 0x10_0000_0000_0000) by (nonlinear_arith)
            requires
                0x10_0000_0000_0000 * u <= f,
                f == u * q + f % u,
                f % u < u,
                u > 0,
        ;
        assert(q * u >= x) by (nonlinear_arith)
            requires
                q >= 0x10_0000_0000_0000,
                x < 0x20_0000_0000_0000 * spacing(x),
                2 * spacing(x) <= u,
        ;
    }
    assert((q + 1) * u >= q * u) by (nonlinear_arith);
}

/// Rounds `num / den` to the nearest double, ties to the even significand;
/// the quotient and the result are in units of 2^-52.
pub fn round_to_double(num: u128, den: u128) -> (r: u128)
    requires
        den > 0,
        num / den >= 0x10_0000_0000_0000,
        num <= 0x1_0000_0000_0000_0000_0000_0000_0000_00,
    ensures
        r == round_scaled(num as nat, den as nat),
        r <= 2 * (num / den),
{
    reveal(round_scaled);
    let f = num / den;
    let rm = num % den;
    let mut u: u128 = 1;
    let mut t: u128 = f;
    proof {
        lemma_pow2n_positive(spacing_exp(f as nat));
    }
    while t >= 0x20_0000_0000_0000
        invariant
            f == num / den,
            f <= 0x1_0000_0000_0000_0000_0000_0000_0000_00,
            t >= 0x10_0000_0000_0000,
            u >= 1,
            u * t <= f,
            spacing(f as nat) == u * spacing(t as nat),
        decreases t,
    {
        let ghost t0 = t;
        let ghost u0 = u;
        assert(spacing_exp(t0 as nat) == 1 + spacing_exp((t0 / 2) as nat));
        assert(spacing(t0 as nat) == 2 * spacing((t0 / 2) as nat)) by {
            let e = spacing_exp((t0 / 2) as nat);
            assert((1 + e - 1) as nat == e);
        }
        assert(u0 <= 0x100_0000_0000_0000_0000) by (nonlinear_arith)
            requires
                u0 * t0 <= 0x1_0000_0000_0000_0000_0000_0000_0000_00,
                t0 >= 0x20_0000_0000_0000,
        ;
        t = t / 2;
        u = u * 2;
        assert(u * t <= f) by (nonlinear_arith)
            requires
                u == 2 * u0,
                t == t0 / 2,
                u0 * t0 <= f,
        ;
        assert(spacing(f as nat) == u * spacing(t as nat)) by (nonlinear_arith)
            requires
                spacing(f as nat) == u0 * spacing(t0 as nat),
                spacing(t0 as nat) == 2 * spacing(t as nat),
                u == 2 * u0,
        ;
    }
    assert(spacing(t as nat) == 1);
    assert(u == spacing(f as nat)) by (nonlinear_arith)
        requires
            spacing(f as nat) == u * spacing(t as nat),
            spacing(t as nat) == 1,
    ;
    assert(u <= f) by (nonlinear_arith)
        requires
            u * t <= f,
            t >= 1,
    ;
    assert(u * den <= 0x100_0000_0000_0000_0000) by (nonlinear_arith)
        requires
            u * t <= f,
            t >= 0x10_0000_0000_0000,
            f == num / den,
            den > 0,
            num <= 0x1_0000_0000_0000_0000_0000_0000_0000_00,
    {
        vstd::arithmetic::div_mod::lemma_fundamental_div_mod(num as int, den as int);
        assert(u * 0x10_0000_0000_0000 <= f);
        assert(f * den <= num);
        assert(u * 0x10_0000_0000_0000 * den <= f * den);
    }
    let q = f / u;
    let fr = f % u;
    assert(fr * den + rm < u * den) by (nonlinear_arith)
        requires
            fr < u,
            rm < den,
            den > 0,
    ;
    let rem = fr * den + rm;
    let unit = u * den;
    proof {
        vstd::arithmetic::div_mod::lemma_fundamental_div_mod(f as int, u as int);
    }
    assert((q + 1) * u <= 2 * f) by (nonlinear_arith)
        requires
            f == u * q + fr,
            u <= f,
    ;
    if 2 * rem < unit {
        q * u
    } else if 2 * rem > unit {
        (q + 1) * u
    } else if q % 2 == 0 {
        q * u
    } else {
        (q + 1) * u
    }
}

} // verus!
