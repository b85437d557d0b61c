//! Values of binary64 as exact numbers, and what rounding keeps of them: the
//! order of results, and their size to within a small part.
use crate::binary64;
use crate::binary64::{Binary64, HIDDEN, INFINITY_BITS};
use vstd::arithmetic::div_mod::*;
use vstd::arithmetic::mul::*;
use vstd::arithmetic::power2::*;
use vstd::prelude::*;

verus! {

/// Whether a value is finite and not negative.
pub open spec fn plain(x: Binary64) -> bool {
    x.bits < INFINITY_BITS
}

/// A plain value as a number of the least units that there are.
pub open spec fn units(x: Binary64) -> nat {
    x.significand() * pow2((x.exponent() + 1074) as nat)
}

/// The number one in these units.
pub open spec fn one() -> nat {
    pow2(1074)
}

/// Past all finite values.
pub open spec fn top() -> nat {
    pow2(2098)
}

// ---- Powers --------------------------------------------------------------------

pub proof fn lemma_scaled(a: nat, b: nat, c: nat)
    ensures
        (a * pow2(b)) * pow2(c) == a * pow2(b + c),
        pow2(b) * pow2(c) == pow2(b + c),
        pow2(b) > 0,
{
    lemma_pow2_adds(b, c);
    lemma_pow2_pos(b);
    lemma_mul_is_associative(a as int, pow2(b) as int, pow2(c) as int);
}

proof fn lemma_scale_order(a: nat, b: nat, c: nat)
    requires
        a <= b,
    ensures
        a * pow2(c) <= b * pow2(c),
        a < b ==> a * pow2(c) < b * pow2(c),
{
    lemma_pow2_pos(c);
    lemma_mul_inequality(a as int, b as int, pow2(c) as int);
    if a < b {
        lemma_mul_strict_inequality(a as int, b as int, pow2(c) as int);
    }
}

proof fn lemma_factor_order(a: nat, b: nat, c: nat)
    requires
        a <= b,
    ensures
        c * pow2(a) <= c * pow2(b),
{
    binary64::lemma_pow2_monotone(a, b);
    lemma_mul_inequality(pow2(a) as int, pow2(b) as int, c as int);
    lemma_mul_is_commutative(pow2(a) as int, c as int);
    lemma_mul_is_commutative(pow2(b) as int, c as int);
}

// ---- Order ---------------------------------------------------------------------

pub proof fn lemma_parts(x: Binary64)
    requires
        plain(x),
    ensures
        ({
            let h: int = x.bits as int / (HIDDEN as int);
            &&& -1074 <= x.exponent() <= 971
            &&& x.significand() < 2 * HIDDEN
            &&& x.bits < HIDDEN ==> units(x) == x.bits && x.significand() == x.bits
                && x.exponent() == -1074
            &&& x.bits >= HIDDEN ==> h >= 1 && x.significand() == x.bits - h * HIDDEN + HIDDEN
                && HIDDEN <= x.significand() && x.exponent() == h - 1075 && units(x)
                == x.significand() * pow2((h - 1) as nat)
        }),
{
    let m: int = x.bits as int;
    let h: int = m / (HIDDEN as int);
    lemma_fundamental_div_mod(m, HIDDEN as int);
    lemma2_to64();
    assert(HIDDEN * h == h * HIDDEN) by (nonlinear_arith);
    lemma_mod_bound(m, HIDDEN as int);
    if x.bits >= HIDDEN {
        assert(1 <= h <= 2046) by (nonlinear_arith)
            requires
                HIDDEN <= m < INFINITY_BITS,
                h == m / (HIDDEN as int),
                HIDDEN == 0x10_0000_0000_0000,
                INFINITY_BITS == 0x7ff0_0000_0000_0000,
        ;
        assert(x.magnitude_bits() == m);
        assert(x.significand() == m % (HIDDEN as int) + HIDDEN);
        assert(x.exponent() == h - 1075);
    } else {
        assert(x.magnitude_bits() == m);
        assert(x.significand() == m);
        assert(x.exponent() == -1074);
        assert(pow2(0) == 1);
        assert(units(x) == x.significand() * 1);
    }
}

/// Plain values stand in the order of their encodings.
pub proof fn units_keep_order(a: Binary64, b: Binary64)
    requires
        plain(a),
        plain(b),
    ensures
        (a.bits < b.bits) == (units(a) < units(b)),
        (a.bits == b.bits) == (units(a) == units(b)),
        units(a) < top(),
{
    if a.bits < b.bits {
        lemma_ordered(a, b);
    } else if b.bits < a.bits {
        lemma_ordered(b, a);
    }
    lemma_below_top(a);
}

proof fn lemma_below_top(a: Binary64)
    requires
        plain(a),
    ensures
        units(a) < top(),
{
    lemma_parts(a);
    binary64::lemma_pow2_values();
    let h: int = a.bits as int / (HIDDEN as int);
    if a.bits >= HIDDEN {
        lemma_scale_order(a.significand(), (2 * HIDDEN) as nat, (h - 1) as nat);
        lemma_factor_order((h - 1) as nat, 2045, (2 * HIDDEN) as nat);
        lemma_scaled(1, 53, 2045);
    } else {
        binary64::lemma_pow2_monotone(53, 2098);
    }
}

proof fn lemma_ordered(a: Binary64, b: Binary64)
    requires
        plain(a),
        plain(b),
        a.bits < b.bits,
    ensures
        units(a) < units(b),
{
    lemma_parts(a);
    lemma_parts(b);
    binary64::lemma_pow2_values();
    let g: int = a.bits as int / (HIDDEN as int);
    let h: int = b.bits as int / (HIDDEN as int);
    if b.bits >= HIDDEN {
        assert(g <= h);
        if a.bits < HIDDEN {
            lemma_pow2_pos((h - 1) as nat);
            assert(units(b) >= b.significand()) by (nonlinear_arith)
                requires
                    units(b) == b.significand() * pow2((h - 1) as nat),
                    pow2((h - 1) as nat) >= 1,
            ;
        } else if g == h {
            lemma_scale_order(a.significand(), b.significand(), (g - 1) as nat);
        } else {
            lemma_scale_order(a.significand(), (2 * HIDDEN) as nat, (g - 1) as nat);
            lemma_scaled(HIDDEN as nat, 1, (g - 1) as nat);
            assert(HIDDEN as nat * pow2(1) == 2 * HIDDEN);
            lemma_factor_order(g as nat, (h - 1) as nat, HIDDEN as nat);
            lemma_scale_order(HIDDEN as nat, b.significand(), (h - 1) as nat);
        }
    }
}

// ---- Encoding ------------------------------------------------------------------

/// Whether a significand and an exponent are such as rounding leaves.
spec fn fitting(sig: nat, x: int) -> bool {
    sig <= 2 * HIDDEN && x >= -1074 && (sig >= HIDDEN || x == -1074)
}

proof fn lemma_encoded(sig: nat, x: int)
    requires
        fitting(sig, x),
    ensures
        ({
            let d: Binary64 = binary64::encoded(false, sig, x);
            let value: nat = sig * pow2((x + 1074) as nat);
            &&& d.bits <= INFINITY_BITS
            &&& plain(d) ==> units(d) == value
            &&& d.bits == INFINITY_BITS ==> value >= top()
        }),
{
    binary64::lemma_pow2_values();
    let d: Binary64 = binary64::encoded(false, sig, x);
    let s: nat = if sig >= 2 * HIDDEN {
        sig / 2
    } else {
        sig
    };
    let y: int = if sig >= 2 * HIDDEN {
        x + 1
    } else {
        x
    };
    let value: nat = sig * pow2((x + 1074) as nat);
    assert(value == s * pow2((y + 1074) as nat)) by {
        if sig >= 2 * HIDDEN {
            lemma_scaled(HIDDEN as nat, 1, (x + 1074) as nat);
            assert(HIDDEN as nat * pow2(1) == 2 * HIDDEN);
        }
    }
    if s < HIDDEN {
        assert(d.bits == s);
        lemma2_to64();
        lemma_parts(d);
        assert(value == s);
    } else if y > 971 {
        lemma_scale_order(HIDDEN as nat, s, (y + 1074) as nat);
        lemma_factor_order(2046, (y + 1074) as nat, HIDDEN as nat);
        lemma_scaled(1, 52, 2046);
    } else {
        let bits: int = (y + 1075) * HIDDEN + (s - HIDDEN);
        assert(0 <= bits < INFINITY_BITS) by (nonlinear_arith)
            requires
                bits == (y + 1075) * HIDDEN + (s - HIDDEN),
                -1074 <= y <= 971,
                HIDDEN <= s < 2 * HIDDEN,
                HIDDEN == 0x10_0000_0000_0000,
                INFINITY_BITS == 0x7ff0_0000_0000_0000,
        ;
        assert(d.bits == bits);
        lemma_fundamental_div_mod_converse(bits, HIDDEN as int, y + 1075, s - HIDDEN);
        assert((y + 1075) * HIDDEN >= HIDDEN) by (nonlinear_arith)
            requires
                y >= -1074,
                HIDDEN > 0,
        ;
        lemma_parts(d);
    }
}

// ---- Rounding ------------------------------------------------------------------

/// The significand that rounding leaves of a number.
spec fn left(m: nat, e: int, sticky: bool) -> nat {
    let k: int = binary64::excess_bits(m, e);
    if k <= 0 {
        m * pow2((-k) as nat)
    } else {
        let q: nat = m / pow2(k as nat);
        let r: nat = m % pow2(k as nat);
        let half: nat = pow2((k - 1) as nat);
        if r > half || (r == half && (sticky || q % 2 == 1)) {
            q + 1
        } else {
            q
        }
    }
}

proof fn lemma_left(m: nat, e: int, sticky: bool)
    requires
        m > 0,
    ensures
        fitting(left(m, e, sticky), e + binary64::excess_bits(m, e)),
        binary64::rounded(false, m, e, sticky) == binary64::encoded(
            false,
            left(m, e, sticky),
            e + binary64::excess_bits(m, e),
        ),
        binary64::excess_bits(m, e) == binary64::bit_len(m) - 53 ==> left(m, e, sticky) >= HIDDEN,
{
    let k: int = binary64::excess_bits(m, e);
    let n: nat = binary64::bit_len(m);
    binary64::lemma_bit_len(m);
    binary64::lemma_pow2_values();
    if k <= 0 {
        let d: nat = (-k) as nat;
        lemma_scale_order(m, pow2(n), d);
        lemma_scaled(1, n, d);
        binary64::lemma_pow2_monotone(n + d, 53);
        lemma_scale_order(pow2((n - 1) as nat), m, d);
        lemma_scaled(1, (n - 1) as nat, d);
    } else {
        let p: nat = pow2(k as nat);
        lemma_pow2_pos(k as nat);
        let q: nat = m / p;
        if n >= k {
            lemma_scaled(1, (n - k) as nat, k as nat);
            binary64::lemma_pow2_monotone((n - k) as nat, 53);
            assert(q < 2 * HIDDEN) by (nonlinear_arith)
                requires
                    q == m / p,
                    p > 0,
                    m < pow2((n - k) as nat) * p,
                    pow2((n - k) as nat) <= 2 * HIDDEN,
            ;
        } else {
            binary64::lemma_pow2_monotone(n, k as nat);
            lemma_basic_div(m as int, p as int);
        }
        if k == n - 53 {
            lemma_scaled(1, 52, k as nat);
            assert(q >= HIDDEN) by (nonlinear_arith)
                requires
                    q == m / p,
                    p > 0,
                    m >= HIDDEN * p,
            ;
        }
    }
}

pub proof fn lemma_round_none(e: int, sticky: bool)
    ensures
        binary64::rounded(false, 0, e, sticky).bits == 0,
{
    let k: int = binary64::excess_bits(0, e);
    if k <= 0 {
        assert(0 * pow2((-k) as nat) == 0);
    } else {
        lemma_pow2_pos(k as nat);
        lemma_pow2_pos((k - 1) as nat);
        lemma_basic_div(0, pow2(k as nat) as int);
        lemma_small_mod(0, pow2(k as nat));
    }
}

proof fn lemma_bit_len_order(a: nat, b: nat)
    requires
        a <= b,
    ensures
        binary64::bit_len(a) <= binary64::bit_len(b),
{
    binary64::lemma_bit_len(b);
    binary64::lemma_bit_len_bound(a, binary64::bit_len(b));
}

/// Rounding keeps the order of numbers.
pub proof fn rounding_keeps_order(m: nat, s: bool, n: nat, t: bool, e: int)
    requires
        m <= n,
        m == n && s ==> t,
    ensures
        binary64::rounded(false, m, e, s).bits <= binary64::rounded(false, n, e, t).bits
            <= INFINITY_BITS,
{
    if n > 0 {
        lemma_left(n, e, t);
        lemma_encoded(left(n, e, t), e + binary64::excess_bits(n, e));
    }
    if m == 0 {
        lemma_round_none(e, s);
        if n == 0 {
            lemma_round_none(e, t);
        }
    } else {
        lemma_left(m, e, s);
        lemma_encoded(left(m, e, s), e + binary64::excess_bits(m, e));
        lemma_bit_len_order(m, n);
        let j: int = binary64::excess_bits(m, e);
        let k: int = binary64::excess_bits(n, e);
        let a: nat = left(m, e, s);
        let b: nat = left(n, e, t);
        assert(a * pow2((e + j + 1074) as nat) <= b * pow2((e + k + 1074) as nat)) by {
            if j == k {
                lemma_left_order(m, s, n, t, e);
                lemma_scale_order(a, b, (e + j + 1074) as nat);
            } else {
                assert(j < k && k == binary64::bit_len(n) - 53);
                binary64::lemma_pow2_values();
                lemma_scale_order(a, (2 * HIDDEN) as nat, (e + j + 1074) as nat);
                lemma_scaled(HIDDEN as nat, 1, (e + j + 1074) as nat);
                assert(HIDDEN as nat * pow2(1) == 2 * HIDDEN);
                lemma_factor_order(
                    (e + j + 1075) as nat,
                    (e + k + 1074) as nat,
                    HIDDEN as nat,
                );
                lemma_scale_order(HIDDEN as nat, b, (e + k + 1074) as nat);
            }
        }
        let c: Binary64 = binary64::rounded(false, m, e, s);
        let d: Binary64 = binary64::rounded(false, n, e, t);
        if plain(d) {
            lemma_below_top(d);
            units_keep_order(c, d);
        }
    }
}

proof fn lemma_left_order(m: nat, s: bool, n: nat, t: bool, e: int)
    requires
        m <= n,
        m == n && s ==> t,
        binary64::excess_bits(m, e) == binary64::excess_bits(n, e),
    ensures
        left(m, e, s) <= left(n, e, t),
{
    let k: int = binary64::excess_bits(m, e);
    if k <= 0 {
        lemma_scale_order(m, n, (-k) as nat);
    } else {
        let p: nat = pow2(k as nat);
        lemma_pow2_pos(k as nat);
        lemma_div_is_ordered(m as int, n as int, p as int);
        lemma_fundamental_div_mod(m as int, p as int);
        lemma_fundamental_div_mod(n as int, p as int);
    }
}

/// Digits that are all zero do not change what is rounded.
pub proof fn rounding_ignores_zeros(m: nat, e: int, d: nat)
    ensures
        binary64::rounded(false, m * pow2(d), e - d, false) == binary64::rounded(
            false,
            m,
            e,
            false,
        ),
{
    lemma_pow2_pos(d);
    if m == 0 {
        assert(0 * pow2(d) == 0);
        lemma_round_none(e, false);
        lemma_round_none(e - d, false);
    } else {
        binary64::lemma_bit_len_scale(m, d);
        let k: int = binary64::excess_bits(m, e);
        let n: nat = m * pow2(d);
        assert(binary64::excess_bits(n, e - d) == k + d);
        assert(n > 0) by (nonlinear_arith)
            requires
                n == m * pow2(d),
                m > 0,
                pow2(d) > 0,
        ;
        lemma_left(m, e, false);
        lemma_left(n, e - d, false);
        assert(left(n, e - d, false) == left(m, e, false)) by {
            if k + d <= 0 {
                lemma_scaled(m, d, (-k - d) as nat);
            } else if k <= 0 {
                let p: nat = pow2((k + d) as nat);
                lemma_scaled(m, (-k) as nat, (k + d) as nat);
                lemma_pow2_pos((k + d) as nat);
                lemma_pow2_pos((k + d - 1) as nat);
                let whole: nat = m * pow2((-k) as nat);
                assert(n == whole * p);
                lemma_div_by_multiple(whole as int, p as int);
                lemma_mod_multiples_basic(whole as int, p as int);
            } else {
                let p: nat = pow2(k as nat);
                let c: nat = pow2(d);
                lemma_scaled(1, k as nat, d);
                lemma_scaled(1, (k - 1) as nat, d);
                lemma_pow2_pos(k as nat);
                lemma_pow2_pos((k - 1) as nat);
                let q: nat = m / p;
                let r: nat = m % p;
                lemma_fundamental_div_mod(m as int, p as int);
                lemma_mod_bound(m as int, p as int);
                assert(n == q * (p * c) + r * c) by (nonlinear_arith)
                    requires
                        n == m * c,
                        m == p * q + r,
                ;
                assert(0 <= r * c < p * c) by (nonlinear_arith)
                    requires
                        0 <= r < p,
                        c > 0,
                ;
                lemma_fundamental_div_mod_converse(
                    n as int,
                    (p * c) as int,
                    q as int,
                    (r * c) as int,
                );
                let half: nat = pow2((k - 1) as nat);
                assert((r * c > half * c) == (r > half) && (r * c == half * c) == (r == half))
                    by (nonlinear_arith)
                    requires
                        c > 0,
                ;
            }
        }
    }
}

/// What rounding leaves, at an exponent not above the least: within one unit
/// of its last place.
proof fn lemma_left_value(m: nat, e: int, sticky: bool)
    requires
        m > 0,
        e <= -1074,
    ensures
        ({
            let d: Binary64 = binary64::rounded(false, m, e, sticky);
            let j: nat = (-1074 - e) as nat;
            let k: int = binary64::excess_bits(m, e);
            let value: nat = left(m, e, sticky) * pow2((k - j) as nat);
            &&& k >= j
            &&& value * pow2(j) == left(m, e, sticky) * pow2(k as nat)
            &&& value * pow2(j) <= m + pow2(k as nat)
            &&& m <= value * pow2(j) + pow2(k as nat)
            &&& k == 0 ==> left(m, e, sticky) == m
            &&& d.bits <= INFINITY_BITS
            &&& plain(d) ==> units(d) == value
            &&& d.bits == INFINITY_BITS ==> value >= top()
        }),
{
    let j: nat = (-1074 - e) as nat;
    let k: int = binary64::excess_bits(m, e);
    let a: nat = left(m, e, sticky);
    lemma_left(m, e, sticky);
    lemma_encoded(a, e + k);
    assert(e + k + 1074 == k - j);
    lemma_scaled(a, (k - j) as nat, j);
    let p: nat = pow2(k as nat);
    lemma_pow2_pos(k as nat);
    if k <= 0 {
        lemma2_to64();
        assert(a == m * 1);
        assert(a * p == a) by (nonlinear_arith)
            requires
                p == 1,
        ;
    } else {
        lemma_fundamental_div_mod(m as int, p as int);
        lemma_mod_bound(m as int, p as int);
        let q: nat = m / p;
        assert(q * p <= m < (q + 1) * p) by (nonlinear_arith)
            requires
                m == p * q + m % p,
                0 <= m % p < p,
        ;
        assert((q + 1) * p == q * p + p) by (nonlinear_arith);
    }
}

// ---- Operations on exact numbers -------------------------------------------------

/// A sum is the exact sum of the two numbers, rounded.
pub proof fn a_sum_is_rounded(a: Binary64, b: Binary64)
    requires
        plain(a),
        plain(b),
    ensures
        a.plus(b) == binary64::rounded(false, units(a) + units(b), -1074, false),
{
    reveal(binary64::spec_plus);
    lemma_parts(a);
    lemma_parts(b);
    let e: int = binary64::lower(a.exponent(), b.exponent());
    let t: nat = (e + 1074) as nat;
    let x: nat = a.significand() * pow2((a.exponent() - e) as nat);
    let y: nat = b.significand() * pow2((b.exponent() - e) as nat);
    lemma_scaled(a.significand(), (a.exponent() - e) as nat, t);
    lemma_scaled(b.significand(), (b.exponent() - e) as nat, t);
    assert(x * pow2(t) == units(a) && y * pow2(t) == units(b));
    assert((x + y) * pow2(t) == x * pow2(t) + y * pow2(t)) by (nonlinear_arith);
    rounding_ignores_zeros(x + y, e, t);
    if x + y == 0 {
        lemma_round_none(e, false);
    }
}

/// A product is the exact product of the two numbers, rounded.
pub proof fn a_product_is_rounded(a: Binary64, b: Binary64)
    requires
        plain(a),
        plain(b),
    ensures
        a.times(b) == binary64::rounded(false, units(a) * units(b), -2148, false),
{
    reveal(binary64::spec_times);
    lemma_parts(a);
    lemma_parts(b);
    let s: nat = a.significand();
    let t: nat = b.significand();
    let i: nat = (a.exponent() + 1074) as nat;
    let j: nat = (b.exponent() + 1074) as nat;
    lemma_scaled(1, i, j);
    assert((s * t) * (pow2(i) * pow2(j)) == (s * pow2(i)) * (t * pow2(j))) by (nonlinear_arith);
    rounding_ignores_zeros(s * t, a.exponent() + b.exponent(), i + j);
}

/// The scale at which quotients are taken.
pub open spec fn fine() -> nat {
    pow2(2300)
}

/// A quotient is the exact quotient of the two numbers, rounded.
pub proof fn lemma_over(a: Binary64, b: Binary64)
    requires
        plain(a),
        plain(b),
        units(b) > 0,
    ensures
        a.over(b) == binary64::rounded(
            false,
            (units(a) * fine()) / units(b),
            -2300,
            (units(a) * fine()) % units(b) != 0,
        ),
{
    reveal(binary64::spec_over);
    lemma_parts(a);
    lemma_parts(b);
    let sa: nat = a.significand();
    let sb: nat = b.significand();
    lemma_pow2_pos((b.exponent() + 1074) as nat);
    lemma_pow2_pos((a.exponent() + 1074) as nat);
    assert(sb > 0) by {
        if sb == 0 {
            assert(0 * pow2((b.exponent() + 1074) as nat) == 0);
        }
    }
    assert(!b.zero());
    if sa == 0 {
        assert(a.zero());
        assert(units(a) == 0) by (nonlinear_arith)
            requires
                units(a) == 0 * pow2((a.exponent() + 1074) as nat),
        ;
        assert(0 * fine() == 0);
        lemma_div_of0(units(b) as int);
        lemma_small_mod(0, units(b));
        lemma_round_none(-2300, false);
    } else {
        assert(!a.zero());
        let n: nat = sa * pow2(120);
        let t: nat = (a.exponent() - b.exponent() + 2180) as nat;
        let c: nat = pow2((b.exponent() + 1074) as nat);
        let x: nat = n * pow2(t);
        let m: nat = x / sb;
        assert(x * c == units(a) * fine() && sb * c == units(b)) by {
            lemma_scaled(sa, 120, t);
            lemma_scaled(sa, 120 + t, (b.exponent() + 1074) as nat);
            lemma_scaled(sa, (a.exponent() + 1074) as nat, 2300);
        }
        lemma_common_factor(x, sb, c);
        lemma_finer(n, sb, t);
        assert(binary64::bit_len(m) >= t + 55) by {
            lemma_wide(sa, sb, t);
        }
        binary64::lemma_round_drop(false, m, -2300, t, x % sb != 0);
    }
}

pub proof fn lemma_common_factor(x: nat, s: nat, c: nat)
    requires
        s > 0,
        c > 0,
    ensures
        (x * c) / (s * c) == x / s,
        ((x * c) % (s * c) != 0) == (x % s != 0),
{
    let q: nat = x / s;
    let r: nat = x % s;
    lemma_fundamental_div_mod(x as int, s as int);
    lemma_mod_bound(x as int, s as int);
    assert(x * c == q * (s * c) + r * c) by (nonlinear_arith)
        requires
            x == s * q + r,
    ;
    assert(0 <= r * c < s * c && (r * c == 0) == (r == 0)) by (nonlinear_arith)
        requires
            0 <= r < s,
            c > 0,
    ;
    lemma_fundamental_div_mod_converse(
        (x * c) as int,
        (s * c) as int,
        q as int,
        (r * c) as int,
    );
}

proof fn lemma_finer(n: nat, s: nat, t: nat)
    requires
        s > 0,
    ensures
        ({
            let x: nat = n * pow2(t);
            &&& (x / s) / pow2(t) == n / s
            &&& (x % s != 0 || (x / s) % pow2(t) != 0) == (n % s != 0)
        }),
{
    let p: nat = pow2(t);
    lemma_pow2_pos(t);
    let x: nat = n * p;
    let q: nat = n / s;
    let r: nat = n % s;
    lemma_fundamental_div_mod(n as int, s as int);
    lemma_mod_bound(n as int, s as int);
    let f: nat = (r * p) / s;
    let g: nat = (r * p) % s;
    lemma_fundamental_div_mod((r * p) as int, s as int);
    lemma_mod_bound((r * p) as int, s as int);
    assert(x == (q * p + f) * s + g) by (nonlinear_arith)
        requires
            x == n * p,
            n == s * q + r,
            r * p == s * f + g,
    ;
    lemma_fundamental_div_mod_converse(x as int, s as int, (q * p + f) as int, g as int);
    assert(f < p) by (nonlinear_arith)
        requires
            r * p == s * f + g,
            0 <= r < s,
            g >= 0,
            p > 0,
    ;
    lemma_fundamental_div_mod_converse((q * p + f) as int, p as int, q as int, f as int);
    assert((f == 0 && g == 0) == (r == 0)) by (nonlinear_arith)
        requires
            r * p == s * f + g,
            f >= 0,
            g >= 0,
            s > 0,
            p > 0,
            r >= 0,
    ;
}

proof fn lemma_wide(sa: nat, sb: nat, t: nat)
    requires
        sa > 0,
        0 < sb < 2 * HIDDEN,
    ensures
        binary64::bit_len(((sa * pow2(120)) * pow2(t)) / sb) >= t + 55,
{
    let x: nat = (sa * pow2(120)) * pow2(t);
    let m: nat = x / sb;
    binary64::lemma_pow2_values();
    lemma_scaled(sa, 120, t);
    lemma_scaled(1, 53, 67 + t);
    lemma_pow2_pos(120 + t);
    lemma_pow2_pos(67 + t);
    assert(x >= pow2(120 + t)) by (nonlinear_arith)
        requires
            x == sa * pow2(120 + t),
            sa >= 1,
    ;
    let w: nat = pow2(67 + t);
    assert(m >= w) by (nonlinear_arith)
        requires
            m == x / sb,
            x >= (2 * HIDDEN) * w,
            0 < sb < 2 * HIDDEN,
            w > 0,
    ;
    binary64::lemma_bit_len(m);
    if binary64::bit_len(m) < t + 55 {
        binary64::lemma_pow2_monotone(binary64::bit_len(m), 67 + t);
    }
}

/// Quotients stand in the order of the exact ones.
pub proof fn quotients_keep_order(a: Binary64, b: Binary64, c: Binary64, d: Binary64)
    requires
        plain(a),
        plain(b),
        plain(c),
        plain(d),
        units(b) > 0,
        units(d) > 0,
        units(a) * units(d) <= units(c) * units(b),
    ensures
        a.over(b).bits <= c.over(d).bits <= INFINITY_BITS,
{
    lemma_over(a, b);
    lemma_over(c, d);
    let k: nat = fine();
    lemma_pow2_pos(2300);
    let x: nat = units(a) * k;
    let y: nat = units(c) * k;
    let v: nat = units(b);
    let w: nat = units(d);
    let m: nat = x / v;
    let n: nat = y / w;
    let r: nat = x % v;
    let s: nat = y % w;
    lemma_fundamental_div_mod(x as int, v as int);
    lemma_fundamental_div_mod(y as int, w as int);
    lemma_mod_bound(x as int, v as int);
    lemma_mod_bound(y as int, w as int);
    assert(x * w <= y * v) by (nonlinear_arith)
        requires
            x == units(a) * k,
            y == units(c) * k,
            units(a) * w <= units(c) * v,
            k > 0,
    ;
    lemma_quotient_order(x, v, m, r, y, w, n, s);
    rounding_keeps_order(m, r != 0, n, s != 0, -2300);
}

proof fn lemma_quotient_order(
    x: nat,
    v: nat,
    m: nat,
    r: nat,
    y: nat,
    w: nat,
    n: nat,
    s: nat,
)
    requires
        v > 0,
        w > 0,
        x == v * m + r,
        y == w * n + s,
        r < v,
        s < w,
        x * w <= y * v,
    ensures
        m <= n,
        m == n && r != 0 ==> s != 0,
{
    assert(x * w == (v * w) * m + r * w) by (nonlinear_arith)
        requires
            x == v * m + r,
    ;
    assert(y * v == (v * w) * n + s * v) by (nonlinear_arith)
        requires
            y == w * n + s,
    ;
    assert(s * v < v * w && r * w >= 0) by (nonlinear_arith)
        requires
            s < w,
            v > 0,
            r >= 0,
            w > 0,
    ;
    let p: nat = v * w;
    if m > n {
        assert(p * m >= p * n + p) by (nonlinear_arith)
            requires
                m >= n + 1,
                p >= 0,
        ;
    }
    if m == n && r != 0 && s == 0 {
        assert(r * w > 0) by (nonlinear_arith)
            requires
                r > 0,
                w > 0,
        ;
        assert(s * v == 0) by (nonlinear_arith)
            requires
                s == 0,
        ;
    }
}

// ---- Size ------------------------------------------------------------------------

/// Whether two numbers agree to within a part in two to the fiftieth.
pub open spec fn near(x: nat, y: nat) -> bool {
    &&& x * 0x4_0000_0000_0000 <= y * 0x4_0000_0000_0001
    &&& y * 0x3_ffff_ffff_ffff <= x * 0x4_0000_0000_0000
}

proof fn lemma_round_near(m: nat, e: int, sticky: bool)
    requires
        e <= -1074,
        e == -1074 || m >= pow2((-1022 - e) as nat),
    ensures
        ({
            let d: Binary64 = binary64::rounded(false, m, e, sticky);
            let p: nat = pow2((-1074 - e) as nat);
            &&& d.bits <= INFINITY_BITS
            &&& 2 * m < top() * p ==> plain(d)
            &&& plain(d) ==> units(d) * p * HIDDEN <= m * (HIDDEN + 1)
            &&& plain(d) ==> m * (HIDDEN - 1) <= units(d) * p * HIDDEN
        }),
{
    let d: Binary64 = binary64::rounded(false, m, e, sticky);
    let j: nat = (-1074 - e) as nat;
    let p: nat = pow2(j);
    lemma_pow2_pos(j);
    lemma_pow2_pos(2098);
    binary64::lemma_pow2_values();
    if m == 0 {
        lemma_round_none(e, sticky);
        if e < -1074 {
            lemma_pow2_pos((-1022 - e) as nat);
        }
        lemma_parts(d);
        assert(0 * p * HIDDEN == 0);
    } else {
        lemma_left_value(m, e, sticky);
        let k: int = binary64::excess_bits(m, e);
        let n: nat = binary64::bit_len(m);
        let value: nat = left(m, e, sticky) * pow2((k - j) as nat);
        binary64::lemma_bit_len(m);
        if e < -1074 {
            if n < j + 53 {
                binary64::lemma_pow2_monotone(n, (-1022 - e) as nat);
            }
        }
        if k == n - 53 && k >= 0 {
            let c: nat = pow2(k as nat);
            lemma_pow2_pos(k as nat);
            lemma_scaled(1, 52, k as nat);
            assert(m >= HIDDEN * c);
            let z: nat = value * p;
            assert(z <= m + c && m <= z + c);
            assert(z * HIDDEN <= m * (HIDDEN + 1) && m * (HIDDEN - 1) <= z * HIDDEN);
            assert(value >= top() ==> z >= top() * p) by (nonlinear_arith)
                requires
                    z == value * p,
            ;
        } else {
            assert(k == 0 && j == 0);
            lemma_pow2_pos(0);
            assert(value == m * 1);
            assert(p == 1);
            assert(value * p == m && top() * p == top()) by (nonlinear_arith)
                requires
                    value == m * 1,
                    p == 1,
            ;
            assert(m * HIDDEN <= m * (HIDDEN + 1) && m * (HIDDEN - 1) <= m * HIDDEN);
        }
    }
}

/// A sum is near the exact one.
pub proof fn a_sum_is_near(a: Binary64, b: Binary64)
    requires
        plain(a),
        plain(b),
        2 * (units(a) + units(b)) < top(),
    ensures
        plain(a.plus(b)),
        near(units(a.plus(b)), units(a) + units(b)),
{
    a_sum_is_rounded(a, b);
    lemma_round_near(units(a) + units(b), -1074, false);
    lemma2_to64();
    let u: nat = units(a.plus(b));
    assert(u * 1 == u && top() * 1 == top());
}

/// A quotient that is no smaller than the least normal value, and not out of
/// range, is near the exact one.
pub proof fn a_quotient_is_near(a: Binary64, b: Binary64)
    requires
        plain(a),
        plain(b),
        units(b) > 0,
        units(b) <= units(a) * pow2(1022),
        units(a) < units(b) * pow2(1000),
    ensures
        plain(a.over(b)),
        near(units(a.over(b)) * units(b), units(a) * one()),
{
    lemma_over(a, b);
    let x: nat = units(a) * fine();
    let v: nat = units(b);
    let m: nat = x / v;
    let s: bool = x % v != 0;
    lemma_fundamental_div_mod(x as int, v as int);
    lemma_mod_bound(x as int, v as int);
    lemma_pow2_pos(1278);
    lemma_pow2_pos(1226);
    let low: nat = pow2(1278);
    let p: nat = pow2(1226);
    assert(x >= v * low) by {
        lemma_scaled(units(a), 1022, 1278);
        lemma_scale_order(v, units(a) * pow2(1022), 1278);
    }
    assert(m >= low) by (nonlinear_arith)
        requires
            m == x / v,
            v > 0,
            x >= v * low,
    ;
    assert(x < v * (top() * p)) by {
        lemma_scaled(v, 1000, 2300);
        lemma_scale_order(units(a), v * pow2(1000), 2300);
        lemma_scaled(1, 2098, 1226);
        lemma_pow2_pos(2300);
        binary64::lemma_pow2_monotone(3301, 3324);
        lemma_factor_order(3300, 3324, v);
    }
    assert(2 * m < top() * p) by {
        lemma_scaled(v, 1000, 2300);
        lemma_scale_order(units(a), v * pow2(1000), 2300);
        lemma_scaled(1, 2098, 1226);
        let w: nat = pow2(3300);
        assert(x < v * w);
        assert(m < w) by (nonlinear_arith)
            requires
                m == x / v,
                v > 0,
                x < v * w,
        ;
        lemma_scaled(1, 3300, 1);
        lemma2_to64();
        binary64::lemma_pow2_monotone(3301, 3324);
    }
    lemma_round_near(m, -2300, s);
    let r: nat = units(a.over(b));
    lemma_scaled(units(a), 1074, 1226);
    assert(x == (units(a) * one()) * p);
    binary64::lemma_pow2_values();
    binary64::lemma_pow2_monotone(64, 1278);
    lemma_scale_back(r, p, m, v, x, units(a) * one());
}

proof fn lemma_scale_back(r: nat, p: nat, m: nat, v: nat, x: nat, y: nat)
    requires
        p > 0,
        v > 0,
        x == y * p,
        m == x / v,
        m >= 0x1_0000_0000_0000_0000,
        r * p * HIDDEN <= m * (HIDDEN + 1),
        m * (HIDDEN - 1) <= r * p * HIDDEN,
    ensures
        near(r * v, y),
{
    let q: nat = r * p;
    lemma_fundamental_div_mod(x as int, v as int);
    lemma_mod_bound(x as int, v as int);
    let mv: nat = m * v;
    assert(mv <= x < mv + v) by (nonlinear_arith)
        requires
            mv == m * v,
            x == v * m + x % v,
            0 <= x % v < v,
    ;
    assert(v * 0x1_0000_0000_0000_0000 <= mv) by (nonlinear_arith)
        requires
            mv == m * v,
            m >= 0x1_0000_0000_0000_0000,
            v > 0,
    ;
    let qv: nat = q * v;
    assert(qv * HIDDEN <= mv * (HIDDEN + 1)) by (nonlinear_arith)
        requires
            qv == q * v,
            mv == m * v,
            q * HIDDEN <= m * (HIDDEN + 1),
            v > 0,
    ;
    assert(mv * (HIDDEN - 1) <= qv * HIDDEN) by (nonlinear_arith)
        requires
            qv == q * v,
            mv == m * v,
            m * (HIDDEN - 1) <= q * HIDDEN,
            v > 0,
    ;
    assert(mv * (HIDDEN + 1) == mv * 0x10_0000_0000_0001 && mv * (HIDDEN - 1) == mv
        * 0xf_ffff_ffff_ffff && qv * HIDDEN == qv * 0x10_0000_0000_0000);
    assert(qv * 0x4_0000_0000_0000 <= x * 0x4_0000_0000_0001);
    assert(x * 0x3_ffff_ffff_ffff <= qv * 0x4_0000_0000_0000);
    assert(near(qv, x));
    assert(qv == (r * v) * p) by (nonlinear_arith)
        requires
            qv == q * v,
            q == r * p,
    ;
    let z: nat = r * v;
    assert(z * 0x4_0000_0000_0000 <= y * 0x4_0000_0000_0001) by (nonlinear_arith)
        requires
            (z * p) * 0x4_0000_0000_0000 <= (y * p) * 0x4_0000_0000_0001,
            p > 0,
    ;
    assert(y * 0x3_ffff_ffff_ffff <= z * 0x4_0000_0000_0000) by (nonlinear_arith)
        requires
            (y * p) * 0x3_ffff_ffff_ffff <= (z * p) * 0x4_0000_0000_0000,
            p > 0,
    ;
}

// ---- Exact values ------------------------------------------------------------------

/// A number whose digits fit a significand is kept as it is.
pub proof fn short_numbers_are_exact(sig: nat, t: nat)
    requires
        sig < 2 * HIDDEN,
        sig * pow2(t) < top(),
    ensures
        plain(binary64::rounded(false, sig * pow2(t), -1074, false)),
        units(binary64::rounded(false, sig * pow2(t), -1074, false)) == sig * pow2(t),
{
    let m: nat = sig * pow2(t);
    lemma_pow2_pos(t);
    let d: Binary64 = binary64::rounded(false, m, -1074, false);
    if sig == 0 {
        assert(m == 0) by (nonlinear_arith)
            requires
                m == 0 * pow2(t),
        ;
        lemma_round_none(-1074, false);
        lemma_parts(d);
    } else {
        assert(m > 0) by (nonlinear_arith)
            requires
                m == sig * pow2(t),
                sig > 0,
                pow2(t) > 0,
        ;
        lemma_left_value(m, -1074, false);
        binary64::lemma_bit_len_scale(sig, t);
        binary64::lemma_pow2_values();
        binary64::lemma_bit_len_bound(sig, 53);
        let k: int = binary64::excess_bits(m, -1074);
        let a: nat = left(m, -1074, false);
        assert(0 <= k <= t);
        if k > 0 {
            let p: nat = pow2(k as nat);
            lemma_pow2_pos(k as nat);
            lemma_pow2_pos((k - 1) as nat);
            lemma_scaled(sig, (t - k) as nat, k as nat);
            let q: nat = sig * pow2((t - k) as nat);
            assert(m == q * p);
            lemma_div_by_multiple(q as int, p as int);
            lemma_mod_multiples_basic(q as int, p as int);
            assert(a == q);
        } else {
            assert(a == m);
            assert(m * 1 == m);
        }
        assert(a * pow2(k as nat) == m);
        assert(pow2(0) == 1);
        assert(a * pow2(k as nat) * 1 == m);
    }
}

/// Whole numbers up to two to the fifty-third are exact.
pub proof fn whole_numbers_are_exact(n: u64)
    requires
        n < 2 * HIDDEN,
    ensures
        plain(Binary64::whole(n)),
        units(Binary64::whole(n)) == n * one(),
{
    reveal(binary64::spec_whole);
    rounding_ignores_zeros(n as nat, 0, 1074);
    binary64::lemma_pow2_values();
    lemma_scaled(1, 53, 1074);
    lemma_scale_order(n as nat, (2 * HIDDEN) as nat, 1074);
    binary64::lemma_pow2_monotone(1127, 2098);
    short_numbers_are_exact(n as nat, 1074);
}

/// A whole number of times a value is the exact product, rounded.
pub proof fn a_multiple_is_rounded(n: u64, x: Binary64)
    requires
        n < 2 * HIDDEN,
        plain(x),
    ensures
        Binary64::whole(n).times(x) == binary64::rounded(
            false,
            n as nat * units(x),
            -1074,
            false,
        ),
{
    whole_numbers_are_exact(n);
    a_product_is_rounded(Binary64::whole(n), x);
    assert((n * one()) * units(x) == (n as nat * units(x)) * pow2(1074)) by (nonlinear_arith);
    rounding_ignores_zeros(n as nat * units(x), -1074, 1074);
}

/// Four times a value is exact while it is in range.
pub proof fn four_times_is_exact(x: Binary64)
    requires
        plain(x),
        4 * units(x) < top(),
    ensures
        plain(Binary64::whole(4).times(x)),
        units(Binary64::whole(4).times(x)) == 4 * units(x),
{
    a_multiple_is_rounded(4, x);
    lemma_parts(x);
    let t: nat = (x.exponent() + 1074) as nat;
    lemma2_to64();
    lemma_scaled(x.significand(), t, 2);
    assert(4 * units(x) == x.significand() * pow2(t + 2));
    short_numbers_are_exact(x.significand(), t + 2);
}

/// A whole number of times a value is near the exact product.
pub proof fn a_multiple_is_near(n: u64, x: Binary64)
    requires
        n < 2 * HIDDEN,
        plain(x),
        2 * (n as nat * units(x)) < top(),
    ensures
        plain(Binary64::whole(n).times(x)),
        near(units(Binary64::whole(n).times(x)), n as nat * units(x)),
{
    a_multiple_is_rounded(n, x);
    lemma_round_near(n as nat * units(x), -1074, false);
    lemma2_to64();
    let u: nat = units(Binary64::whole(n).times(x));
    assert(u * 1 == u && top() * 1 == top());
}

/// A value is what its number rounds to.
pub proof fn values_round_to_themselves(x: Binary64)
    requires
        plain(x),
    ensures
        binary64::rounded(false, units(x), -1074, false) == x,
{
    lemma_parts(x);
    lemma_below_top(x);
    short_numbers_are_exact(x.significand(), (x.exponent() + 1074) as nat);
    units_keep_order(x, binary64::rounded(false, units(x), -1074, false));
}

/// Sums grow with both parts.
pub proof fn sums_keep_order(a: Binary64, b: Binary64, c: Binary64, d: Binary64)
    requires
        plain(a),
        plain(b),
        plain(c),
        plain(d),
        a.bits <= c.bits,
        b.bits <= d.bits,
    ensures
        a.plus(b).bits <= c.plus(d).bits <= INFINITY_BITS,
{
    units_keep_order(a, c);
    units_keep_order(b, d);
    a_sum_is_rounded(a, b);
    a_sum_is_rounded(c, d);
    rounding_keeps_order(units(a) + units(b), false, units(c) + units(d), false, -1074);
}

/// Products grow with both parts.
pub proof fn products_keep_order(a: Binary64, b: Binary64, c: Binary64, d: Binary64)
    requires
        plain(a),
        plain(b),
        plain(c),
        plain(d),
        a.bits <= c.bits,
        b.bits <= d.bits,
    ensures
        a.times(b).bits <= c.times(d).bits <= INFINITY_BITS,
{
    units_keep_order(a, c);
    units_keep_order(b, d);
    a_product_is_rounded(a, b);
    a_product_is_rounded(c, d);
    assert(units(a) * units(b) <= units(c) * units(d)) by (nonlinear_arith)
        requires
            units(a) <= units(c),
            units(b) <= units(d),
    ;
    rounding_keeps_order(units(a) * units(b), false, units(c) * units(d), false, -2148);
}

/// A difference is the exact difference of the two numbers, rounded.
pub proof fn a_difference_is_rounded(a: Binary64, b: Binary64)
    requires
        plain(a),
        plain(b),
        units(b) <= units(a),
    ensures
        a.minus(b) == binary64::rounded(false, (units(a) - units(b)) as nat, -1074, false),
{
    reveal(binary64::spec_plus);
    lemma_parts(a);
    lemma_parts(b);
    reveal(binary64::spec_neg);
    let c: Binary64 = binary64::spec_neg(b);
    assert(c.magnitude_bits() == b.magnitude_bits());
    assert(c.significand() == b.significand() && c.exponent() == b.exponent());
    let e: int = binary64::lower(a.exponent(), b.exponent());
    let t: nat = (e + 1074) as nat;
    let x: nat = a.significand() * pow2((a.exponent() - e) as nat);
    let y: nat = b.significand() * pow2((b.exponent() - e) as nat);
    lemma_scaled(a.significand(), (a.exponent() - e) as nat, t);
    lemma_scaled(b.significand(), (b.exponent() - e) as nat, t);
    lemma_pow2_pos(t);
    assert(x * pow2(t) == units(a) && y * pow2(t) == units(b));
    assert(y <= x) by (nonlinear_arith)
        requires
            y * pow2(t) <= x * pow2(t),
            pow2(t) > 0,
    ;
    let z: nat = (x - y) as nat;
    assert(z * pow2(t) == x * pow2(t) - y * pow2(t)) by (nonlinear_arith)
        requires
            z == x - y,
    ;
    rounding_ignores_zeros(z, e, t);
    if z == 0 {
        lemma_round_none(e, false);
    }
}

/// A difference is near the exact one.
pub proof fn a_difference_is_near(a: Binary64, b: Binary64)
    requires
        plain(a),
        plain(b),
        units(b) <= units(a),
        2 * units(a) < top(),
    ensures
        plain(a.minus(b)),
        near(units(a.minus(b)), (units(a) - units(b)) as nat),
{
    a_difference_is_rounded(a, b);
    lemma_round_near((units(a) - units(b)) as nat, -1074, false);
    lemma2_to64();
    let u: nat = units(a.minus(b));
    assert(u * 1 == u && top() * 1 == top());
}

/// A product that is no smaller than the least normal value, and not out of
/// range, is near the exact one.
pub proof fn a_product_is_near(a: Binary64, b: Binary64)
    requires
        plain(a),
        plain(b),
        units(a) * units(b) >= pow2(1126),
        2 * (units(a) * units(b)) < top() * one(),
    ensures
        plain(a.times(b)),
        near(units(a.times(b)) * one(), units(a) * units(b)),
{
    a_product_is_rounded(a, b);
    let m: nat = units(a) * units(b);
    lemma_round_near(m, -2148, false);
    let z: nat = units(a.times(b)) * one();
    assert(z * HIDDEN == z * 0x10_0000_0000_0000 && m * (HIDDEN + 1) == m * 0x10_0000_0000_0001
        && m * (HIDDEN - 1) == m * 0xf_ffff_ffff_ffff);
}

proof fn lemma_magnitude(sig: nat, x: int)
    requires
        fitting(sig, x),
    ensures
        binary64::spec_abs(binary64::encoded(true, sig, x)) == binary64::encoded(false, sig, x),
{
    reveal(binary64::spec_abs);
    let s: nat = if sig >= 2 * HIDDEN {
        sig / 2
    } else {
        sig
    };
    let y: int = if sig >= 2 * HIDDEN {
        x + 1
    } else {
        x
    };
    if s >= HIDDEN && y <= 971 {
        let m: int = (y + 1075) * HIDDEN + (s - HIDDEN);
        assert(0 <= m < INFINITY_BITS) by (nonlinear_arith)
            requires
                m == (y + 1075) * HIDDEN + (s - HIDDEN),
                -1074 <= y <= 971,
                HIDDEN <= s < 2 * HIDDEN,
                HIDDEN == 0x10_0000_0000_0000,
                INFINITY_BITS == 0x7ff0_0000_0000_0000,
        ;
    }
}

/// How far two values are apart is near the exact distance.
pub proof fn a_distance_is_near(a: Binary64, b: Binary64)
    requires
        plain(a),
        plain(b),
        2 * units(a) < top(),
        2 * units(b) < top(),
    ensures
        plain(a.minus(b).abs()),
        near(
            units(a.minus(b).abs()),
            if units(a) >= units(b) {
                (units(a) - units(b)) as nat
            } else {
                (units(b) - units(a)) as nat
            },
        ),
{
    if units(a) >= units(b) {
        a_difference_is_near(a, b);
        reveal(binary64::spec_abs);
    } else {
        a_difference_is_near(b, a);
        a_difference_is_rounded(b, a);
        reveal(binary64::spec_plus);
        reveal(binary64::spec_neg);
        lemma_parts(a);
        lemma_parts(b);
        let c: Binary64 = binary64::spec_neg(b);
        assert(c.magnitude_bits() == b.magnitude_bits());
        assert(c.significand() == b.significand() && c.exponent() == b.exponent());
        let e: int = binary64::lower(a.exponent(), b.exponent());
        let t: nat = (e + 1074) as nat;
        let x: nat = a.significand() * pow2((a.exponent() - e) as nat);
        let y: nat = b.significand() * pow2((b.exponent() - e) as nat);
        lemma_scaled(a.significand(), (a.exponent() - e) as nat, t);
        lemma_scaled(b.significand(), (b.exponent() - e) as nat, t);
        lemma_pow2_pos(t);
        assert(x * pow2(t) == units(a) && y * pow2(t) == units(b));
        assert(x < y) by (nonlinear_arith)
            requires
                x * pow2(t) < y * pow2(t),
                pow2(t) > 0,
        ;
        let z: nat = (y - x) as nat;
        assert(z * pow2(t) == y * pow2(t) - x * pow2(t)) by (nonlinear_arith)
            requires
                z == y - x,
        ;
        assert(a.minus(b) == binary64::rounded(true, z, e, false));
        lemma_left(z, e, false);
        assert(binary64::rounded(true, z, e, false) == binary64::encoded(
            true,
            left(z, e, false),
            e + binary64::excess_bits(z, e),
        ));
        lemma_magnitude(left(z, e, false), e + binary64::excess_bits(z, e));
        rounding_ignores_zeros(z, e, t);
    }
}

} // verus!
