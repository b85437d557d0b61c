//! Quotients and roots of binary64 values that clearly differ, bounds within
//! which a value is kept, and whole parts.
use crate::binary64;
use crate::binary64::{Binary64, HIDDEN, INFINITY_BITS};
use crate::binary64_laws;
use vstd::arithmetic::div_mod::*;
use vstd::arithmetic::power2::*;
use vstd::prelude::*;

verus! {

/// Whether a number is smaller than another by more than a millionth.
pub open spec fn clearly_less(x: nat, y: nat) -> bool {
    y > 0 && x * 1_000_001 <= y * 1_000_000
}

/// Whether two numbers agree to within a millionth.
pub open spec fn close(x: nat, y: nat) -> bool {
    &&& x * 1_000_000 <= y * 1_000_001
    &&& y * 1_000_000 <= x * 1_000_001
}

pub proof fn lemma_near_scaled(x: nat, y: nat, k: nat)
    requires
        binary64_laws::near(x, y),
    ensures
        binary64_laws::near(x * k, y * k),
{
    assert((x * k) * 0x4_0000_0000_0000 <= (y * k) * 0x4_0000_0000_0001) by (nonlinear_arith)
        requires
            x * 0x4_0000_0000_0000 <= y * 0x4_0000_0000_0001,
            k >= 0,
    ;
    assert((y * k) * 0x3_ffff_ffff_ffff <= (x * k) * 0x4_0000_0000_0000) by (nonlinear_arith)
        requires
            y * 0x3_ffff_ffff_ffff <= x * 0x4_0000_0000_0000,
            k >= 0,
    ;
}

/// Whether a quotient is neither below the normal values nor out of range.
pub open spec fn in_range(a: Binary64, b: Binary64) -> bool {
    &&& binary64_laws::plain(a)
    &&& binary64_laws::plain(b)
    &&& binary64_laws::units(b) > 0
    &&& binary64_laws::units(b) <= binary64_laws::units(a) * pow2(1022)
    &&& binary64_laws::units(a) < binary64_laws::units(b) * pow2(1000)
}

/// Quotients whose exact values differ by more than a part in two to the
/// forty-sixth stand in their order, strictly.
pub proof fn clear_quotients_differ(a: Binary64, b: Binary64, c: Binary64, d: Binary64)
    requires
        in_range(a, b),
        in_range(c, d),
        binary64_laws::units(a) * binary64_laws::units(d) * 0x4000_0000_0001
            <= binary64_laws::units(c) * binary64_laws::units(b) * 0x4000_0000_0000,
    ensures
        a.over(b).bits < c.over(d).bits < INFINITY_BITS,
{
    binary64_laws::a_quotient_is_near(a, b);
    binary64_laws::a_quotient_is_near(c, d);
    let ua: nat = binary64_laws::units(a);
    let ub: nat = binary64_laws::units(b);
    let uc: nat = binary64_laws::units(c);
    let ud: nat = binary64_laws::units(d);
    let q: nat = binary64_laws::units(a.over(b));
    let r: nat = binary64_laws::units(c.over(d));
    let one: nat = binary64_laws::one();
    lemma_pow2_pos(1074);
    lemma_near_scaled(q * ub, ua * one, ud);
    lemma_near_scaled(r * ud, uc * one, ub);
    let x: nat = q * ub * ud;
    let y: nat = r * ud * ub;
    let s: nat = (ua * one) * ud;
    let t: nat = (uc * one) * ub;
    assert(s * 0x4000_0000_0001 <= t * 0x4000_0000_0000) by (nonlinear_arith)
        requires
            s == (ua * one) * ud,
            t == (uc * one) * ub,
            ua * ud * 0x4000_0000_0001 <= uc * ub * 0x4000_0000_0000,
            one > 0,
    ;
    assert(uc > 0) by {
        if uc == 0 {
            assert(0 * pow2(1022) == 0);
        }
    }
    assert(t > 0) by (nonlinear_arith)
        requires
            t == (uc * one) * ub,
            uc > 0,
            one > 0,
            ub > 0,
    ;
    assert(x < y);
    assert(q < r) by (nonlinear_arith)
        requires
            x < y,
            x == q * ub * ud,
            y == r * ud * ub,
            ub > 0,
            ud > 0,
    ;
    binary64_laws::units_keep_order(a.over(b), c.over(d));
}

// ---- Roots -----------------------------------------------------------------------

proof fn lemma_root_exists(m: nat) -> (root: nat)
    ensures
        binary64::is_root(root, m),
    decreases m,
{
    if m == 0 {
        let none: nat = 0;
        assert(none * none <= m < (none + 1) * (none + 1)) by (nonlinear_arith)
            requires
                none == 0,
                m == 0,
        ;
        none
    } else {
        let r: nat = lemma_root_exists((m - 1) as nat);
        assert((r + 2) * (r + 2) > (r + 1) * (r + 1)) by (nonlinear_arith);
        if m >= (r + 1) * (r + 1) {
            r + 1
        } else {
            r
        }
    }
}

proof fn lemma_root_order(a: nat, m: nat, b: nat, n: nat)
    requires
        binary64::is_root(a, m),
        binary64::is_root(b, n),
        m <= n,
    ensures
        a <= b,
        a == b && a * a != m ==> b * b != n,
{
    assert(a <= b) by (nonlinear_arith)
        requires
            a * a <= m,
            m <= n,
            n < (b + 1) * (b + 1),
    ;
}

/// The number under the root, at the scale at which roots are taken.
spec fn squared(a: Binary64) -> nat {
    binary64_laws::units(a) * pow2(1326)
}

spec fn root_of(m: nat) -> nat {
    choose|root: nat| binary64::is_root(root, m)
}

proof fn lemma_root_of(m: nat)
    ensures
        binary64::is_root(root_of(m), m),
{
    let r: nat = lemma_root_exists(m);
    assert(binary64::is_root(r, m));
}

/// A root is the exact root, rounded.
proof fn lemma_sqrt(a: Binary64)
    requires
        binary64_laws::plain(a),
        a.bits > 0,
    ensures
        ({
            let r: nat = root_of(squared(a));
            a.sqrt() == binary64::rounded(false, r, -1200, r * r != squared(a))
        }),
{
    reveal(binary64::spec_sqrt);
    binary64_laws::lemma_parts(a);
    let sig: nat = a.significand();
    assert(sig > 0);
    let s: int = binary64::root_shift(a);
    binary64::lemma_pow2_values();
    binary64::lemma_bit_len(sig);
    binary64::lemma_bit_len_bound(sig, 53);
    let n: nat = binary64::bit_len(sig);
    assert(1 <= n <= 53);
    assert(70 <= s <= 123);
    let m: nat = sig * pow2(s as nat);
    let root: nat = root_of(m);
    lemma_root_of(m);
    let e: int = (a.exponent() - s) / 2;
    assert(a.exponent() - s == 2 * e);
    let t: nat = (e + 1200) as nat;
    let p: nat = pow2(t);
    lemma_pow2_pos(t);
    let big: nat = squared(a);
    assert(big == m * (p * p)) by {
        binary64_laws::lemma_scaled(sig, (a.exponent() + 1074) as nat, 1326);
        binary64_laws::lemma_scaled(sig, s as nat, 2 * t);
        binary64_laws::lemma_scaled(1, t, t);
        assert(a.exponent() + 1074 + 1326 == s + 2 * t);
    }
    let r: nat = root_of(big);
    lemma_root_of(big);
    lemma_finer_root(root, m, p, r, big);
    assert(binary64::bit_len(r) >= t + 55) by {
        binary64::lemma_bit_len_scale(sig, s as nat);
        binary64::lemma_bit_len(m);
        assert(binary64::bit_len(m) >= 123);
        binary64::lemma_pow2_monotone(122, (binary64::bit_len(m) - 1) as nat);
        binary64_laws::lemma_scaled(1, 61, 61);
        let h: nat = pow2(61);
        assert(root >= h) by (nonlinear_arith)
            requires
                h * h <= m,
                m < (root + 1) * (root + 1),
        ;
        binary64_laws::lemma_scaled(1, 61, t);
        assert(r >= h * p) by (nonlinear_arith)
            requires
                r >= root * p,
                root >= h,
                p > 0,
        ;
        binary64::lemma_bit_len(r);
        if binary64::bit_len(r) < t + 55 {
            binary64::lemma_pow2_monotone(binary64::bit_len(r), 61 + t);
        }
    }
    binary64::lemma_round_drop(false, r, -1200, t, r * r != big);
}

proof fn lemma_finer_root(root: nat, m: nat, p: nat, r: nat, big: nat)
    requires
        binary64::is_root(root, m),
        binary64::is_root(r, big),
        big == m * (p * p),
        p > 0,
    ensures
        r >= root * p,
        r / p == root,
        (r * r != big || r % p != 0) == (root * root != m),
{
    let low: nat = root * p;
    let high: nat = (root + 1) * p;
    assert(low * low == (root * root) * (p * p)) by (nonlinear_arith)
        requires
            low == root * p,
    ;
    assert(high * high == ((root + 1) * (root + 1)) * (p * p)) by (nonlinear_arith)
        requires
            high == (root + 1) * p,
    ;
    let pp: nat = p * p;
    assert(pp > 0) by (nonlinear_arith)
        requires
            pp == p * p,
            p > 0,
    ;
    assert((root * root) * pp <= m * pp && m * pp < ((root + 1) * (root + 1)) * pp)
        by (nonlinear_arith)
        requires
            root * root <= m,
            m < (root + 1) * (root + 1),
            pp > 0,
    ;
    assert(low <= r) by (nonlinear_arith)
        requires
            low * low <= big,
            big < (r + 1) * (r + 1),
    ;
    assert(r < high) by (nonlinear_arith)
        requires
            r * r <= big,
            big < high * high,
    ;
    let f: nat = (r - low) as nat;
    assert(high == low + p) by (nonlinear_arith)
        requires
            low == root * p,
            high == (root + 1) * p,
    ;
    lemma_fundamental_div_mod_converse(r as int, p as int, root as int, f as int);
    if root * root == m {
        assert(r == low) by (nonlinear_arith)
            requires
                r * r <= big,
                big == low * low,
                r >= low,
        ;
    } else if f == 0 {
        assert((root * root) * pp < m * pp) by (nonlinear_arith)
            requires
                root * root < m,
                pp > 0,
        ;
    }
}

/// Roots are values that are not negative, in the order of what they are the
/// roots of.
pub proof fn roots_keep_order(a: Binary64, b: Binary64)
    requires
        binary64_laws::plain(a),
        binary64_laws::plain(b),
        a.bits <= b.bits,
    ensures
        a.sqrt().bits <= b.sqrt().bits <= INFINITY_BITS,
{
    reveal(binary64::spec_sqrt);
    binary64_laws::units_keep_order(a, b);
    if b.bits > 0 {
        lemma_sqrt(b);
        let n: nat = squared(b);
        let t: nat = root_of(n);
        binary64_laws::rounding_keeps_order(t, t * t != n, t, t * t != n, -1200);
        if a.bits > 0 {
            lemma_sqrt(a);
            let m: nat = squared(a);
            let s: nat = root_of(m);
            lemma_pow2_pos(1326);
            assert(m <= n) by (nonlinear_arith)
                requires
                    m == binary64_laws::units(a) * pow2(1326),
                    n == binary64_laws::units(b) * pow2(1326),
                    binary64_laws::units(a) <= binary64_laws::units(b),
                    pow2(1326) > 0,
            ;
            lemma_root_of(m);
            lemma_root_of(n);
            lemma_root_order(s, m, t, n);
            binary64_laws::rounding_keeps_order(s, s * s != m, t, t * t != n, -1200);
        }
    }
}

/// The root of a square is exact where its digits fit.
pub proof fn short_roots_are_exact(a: Binary64, sig: nat, t: nat)
    requires
        binary64_laws::plain(a),
        a.bits > 0,
        sig < 2 * HIDDEN,
        sig * pow2(t) < binary64_laws::top(),
        binary64_laws::units(a) * binary64_laws::one() == (sig * pow2(t)) * (sig * pow2(t)),
    ensures
        binary64_laws::plain(a.sqrt()),
        binary64_laws::units(a.sqrt()) == sig * pow2(t),
{
    lemma_sqrt(a);
    let y: nat = sig * pow2(t);
    let p: nat = pow2(126);
    let m: nat = squared(a);
    let u: nat = binary64_laws::units(a);
    binary64_laws::lemma_scaled(1, 126, 126);
    binary64_laws::lemma_scaled(u, 1074, 252);
    let r: nat = y * p;
    assert(r * r == m) by (nonlinear_arith)
        requires
            r == y * p,
            m == (u * pow2(1074)) * (p * p),
            u * pow2(1074) == y * y,
    ;
    assert(binary64::is_root(r, m)) by (nonlinear_arith)
        requires
            r * r == m,
    ;
    lemma_root_of(m);
    lemma_root_order(r, m, root_of(m), m);
    lemma_root_order(root_of(m), m, r, m);
    binary64_laws::rounding_ignores_zeros(y, -1074, 126);
    binary64_laws::short_numbers_are_exact(sig, t);
}

// ---- Bounds ----------------------------------------------------------------------

/// A value that is not negative is kept within bounds, and bounds keep order.
pub proof fn bounds_keep_order(a: Binary64, b: Binary64, low: Binary64, high: Binary64)
    requires
        a.bits <= b.bits <= INFINITY_BITS,
        low.bits <= high.bits < INFINITY_BITS,
    ensures
        a.clamp(low, high).bits <= b.clamp(low, high).bits,
        low.bits <= a.clamp(low, high).bits <= high.bits,
        low.bits <= b.clamp(low, high).bits <= high.bits,
        low.bits <= a.bits <= high.bits ==> a.clamp(low, high) == a,
        a.bits <= low.bits ==> a.clamp(low, high) == low,
        high.bits <= a.bits ==> a.clamp(low, high) == high,
        low.bits <= b.bits <= high.bits ==> b.clamp(low, high) == b,
        b.bits <= low.bits ==> b.clamp(low, high) == low,
        high.bits <= b.bits ==> b.clamp(low, high) == high,
{
    reveal(binary64::spec_lt);
}

/// The quotient of two values that are exact is exact where its digits fit.
pub proof fn short_quotients_are_exact(a: Binary64, b: Binary64, sig: nat, t: nat)
    requires
        binary64_laws::plain(a),
        binary64_laws::plain(b),
        binary64_laws::units(b) > 0,
        sig < 2 * HIDDEN,
        sig * pow2(t) < binary64_laws::top(),
        binary64_laws::units(a) * binary64_laws::one() == (sig * pow2(t)) * binary64_laws::units(
            b,
        ),
    ensures
        binary64_laws::plain(a.over(b)),
        binary64_laws::units(a.over(b)) == sig * pow2(t),
{
    binary64_laws::lemma_over(a, b);
    let y: nat = sig * pow2(t);
    let v: nat = binary64_laws::units(b);
    let u: nat = binary64_laws::units(a);
    binary64_laws::lemma_scaled(u, 1074, 1226);
    let x: nat = u * pow2(2300);
    let p: nat = pow2(1226);
    assert(x == (y * p) * v) by (nonlinear_arith)
        requires
            x == (u * pow2(1074)) * p,
            u * pow2(1074) == y * v,
    ;
    lemma_fundamental_div_mod_converse(x as int, v as int, (y * p) as int, 0);
    binary64_laws::rounding_ignores_zeros(y, -1074, 1226);
    binary64_laws::short_numbers_are_exact(sig, t);
}

/// Any value over one is itself.
pub proof fn over_one_is_itself(a: Binary64)
    requires
        binary64_laws::plain(a),
    ensures
        a.over(Binary64::whole(1)) == a,
{
    binary64_laws::whole_numbers_are_exact(1);
    binary64_laws::lemma_parts(a);
    binary64_laws::units_keep_order(a, a);
    let t: nat = (a.exponent() + 1074) as nat;
    lemma_pow2_pos(1074);
    assert(1 * binary64_laws::one() == binary64_laws::one());
    short_quotients_are_exact(a, Binary64::whole(1), a.significand(), t);
    binary64_laws::units_keep_order(a, a.over(Binary64::whole(1)));
}

/// One half.
pub proof fn a_half_is_exact()
    ensures
        binary64_laws::plain(Binary64::ratio(1, 2)),
        binary64_laws::units(Binary64::ratio(1, 2)) == pow2(1073),
{
    binary64_laws::whole_numbers_are_exact(1);
    binary64_laws::whole_numbers_are_exact(2);
    binary64::lemma_pow2_values();
    binary64_laws::lemma_scaled(1, 1073, 1);
    binary64_laws::lemma_scaled(1, 1074, 1074);
    binary64_laws::lemma_scaled(1, 1073, 1075);
    binary64_laws::lemma_scaled(1, 1, 1074);
    lemma_pow2_pos(1074);
    lemma_pow2_pos(1073);
    lemma_pow2_strictly_increases(1073, 2098);
    assert(1 * pow2(1073) == pow2(1073));
    assert(1 * pow2(1074) == pow2(1074));
    assert(2 * pow2(1074) == pow2(1075));
    short_quotients_are_exact(Binary64::whole(1), Binary64::whole(2), 1, 1073);
}

// ---- Whole parts -------------------------------------------------------------------

proof fn lemma_whole_part(a: Binary64)
    requires
        binary64_laws::plain(a),
    ensures
        binary64::whole_part(a) == binary64_laws::units(a) / binary64_laws::one(),
{
    binary64_laws::lemma_parts(a);
    let u: nat = binary64_laws::units(a);
    let one: nat = binary64_laws::one();
    lemma_pow2_pos(1074);
    if a.exponent() >= 0 {
        let w: nat = a.significand() * pow2(a.exponent() as nat);
        binary64_laws::lemma_scaled(a.significand(), a.exponent() as nat, 1074);
        lemma_div_by_multiple(w as int, one as int);
    } else {
        let d: nat = (-a.exponent()) as nat;
        let c: nat = pow2((1074 - d) as nat);
        lemma_pow2_pos(d);
        lemma_pow2_pos((1074 - d) as nat);
        binary64_laws::lemma_scaled(1, d, (1074 - d) as nat);
        binary64_laws::lemma_common_factor(a.significand(), pow2(d), c);
    }
}

/// The whole part of a value that is not negative: how many times it holds
/// one, up to the largest number.
pub proof fn a_whole_part_is_counted(a: Binary64)
    requires
        binary64_laws::plain(a),
    ensures
        a.floor_u64() == if binary64_laws::units(a) / binary64_laws::one() > u64::MAX {
            u64::MAX as nat
        } else {
            binary64_laws::units(a) / binary64_laws::one()
        },
{
    reveal(binary64::spec_floor_u64);
    lemma_whole_part(a);
}

/// Whole parts keep order.
pub proof fn whole_parts_keep_order(a: Binary64, b: Binary64)
    requires
        a.bits <= b.bits <= INFINITY_BITS,
    ensures
        a.floor_u64() <= b.floor_u64(),
{
    reveal(binary64::spec_floor_u64);
    if b.bits < INFINITY_BITS {
        a_whole_part_is_counted(a);
        a_whole_part_is_counted(b);
        binary64_laws::units_keep_order(a, b);
        lemma_pow2_pos(1074);
        lemma_div_is_ordered(
            binary64_laws::units(a) as int,
            binary64_laws::units(b) as int,
            binary64_laws::one() as int,
        );
    }
}

/// A number kept within bounds.
pub open spec fn bounded(x: nat, low: nat, high: nat) -> nat {
    if x < low {
        low
    } else if x > high {
        high
    } else {
        x
    }
}

/// Bounds that are whole numbers.
pub proof fn a_bound_is_kept(a: Binary64, low: u64, high: u64)
    requires
        binary64_laws::plain(a),
        low <= high < HIDDEN,
    ensures
        binary64_laws::plain(a.clamp(Binary64::whole(low), Binary64::whole(high))),
        binary64_laws::units(a.clamp(Binary64::whole(low), Binary64::whole(high))) == bounded(
            binary64_laws::units(a),
            low as nat * binary64_laws::one(),
            high as nat * binary64_laws::one(),
        ),
{
    let x: Binary64 = Binary64::whole(low);
    let y: Binary64 = Binary64::whole(high);
    binary64_laws::whole_numbers_are_exact(low);
    binary64_laws::whole_numbers_are_exact(high);
    let one: nat = binary64_laws::one();
    assert(low as nat * one <= high as nat * one) by (nonlinear_arith)
        requires
            low <= high,
            one >= 0,
    ;
    binary64_laws::units_keep_order(x, y);
    binary64_laws::units_keep_order(a, x);
    binary64_laws::units_keep_order(a, y);
    bounds_keep_order(a, a, x, y);
}

/// The nearest whole number, at the scale of the units.
proof fn lemma_nearest(a: Binary64)
    requires
        binary64_laws::plain(a),
        binary64_laws::units(a) < HIDDEN * binary64_laws::one(),
    ensures
        binary64_laws::plain(a.nearest()),
        binary64_laws::units(a.nearest()) == ((2 * binary64_laws::units(a) + binary64_laws::one())
            / (2 * binary64_laws::one())) * binary64_laws::one(),
{
    reveal(binary64::spec_nearest);
    binary64_laws::lemma_parts(a);
    let u: nat = binary64_laws::units(a);
    let one: nat = binary64_laws::one();
    lemma_pow2_pos(1074);
    binary64::lemma_pow2_values();
    if a.exponent() >= 0 {
        binary64_laws::lemma_scaled(a.significand(), a.exponent() as nat, 1074);
        lemma_pow2_pos(a.exponent() as nat);
        let w: nat = a.significand() * pow2(a.exponent() as nat);
        assert(w >= HIDDEN) by (nonlinear_arith)
            requires
                w == a.significand() * pow2(a.exponent() as nat),
                a.significand() >= HIDDEN,
                pow2(a.exponent() as nat) >= 1,
        ;
        assert(w * one >= HIDDEN * one) by (nonlinear_arith)
            requires
                w >= HIDDEN,
                one > 0,
        ;
        assert(false);
    } else {
        let d: nat = (-a.exponent()) as nat;
        let p: nat = pow2(d);
        let c: nat = pow2((1074 - d) as nat);
        lemma_pow2_pos(d);
        lemma_pow2_pos((1074 - d) as nat);
        binary64_laws::lemma_scaled(1, d, (1074 - d) as nat);
        let sig: nat = a.significand();
        let w: nat = sig / p;
        let f: nat = sig % p;
        lemma_fundamental_div_mod(sig as int, p as int);
        lemma_mod_bound(sig as int, p as int);
        let up: nat = if 2 * f >= p {
            1
        } else {
            0
        };
        let n: nat = w + up;
        let r: int = if 2 * f >= p {
            (2 * f - p) * c
        } else {
            ((2 * f + p) * c) as int
        };
        assert(u == sig * c && one == p * c);
        assert(2 * u + one == n * (2 * one) + r && 0 <= r < 2 * one) by {
            assert(sig * c == w * (p * c) + f * c) by (nonlinear_arith)
                requires
                    sig == p * w + f,
            ;
            assert((2 * f - p) * c == 2 * (f * c) - p * c && (2 * f + p) * c == 2 * (f * c) + p
                * c) by (nonlinear_arith);
            assert(n * (2 * one) == 2 * (w * one) + 2 * (up * one)) by (nonlinear_arith)
                requires
                    n == w + up,
            ;
            assert(up * one == if 2 * f >= p { one } else { 0 });
            if 2 * f >= p {
                assert(0 <= (2 * f - p) * c < 2 * (p * c)) by (nonlinear_arith)
                    requires
                        p <= 2 * f,
                        f < p,
                        c > 0,
                ;
            } else {
                assert(0 <= (2 * f + p) * c < 2 * (p * c)) by (nonlinear_arith)
                    requires
                        2 * f < p,
                        f >= 0,
                        c > 0,
                ;
            }
        }
        lemma_fundamental_div_mod_converse((2 * u + one) as int, (2 * one) as int, n as int, r);
        assert(w < HIDDEN) by {
            binary64::lemma_pow2_monotone(1, d);
            assert(w < HIDDEN) by (nonlinear_arith)
                requires
                    sig == p * w + f,
                    f >= 0,
                    p >= 2,
                    sig < 2 * HIDDEN,
            ;
        }
        assert(a.nearest() == binary64::rounded(false, n, 0, false));
        binary64_laws::rounding_ignores_zeros(n, 0, 1074);
        binary64_laws::lemma_scaled(1, 53, 1074);
        lemma_pow2_strictly_increases(1127, 2098);
        assert(n * one <= (2 * HIDDEN) * one) by (nonlinear_arith)
            requires
                n <= 2 * HIDDEN,
                one > 0,
        ;
        binary64_laws::short_numbers_are_exact(n, 1074);
    }
}

/// The nearest whole number within bounds, exactly.
pub proof fn a_nearest_bound_is_kept(a: Binary64, low: u64, high: u64)
    requires
        binary64_laws::plain(a),
        binary64_laws::units(a) < HIDDEN * binary64_laws::one(),
        low <= high < HIDDEN,
    ensures
        a.nearest().clamp(Binary64::whole(low), Binary64::whole(high)).floor_u64() == bounded(
            (2 * binary64_laws::units(a) + binary64_laws::one()) / (2 * binary64_laws::one()),
            low as nat,
            high as nat,
        ),
{
    lemma_nearest(a);
    let one: nat = binary64_laws::one();
    lemma_pow2_pos(1074);
    let n: nat = (2 * binary64_laws::units(a) + one) / (2 * one);
    a_bound_is_kept(a.nearest(), low, high);
    let b: Binary64 = a.nearest().clamp(Binary64::whole(low), Binary64::whole(high));
    let m: nat = bounded(n, low as nat, high as nat);
    assert(bounded(n * one, low as nat * one, high as nat * one) == m * one) by (nonlinear_arith)
        requires
            m == bounded(n, low as nat, high as nat),
            one > 0,
            low <= high,
    ;
    a_whole_part_is_counted(b);
    lemma_div_by_multiple(m as int, one as int);
}

} // verus!
