//! What the quality of a link comes to, and which link is taken by it.
use crate::binary64;
use crate::binary64::{Binary64, INFINITY_BITS};
use crate::binary64_approx;
use crate::binary64_laws;
use crate::binary64_size;
use crate::link;
use crate::link::Link;
use vstd::arithmetic::power2::*;
use vstd::prelude::*;

verus! {

// ---- What is measured ----------------------------------------------------------------

/// Whether a value is a quantity that a meter can tell: nothing, or within a
/// hundred binary digits of one.
pub open spec fn quantity(x: Binary64) -> bool {
    &&& binary64_laws::plain(x)
    &&& binary64_laws::units(x) == 0 || pow2(974) <= binary64_laws::units(x) <= pow2(1174)
}

/// Whether a link is probed, and what is measured of it are quantities, with
/// some of a hundred packets coming through.
pub open spec fn gauged(l: Link) -> bool {
    &&& l.probed
    &&& quantity(l.rtt)
    &&& quantity(l.jitter)
    &&& quantity(l.variance)
    &&& quantity(l.capacity)
    &&& quantity(l.uptime)
    &&& quantity(l.loss)
    &&& binary64_laws::units(l.loss) <= 99 * binary64_laws::one()
}

/// The capacity of a link, or ten million where none is known.
pub open spec fn capacity_of(l: Link) -> nat {
    if binary64_laws::units(l.capacity) == 0 {
        10_000_000 * binary64_laws::one()
    } else {
        binary64_laws::units(l.capacity)
    }
}

/// How much of a hundred comes through.
pub open spec fn delivered(l: Link) -> nat {
    (100 * binary64_laws::one() - binary64_laws::units(l.loss)) as nat
}

/// How much of a hundred the link is up; one where that is not known.
pub open spec fn up_of_hundred(l: Link) -> nat {
    let one: nat = binary64_laws::one();
    let up: nat = binary64_laws::units(l.uptime);
    if up == 0 {
        one
    } else if up > one {
        100 * one
    } else {
        100 * up
    }
}

/// How long a packet waits: delay, jitter and the base, which is one where none
/// is set.
pub open spec fn wait_of(l: Link, base: Binary64) -> nat {
    binary64_laws::units(l.rtt) + binary64_laws::units(l.jitter) + (if binary64_laws::units(base)
        == 0 {
        binary64_laws::one()
    } else {
        binary64_laws::units(base)
    })
}

/// What stands in the way of a steady link: variance counts by fifties, jitter
/// by twenties.
pub open spec fn unrest(l: Link) -> nat {
    (50 * binary64_laws::one() + binary64_laws::units(l.variance)) * (20 * binary64_laws::one()
        + binary64_laws::units(l.jitter))
}

/// What speaks for a link.
pub open spec fn worth(l: Link) -> nat {
    capacity_of(l) * (delivered(l) * up_of_hundred(l))
}

/// What speaks against it.
pub open spec fn weight(l: Link, base: Binary64) -> nat {
    wait_of(l, base) * unrest(l)
}

/// Whether one link is clearly better than another: more worth for its weight.
pub open spec fn clearly_better(a: Link, b: Link, base: Binary64) -> bool {
    binary64_size::clearly_less(worth(b) * weight(a, base), worth(a) * weight(b, base))
}

/// Whether one link is clearly steadier than another.
pub open spec fn clearly_steadier(a: Link, b: Link) -> bool {
    binary64_size::clearly_less(
        (delivered(b) * up_of_hundred(b)) * unrest(a),
        (delivered(a) * up_of_hundred(a)) * unrest(b),
    )
}

// ---- Parts ---------------------------------------------------------------------------

pub proof fn lemma_unset(x: Binary64)
    requires
        binary64_laws::plain(x),
    ensures
        link::unset(x) == (binary64_laws::units(x) == 0),
        (x.bits == 0) == (binary64_laws::units(x) == 0),
{
    reveal(binary64::spec_lt);
    binary64_laws::lemma_parts(link::zero());
    binary64_laws::units_keep_order(link::zero(), x);
}

proof fn lemma_sizes()
    ensures
        pow2(1078) == 16 * binary64_laws::one(),
        pow2(1080) == 64 * binary64_laws::one(),
        pow2(1081) == 128 * binary64_laws::one(),
        pow2(1097) == 0x80_0000 * binary64_laws::one(),
        pow2(1098) == 0x100_0000 * binary64_laws::one(),
        pow2(1075) == 2 * binary64_laws::one(),
        binary64_laws::one() == 128 * pow2(1067),
        binary64_laws::one() == 2 * pow2(1073),
        binary64_laws::one() == pow2(1074),
        binary64_laws::one() > 0,
{
    lemma2_to64();
    lemma_pow2_pos(1074);
    binary64_laws::lemma_scaled(1, 4, 1074);
    binary64_laws::lemma_scaled(1, 6, 1074);
    binary64_laws::lemma_scaled(1, 7, 1074);
    binary64_laws::lemma_scaled(1, 23, 1074);
    binary64_laws::lemma_scaled(1, 24, 1074);
    binary64_laws::lemma_scaled(1, 1, 1074);
    binary64_laws::lemma_scaled(1, 7, 1067);
    binary64_laws::lemma_scaled(1, 1, 1073);
}

proof fn lemma_wider(x: Binary64, a: nat, b: nat, c: nat, d: nat)
    requires
        binary64_approx::sized(x, a, b),
        c <= a,
        b <= d,
    ensures
        binary64_approx::sized(x, c, d),
{
    binary64::lemma_pow2_monotone(c, a);
    binary64::lemma_pow2_monotone(b, d);
}

pub proof fn lemma_none_over(x: Binary64, n: u64)
    requires
        x.bits == 0,
        0 < n < 1_000,
    ensures
        x.over(Binary64::whole(n)).bits == 0,
{
    reveal(binary64::spec_over);
    binary64_laws::whole_numbers_are_exact(n);
    lemma_unset(Binary64::whole(n));
    lemma_sizes();
    assert(n * binary64_laws::one() > 0) by (nonlinear_arith)
        requires
            n > 0,
            binary64_laws::one() > 0,
    ;
}

spec fn kept_part(l: Link) -> Binary64 {
    Binary64::whole(1).minus(
        l.loss.over(Binary64::whole(100)).clamp(link::zero(), Binary64::whole(1)),
    )
}

proof fn lemma_kept_part(l: Link)
    requires
        gauged(l),
    ensures
        binary64_approx::sized(kept_part(l), 1067, 1075),
        binary64_approx::approx(
            binary64_laws::units(kept_part(l)) * 100,
            delivered(l),
            101,
        ),
{
    lemma_sizes();
    binary64_laws::whole_numbers_are_exact(1);
    binary64_laws::whole_numbers_are_exact(100);
    let one: nat = binary64_laws::one();
    let whole: Binary64 = Binary64::whole(1);
    let loss: nat = binary64_laws::units(l.loss);
    lemma_unset(l.loss);
    lemma_unset(link::zero());
    lemma_unset(whole);
    assert(1 * one == one);
    let x: Binary64 = l.loss.over(Binary64::whole(100));
    let u: nat = binary64_laws::units(x);
    assert(binary64_laws::plain(x) && u < one && u * 100 * 0x4_0000_0000_0000 <= loss
        * 0x4_0000_0000_0001 && loss * 0x3_ffff_ffff_ffff <= u * 100 * 0x4_0000_0000_0000) by {
        if loss == 0 {
            lemma_none_over(l.loss, 100);
            binary64_laws::lemma_parts(x);
        } else {
            binary64_approx::over_step(l.loss, Binary64::whole(100), 974, 1081, 1080, 1081);
            assert(u * (100 * one) == (u * 100) * one) by (nonlinear_arith);
            binary64_approx::lemma_approx_cancel(u * 100, loss, 1, one);
        }
    }
    binary64_laws::units_keep_order(x, whole);
    binary64_size::bounds_keep_order(x, x, link::zero(), whole);
    lemma_pow2_strictly_increases(1075, 2098);
    binary64_laws::a_difference_is_near(whole, x);
    let w: nat = binary64_laws::units(kept_part(l));
    assert(binary64_approx::approx(w * 100, delivered(l), 101)) by {
        assert(w * 100 * 0x4_0000_0000_0000 <= delivered(l) * 0x4_0000_0000_0065);
        assert(delivered(l) * 0x3_ffff_ffff_ff9b <= w * 100 * 0x4_0000_0000_0000);
    }
}

spec fn up_part(l: Link) -> Binary64 {
    if link::unset(l.uptime) {
        Binary64::ratio(1, 100)
    } else {
        l.uptime.min(Binary64::whole(1))
    }
}

proof fn lemma_up_part(l: Link)
    requires
        gauged(l),
    ensures
        binary64_approx::sized(up_part(l), 966, 1075),
        binary64_approx::approx(binary64_laws::units(up_part(l)) * 100, up_of_hundred(l), 1),
{
    reveal(binary64::spec_lt);
    lemma_sizes();
    binary64_laws::whole_numbers_are_exact(1);
    binary64_laws::whole_numbers_are_exact(100);
    let one: nat = binary64_laws::one();
    assert(1 * one == one);
    lemma_unset(l.uptime);
    let u: nat = binary64_laws::units(up_part(l));
    binary64::lemma_pow2_monotone(974, 1074);
    binary64::lemma_pow2_monotone(966, 974);
    if binary64_laws::units(l.uptime) == 0 {
        binary64_approx::over_step(
            Binary64::whole(1),
            Binary64::whole(100),
            1074,
            1074,
            1080,
            1081,
        );
        lemma_wider(up_part(l), 1066, 1069, 966, 1075);
        assert(u * (100 * one) == (u * 100) * one) by (nonlinear_arith);
        binary64_approx::lemma_approx_cancel(u * 100, one, 1, one);
    } else {
        binary64_laws::units_keep_order(Binary64::whole(1), l.uptime);
        assert(u * 100 == up_of_hundred(l));
        let h: nat = up_of_hundred(l);
        assert(h * (0x4_0000_0000_0000 + 1) == h * 0x4_0000_0000_0001);
        assert(h * (0x4_0000_0000_0000 - 1) == h * 0x3_ffff_ffff_ffff);
    }
}

spec fn rest_part(v: Binary64, n: u64) -> Binary64 {
    Binary64::whole(1).over(Binary64::whole(1).plus(v.over(Binary64::whole(n))))
}

proof fn lemma_rest_part(v: Binary64, n: u64)
    requires
        quantity(v),
        20 <= n <= 50,
    ensures
        binary64_approx::sized(rest_part(v, n), 974, 1076),
        ({
            let one: nat = binary64_laws::one();
            binary64_approx::approx(
                binary64_laws::units(rest_part(v, n)) * (n as nat * one + binary64_laws::units(v)),
                n as nat * (one * one),
                6,
            )
        }),
{
    lemma_sizes();
    binary64_laws::whole_numbers_are_exact(1);
    binary64_laws::whole_numbers_are_exact(n);
    let one: nat = binary64_laws::one();
    let k: nat = n as nat;
    assert(1 * one == one);
    let g: nat = binary64_laws::units(v);
    lemma_unset(v);
    let x: Binary64 = v.over(Binary64::whole(n));
    let u: nat = binary64_laws::units(x);
    assert(16 * one <= k * one <= 64 * one) by (nonlinear_arith)
        requires
            20 <= k <= 50,
            one > 0,
    ;
    let uk: nat = u * k;
    assert(binary64_laws::plain(x) && u <= pow2(1171) && binary64_approx::approx(uk, g, 1)) by {
        if g == 0 {
            lemma_none_over(v, n);
            binary64_laws::lemma_parts(x);
            lemma_pow2_pos(1171);
            assert(0 * k == 0);
        } else {
            binary64_approx::over_step(v, Binary64::whole(n), 974, 1174, 1078, 1080);
            assert(u * (k * one) == (u * k) * one) by (nonlinear_arith);
            binary64_approx::lemma_approx_cancel(uk, g, 1, one);
        }
    }
    lemma2_to64();
    binary64_laws::lemma_scaled(1, 1171, 1);
    binary64_laws::lemma_scaled(1, 1171, 2);
    binary64::lemma_pow2_monotone(1074, 1171);
    binary64::lemma_pow2_monotone(1173, 2097);
    lemma_pow2_strictly_increases(2097, 2098);
    let y: Binary64 = Binary64::whole(1).plus(x);
    binary64_laws::a_sum_is_near(Binary64::whole(1), x);
    let z: nat = binary64_laws::units(y);
    assert(pow2(1073) <= z <= pow2(1173));
    let whole: nat = k * one + g;
    let zk: nat = z * k;
    assert(binary64_approx::approx(zk, whole, 3)) by {
        binary64_approx::lemma_approx_near(z, one + u);
        binary64_approx::lemma_approx_scale(z, one + u, 1, k);
        let m: nat = (one + u) * k;
        assert(m == k * one + uk) by (nonlinear_arith)
            requires
                m == (one + u) * k,
                uk == u * k,
        ;
        assert(g * (0x4_0000_0000_0000 + 1) == g * 0x4_0000_0000_0001);
        assert(g * (0x4_0000_0000_0000 - 1) == g * 0x3_ffff_ffff_ffff);
        assert(whole * (0x4_0000_0000_0000 + 1) == whole * 0x4_0000_0000_0001);
        assert(whole * (0x4_0000_0000_0000 - 1) == whole * 0x3_ffff_ffff_ffff);
        assert(binary64_approx::approx(m, whole, 1));
        binary64_approx::lemma_approx_chain(zk, m, whole, 1, 1);
    }
    binary64_approx::over_step(Binary64::whole(1), y, 1074, 1074, 1073, 1173);
    let r: nat = binary64_laws::units(rest_part(v, n));
    let oo: nat = one * one;
    binary64_approx::lemma_approx_scale(r * z, oo, 1, k);
    assert((r * z) * k == r * zk) by (nonlinear_arith)
        requires
            zk == z * k,
    ;
    assert(oo * k == k * oo) by (nonlinear_arith);
    binary64_approx::lemma_approx_replace(r, zk, whole, k * oo, 1, 3);
}

// ---- Steadiness ------------------------------------------------------------------------

/// How steady a link counts, exactly to within a small part.
pub proof fn lemma_stability(l: Link)
    requires
        gauged(l),
    ensures
        binary64_approx::sized(l.spec_stability(), 756, 1083),
        binary64_approx::approx(
            (binary64_laws::units(l.spec_stability()) * 10) * unrest(l),
            (delivered(l) * up_of_hundred(l)) * binary64_laws::one(),
            123,
        ),
{
    lemma_sizes();
    lemma_kept_part(l);
    lemma_up_part(l);
    lemma_rest_part(l.variance, 50);
    lemma_rest_part(l.jitter, 20);
    let kept: Binary64 = kept_part(l);
    let up: Binary64 = up_part(l);
    let r: Binary64 = rest_part(l.variance, 50);
    let q: Binary64 = rest_part(l.jitter, 20);
    assert(l.spec_stability() == kept.times(up).times(r).times(q));
    binary64_approx::times_step(kept, up, 1067, 1075, 966, 1075);
    let a: Binary64 = kept.times(up);
    binary64_approx::times_step(a, r, 958, 1077, 974, 1076);
    let x: Binary64 = a.times(r);
    binary64_approx::times_step(x, q, 857, 1080, 974, 1076);
    let s: Binary64 = x.times(q);
    lemma_stability_chain(
        binary64_laws::one(),
        binary64_laws::units(kept),
        binary64_laws::units(up),
        binary64_laws::units(r),
        binary64_laws::units(q),
        binary64_laws::units(a),
        binary64_laws::units(x),
        binary64_laws::units(s),
        delivered(l),
        up_of_hundred(l),
        50 * binary64_laws::one() + binary64_laws::units(l.variance),
        20 * binary64_laws::one() + binary64_laws::units(l.jitter),
    );
}

proof fn lemma_stability_chain(
    one: nat,
    kept: nat,
    up: nat,
    r: nat,
    q: nat,
    a: nat,
    x: nat,
    s: nat,
    given: nat,
    hundred: nat,
    v: nat,
    j: nat,
)
    requires
        one > 0,
        binary64_approx::approx(a * one, kept * up, 1),
        binary64_approx::approx(x * one, a * r, 1),
        binary64_approx::approx(s * one, x * q, 1),
        binary64_approx::approx(kept * 100, given, 101),
        binary64_approx::approx(up * 100, hundred, 1),
        binary64_approx::approx(r * v, 50 * (one * one), 6),
        binary64_approx::approx(q * j, 20 * (one * one), 6),
    ensures
        binary64_approx::approx((s * 10) * (v * j), (given * hundred) * one, 123),
{
    let oo: nat = one * one;
    // The product of the four parts.
    let t: nat = (kept * up) * r * q;
    assert(binary64_approx::approx(s * (oo * one), t, 5)) by {
        binary64_approx::lemma_approx_scale(s * one, x * q, 1, oo);
        binary64_approx::lemma_approx_scale(x * one, a * r, 1, q * one);
        binary64_approx::lemma_approx_scale(a * one, kept * up, 1, r * q);
        assert((s * one) * oo == s * (oo * one)) by (nonlinear_arith);
        assert((x * q) * oo == (x * one) * (q * one)) by (nonlinear_arith)
            requires
                oo == one * one,
        ;
        assert((a * r) * (q * one) == (a * one) * (r * q)) by (nonlinear_arith);
        assert((kept * up) * (r * q) == t) by (nonlinear_arith)
            requires
                t == (kept * up) * r * q,
        ;
        binary64_approx::lemma_approx_chain(
            s * (oo * one),
            (x * one) * (q * one),
            (a * one) * (r * q),
            1,
            1,
        );
        binary64_approx::lemma_approx_chain(s * (oo * one), (a * one) * (r * q), t, 3, 1);
    }
    binary64_approx::lemma_approx_product(kept * 100, given, 101, up * 100, hundred, 1);
    binary64_approx::lemma_approx_product(r * v, 50 * oo, 6, q * j, 20 * oo, 6);
    let m: nat = (kept * 100) * (up * 100);
    let n: nat = (r * v) * (q * j);
    binary64_approx::lemma_approx_product(
        m,
        given * hundred,
        103,
        n,
        (50 * oo) * (20 * oo),
        13,
    );
    let c: nat = 10_000 * (v * j);
    binary64_approx::lemma_approx_scale(s * (oo * one), t, 5, c);
    assert(t * c == m * n) by (nonlinear_arith)
        requires
            t == (kept * up) * r * q,
            c == 10_000 * (v * j),
            m == (kept * 100) * (up * 100),
            n == (r * v) * (q * j),
    ;
    let b: nat = (given * hundred) * ((50 * oo) * (20 * oo));
    binary64_approx::lemma_approx_chain((s * (oo * one)) * c, m * n, b, 5, 117);
    let e: nat = 1_000 * (oo * one);
    let y: nat = (s * 10) * (v * j);
    let z: nat = (given * hundred) * one;
    assert((s * (oo * one)) * c == y * e) by (nonlinear_arith)
        requires
            c == 10_000 * (v * j),
            e == 1_000 * (oo * one),
            y == (s * 10) * (v * j),
    ;
    assert(b == z * e) by (nonlinear_arith)
        requires
            b == (given * hundred) * ((50 * oo) * (20 * oo)),
            oo == one * one,
            e == 1_000 * (oo * one),
            z == (given * hundred) * one,
    ;
    assert(e > 0) by (nonlinear_arith)
        requires
            e == 1_000 * (oo * one),
            oo == one * one,
            one > 0,
    ;
    binary64_approx::lemma_approx_cancel(y, z, 123, e);
}

// ---- Quality -----------------------------------------------------------------------------

spec fn wait_part(l: Link, base: Binary64) -> Binary64 {
    l.rtt.plus(l.jitter).plus(
        if link::unset(base) {
            Binary64::whole(1)
        } else {
            base
        },
    )
}

proof fn lemma_wait_part(l: Link, base: Binary64)
    requires
        gauged(l),
        quantity(base),
    ensures
        binary64_approx::sized(wait_part(l, base), 973, 1177),
        binary64_approx::approx(
            binary64_laws::units(wait_part(l, base)),
            wait_of(l, base),
            3,
        ),
        wait_of(l, base) > 0,
{
    lemma_sizes();
    lemma_unset(base);
    binary64_laws::whole_numbers_are_exact(1);
    let one: nat = binary64_laws::one();
    assert(1 * one == one);
    lemma2_to64();
    binary64_laws::lemma_scaled(1, 1174, 3);
    binary64_laws::lemma_scaled(1, 973, 1);
    lemma_pow2_pos(973);
    binary64::lemma_pow2_monotone(974, 1074);
    binary64::lemma_pow2_monotone(1074, 1174);
    binary64_laws::lemma_scaled(1, 1177, 3);
    binary64::lemma_pow2_monotone(1180, 2097);
    lemma_pow2_strictly_increases(2097, 2098);
    let d: Binary64 = if link::unset(base) {
        Binary64::whole(1)
    } else {
        base
    };
    binary64_laws::a_sum_is_near(l.rtt, l.jitter);
    let x: Binary64 = l.rtt.plus(l.jitter);
    binary64_laws::a_sum_is_near(x, d);
    let t: nat = binary64_laws::units(wait_part(l, base));
    let w: nat = wait_of(l, base);
    assert(t * 0x4_0000_0000_0000 <= w * 0x4_0000_0000_0003);
    assert(w * 0x3_ffff_ffff_fffd <= t * 0x4_0000_0000_0000);
    assert(w * (0x4_0000_0000_0000 + 3) == w * 0x4_0000_0000_0003);
    assert(w * (0x4_0000_0000_0000 - 3) == w * 0x3_ffff_ffff_fffd);
}

/// What the quality of a link is, to within a small part: its worth for its
/// weight.
pub proof fn lemma_quality(l: Link, base: Binary64)
    requires
        gauged(l),
        quantity(base),
    ensures
        binary64_approx::sized(l.spec_quality(base), 551, 1286),
        binary64_approx::approx(
            binary64_laws::units(l.spec_quality(base)) * (10 * weight(l, base)),
            worth(l) * binary64_laws::one(),
            132,
        ),
        weight(l, base) > 0,
        worth(l) > 0,
{
    lemma_sizes();
    lemma_unset(l.capacity);
    lemma_stability(l);
    lemma_wait_part(l, base);
    binary64_laws::whole_numbers_are_exact(10_000_000);
    let one: nat = binary64_laws::one();
    let c: Binary64 = if link::unset(l.capacity) {
        Binary64::whole(10_000_000)
    } else {
        l.capacity
    };
    if link::unset(l.capacity) {
        binary64::lemma_pow2_monotone(974, 1097);
        binary64::lemma_pow2_monotone(1098, 1174);
    }
    let s: Binary64 = l.spec_stability();
    binary64_approx::times_step(c, s, 974, 1174, 756, 1083);
    let n: Binary64 = c.times(s);
    let t: Binary64 = wait_part(l, base);
    lemma_pow2_pos(973);
    lemma_unset(t);
    binary64_approx::over_step(n, t, 655, 1184, 973, 1177);
    let q: Binary64 = n.over(t);
    assert(l.spec_quality(base) == q);
    let qu: nat = binary64_laws::units(q);
    let nu: nat = binary64_laws::units(n);
    let tu: nat = binary64_laws::units(t);
    let su: nat = binary64_laws::units(s);
    let cu: nat = capacity_of(l);
    let w: nat = wait_of(l, base);
    let z: nat = unrest(l);
    let h: nat = delivered(l) * up_of_hundred(l);
    binary64_approx::lemma_approx_replace(qu, tu, w, nu * one, 1, 3);
    binary64_approx::lemma_approx_chain(qu * w, nu * one, cu * su, 6, 1);
    binary64_approx::lemma_approx_scale(qu * w, cu * su, 8, 10 * z);
    binary64_approx::lemma_approx_scale((su * 10) * z, h * one, 123, cu);
    assert((cu * su) * (10 * z) == cu * ((su * 10) * z)) by (nonlinear_arith);
    assert((qu * w) * (10 * z) == qu * (10 * (w * z))) by (nonlinear_arith);
    assert(cu * (h * one) == (cu * h) * one) by (nonlinear_arith);
    binary64_approx::lemma_approx_chain(
        qu * (10 * (w * z)),
        cu * ((su * 10) * z),
        (cu * h) * one,
        8,
        123,
    );
    assert(z > 0) by (nonlinear_arith)
        requires
            z == (50 * one + binary64_laws::units(l.variance)) * (20 * one + binary64_laws::units(
                l.jitter,
            )),
            one > 0,
    ;
    assert(w * z > 0) by (nonlinear_arith)
        requires
            w > 0,
            z > 0,
    ;
    lemma_pow2_pos(974);
    assert(h > 0) by (nonlinear_arith)
        requires
            h == delivered(l) * up_of_hundred(l),
            delivered(l) >= one,
            up_of_hundred(l) > 0,
            one > 0,
    ;
    assert(cu * h > 0) by (nonlinear_arith)
        requires
            cu > 0,
            h > 0,
    ;
}

/// A link that is clearly better has the greater quality.
pub proof fn better_links_have_more_quality(a: Link, b: Link, base: Binary64)
    requires
        gauged(a),
        gauged(b),
        quantity(base),
        clearly_better(a, b, base),
    ensures
        b.spec_quality(base).bits < a.spec_quality(base).bits < INFINITY_BITS,
        b.spec_quality(base).lt(a.spec_quality(base)),
{
    lemma_quality(a, base);
    lemma_quality(b, base);
    lemma_sizes();
    let one: nat = binary64_laws::one();
    let p: nat = binary64_laws::units(a.spec_quality(base));
    let q: nat = binary64_laws::units(b.spec_quality(base));
    let v: nat = weight(a, base);
    let w: nat = weight(b, base);
    let x: nat = worth(a);
    let y: nat = worth(b);
    binary64_approx::lemma_approx_scale(p * (10 * v), x * one, 132, w);
    binary64_approx::lemma_approx_scale(q * (10 * w), y * one, 132, v);
    let m: nat = 10 * (v * w);
    assert((p * (10 * v)) * w == p * m && (q * (10 * w)) * v == q * m) by (nonlinear_arith)
        requires
            m == 10 * (v * w),
    ;
    let s: nat = (x * one) * w;
    let t: nat = (y * one) * v;
    assert(s > 0 && t * 1_000_001 <= s * 1_000_000) by (nonlinear_arith)
        requires
            s == (x * one) * w,
            t == (y * one) * v,
            (y * v) * 1_000_001 <= (x * w) * 1_000_000,
            x * w > 0,
            one > 0,
    ;
    binary64_approx::lemma_clear(q * m, p * m, t, s, 132);
    assert(q < p) by (nonlinear_arith)
        requires
            q * m < p * m,
            m >= 0,
    ;
    binary64_laws::units_keep_order(b.spec_quality(base), a.spec_quality(base));
    reveal(binary64::spec_lt);
}

/// Of two probed links that agree in all but delay, the one of clearly less
/// delay, jitter and base together has the greater quality, and their
/// qualities stand in that proportion. Less delay never has less quality.
pub proof fn quality_falls_with_delay(a: Link, b: Link, base: Binary64)
    requires
        gauged(a),
        gauged(b),
        quantity(base),
        b == (Link { rtt: b.rtt, id: b.id, ..a }),
        binary64_laws::units(a.rtt) <= binary64_laws::units(b.rtt),
    ensures
        b.spec_quality(base).bits <= a.spec_quality(base).bits < INFINITY_BITS,
        binary64_size::clearly_less(wait_of(a, base), wait_of(b, base)) ==> b.spec_quality(
            base,
        ).bits < a.spec_quality(base).bits,
        binary64_size::close(
            binary64_laws::units(a.spec_quality(base)) * wait_of(a, base),
            binary64_laws::units(b.spec_quality(base)) * wait_of(b, base),
        ),
{
    lemma_quality(a, base);
    lemma_quality(b, base);
    lemma_wait_part(a, base);
    lemma_wait_part(b, base);
    lemma_sizes();
    let one: nat = binary64_laws::one();
    let p: nat = binary64_laws::units(a.spec_quality(base));
    let q: nat = binary64_laws::units(b.spec_quality(base));
    let v: nat = wait_of(a, base);
    let w: nat = wait_of(b, base);
    let z: nat = unrest(a);
    let x: nat = worth(a);
    assert(unrest(b) == z && worth(b) == x);
    // Proportion.
    assert(p * (10 * (v * z)) == (p * v) * (10 * z) && q * (10 * (w * z)) == (q * w) * (10 * z))
        by (nonlinear_arith);
    binary64_approx::lemma_approx_swap((q * w) * (10 * z), x * one, 132);
    binary64_approx::lemma_approx_chain(
        (p * v) * (10 * z),
        x * one,
        (q * w) * (10 * z),
        132,
        133,
    );
    assert(z > 0) by (nonlinear_arith)
        requires
            v * z > 0,
            v >= 0,
            z >= 0,
    ;
    binary64_approx::lemma_approx_cancel(p * v, q * w, 266, 10 * z);
    let m: nat = p * v;
    let n: nat = q * w;
    assert(n * (0x4_0000_0000_0000 + 266) == n * 0x4_0000_0000_010a);
    assert(n * (0x4_0000_0000_0000 - 266) == n * 0x3_ffff_ffff_fef6);
    assert(binary64_size::close(m, n));
    // Strict order.
    if binary64_size::clearly_less(v, w) {
        assert(x * (w * z) > 0 && (x * (v * z)) * 1_000_001 <= (x * (w * z)) * 1_000_000)
            by (nonlinear_arith)
            requires
                v * 1_000_001 <= w * 1_000_000,
                w > 0,
                x > 0,
                z > 0,
        ;
        better_links_have_more_quality(a, b, base);
    }
    // Order.
    binary64_laws::units_keep_order(a.rtt, b.rtt);
    lemma_quality_order(a, b, base);
}

proof fn lemma_quality_order(a: Link, b: Link, base: Binary64)
    requires
        gauged(a),
        gauged(b),
        quantity(base),
        b == (Link { rtt: b.rtt, id: b.id, ..a }),
        a.rtt.bits <= b.rtt.bits,
    ensures
        b.spec_quality(base).bits <= a.spec_quality(base).bits,
{
    lemma_sizes();
    lemma_unset(base);
    lemma_wait_part(a, base);
    lemma_wait_part(b, base);
    lemma_stability(a);
    binary64_laws::whole_numbers_are_exact(1);
    binary64_laws::whole_numbers_are_exact(10_000_000);
    lemma_unset(a.capacity);
    let d: Binary64 = if link::unset(base) {
        Binary64::whole(1)
    } else {
        base
    };
    let c: Binary64 = if link::unset(a.capacity) {
        Binary64::whole(10_000_000)
    } else {
        a.capacity
    };
    if link::unset(a.capacity) {
        binary64::lemma_pow2_monotone(974, 1097);
        binary64::lemma_pow2_monotone(1098, 1174);
    }
    let s: Binary64 = a.spec_stability();
    binary64_approx::times_step(c, s, 974, 1174, 756, 1083);
    let n: Binary64 = c.times(s);
    binary64_laws::sums_keep_order(a.rtt, a.jitter, b.rtt, b.jitter);
    let x: Binary64 = a.rtt.plus(a.jitter);
    let y: Binary64 = b.rtt.plus(b.jitter);
    lemma_sum_plain(a);
    lemma_sum_plain(b);
    binary64_laws::sums_keep_order(x, d, y, d);
    let t: Binary64 = wait_part(a, base);
    let u: Binary64 = wait_part(b, base);
    binary64_laws::units_keep_order(t, u);
    lemma_pow2_pos(973);
    lemma_unset(t);
    lemma_unset(u);
    let nu: nat = binary64_laws::units(n);
    let tu: nat = binary64_laws::units(t);
    let uu: nat = binary64_laws::units(u);
    assert(nu * tu <= nu * uu) by (nonlinear_arith)
        requires
            tu <= uu,
            nu >= 0,
    ;
    binary64_laws::quotients_keep_order(n, u, n, t);
    assert(a.spec_quality(base) == n.over(t));
    assert(b.spec_stability() == s);
    assert(b.spec_quality(base) == n.over(u));
}

proof fn lemma_sum_plain(l: Link)
    requires
        gauged(l),
    ensures
        binary64_laws::plain(l.rtt.plus(l.jitter)),
{
    lemma2_to64();
    binary64_laws::lemma_scaled(1, 1174, 2);
    lemma_pow2_strictly_increases(1176, 2098);
    binary64_laws::a_sum_is_near(l.rtt, l.jitter);
}

/// A link that is clearly steadier counts as steadier.
pub proof fn steadier_links_count_as_such(a: Link, b: Link)
    requires
        gauged(a),
        gauged(b),
        clearly_steadier(a, b),
    ensures
        b.spec_stability().bits < a.spec_stability().bits < INFINITY_BITS,
        b.spec_stability().lt(a.spec_stability()),
{
    lemma_stability(a);
    lemma_stability(b);
    lemma_sizes();
    let one: nat = binary64_laws::one();
    let p: nat = binary64_laws::units(a.spec_stability());
    let q: nat = binary64_laws::units(b.spec_stability());
    let v: nat = unrest(a);
    let w: nat = unrest(b);
    let x: nat = delivered(a) * up_of_hundred(a);
    let y: nat = delivered(b) * up_of_hundred(b);
    binary64_approx::lemma_approx_scale((p * 10) * v, x * one, 123, w);
    binary64_approx::lemma_approx_scale((q * 10) * w, y * one, 123, v);
    let m: nat = 10 * (v * w);
    assert(((p * 10) * v) * w == p * m && ((q * 10) * w) * v == q * m) by (nonlinear_arith)
        requires
            m == 10 * (v * w),
    ;
    let s: nat = (x * one) * w;
    let t: nat = (y * one) * v;
    assert(s > 0 && t * 1_000_001 <= s * 1_000_000) by (nonlinear_arith)
        requires
            s == (x * one) * w,
            t == (y * one) * v,
            (y * v) * 1_000_001 <= (x * w) * 1_000_000,
            x * w > 0,
            one > 0,
    ;
    binary64_approx::lemma_clear(q * m, p * m, t, s, 123);
    assert(q < p) by (nonlinear_arith)
        requires
            q * m < p * m,
            m >= 0,
    ;
    binary64_laws::units_keep_order(b.spec_stability(), a.spec_stability());
    reveal(binary64::spec_lt);
}

} // verus!
