//! What measurements do to a path, and what they make it do.
use crate::binary64;
use crate::binary64::Binary64;
use crate::binary64_approx;
use crate::binary64_laws;
use crate::binary64_size;
use crate::link_choice_laws;
use crate::link_laws;
use crate::path;
use crate::path::Path;
use vstd::arithmetic::power2::*;
use vstd::prelude::*;

verus! {

// ---- Blends ----------------------------------------------------------------------------

/// Nothing, or a number of some size.
pub open spec fn modest(x: Binary64) -> bool {
    &&& binary64_laws::plain(x)
    &&& binary64_laws::units(x) == 0 || pow2(900) <= binary64_laws::units(x) <= pow2(1190)
}

spec fn blend(x: Binary64, y: Binary64, p: u64, q: u64, n: u64) -> Binary64 {
    Binary64::ratio(p, n).times(x).plus(Binary64::ratio(q, n).times(y))
}

pub proof fn lemma_portion(x: Binary64, p: u64, n: u64)
    requires
        modest(x),
        1 <= p <= 8,
        4 <= n <= 16,
    ensures
        binary64_laws::plain(Binary64::ratio(p, n).times(x)),
        binary64_laws::units(Binary64::ratio(p, n).times(x)) <= pow2(1195),
        binary64_approx::approx(
            binary64_laws::units(Binary64::ratio(p, n).times(x)) * n as nat,
            p as nat * binary64_laws::units(x),
            3,
        ),
{
    let one: nat = binary64_laws::one();
    lemma_pow2_pos(1074);
    lemma_pow2_pos(1195);
    lemma2_to64();
    binary64_laws::whole_numbers_are_exact(p);
    binary64_laws::whole_numbers_are_exact(n);
    binary64_laws::lemma_scaled(1, 3, 1074);
    binary64_laws::lemma_scaled(1, 2, 1074);
    binary64_laws::lemma_scaled(1, 4, 1074);
    assert(one <= p * one <= 8 * one && 4 * one <= n * one <= 16 * one) by (nonlinear_arith)
        requires
            1 <= p <= 8,
            4 <= n <= 16,
            one > 0,
    ;
    let r: Binary64 = Binary64::ratio(p, n);
    let k: nat = n as nat;
    let ru: nat = binary64_laws::units(r);
    let u: nat = binary64_laws::units(x);
    binary64_approx::over_step(Binary64::whole(p), Binary64::whole(n), 1074, 1077, 1076, 1078);
    assert(ru * (n * one) == (ru * k) * one) by (nonlinear_arith)
        requires
            k == n,
    ;
    let po: nat = p as nat * one;
    binary64_approx::lemma_approx_cancel(ru * k, po, 1, one);
    let a: Binary64 = r.times(x);
    let au: nat = binary64_laws::units(a);
    if u == 0 {
        binary64_laws::a_product_is_rounded(r, x);
        assert(ru * 0 == 0);
        binary64_laws::lemma_round_none(-2148, false);
        binary64_laws::lemma_parts(a);
        assert(0 * k == 0 && p as nat * 0 == 0);
    } else {
        binary64_approx::times_step(r, x, 1069, 1076, 900, 1190);
        binary64::lemma_pow2_monotone(1193, 1195);
        binary64_approx::lemma_approx_scale(au * one, ru * u, 1, k);
        binary64_approx::lemma_approx_scale(ru * k, po, 1, u);
        assert((ru * u) * k == (ru * k) * u) by (nonlinear_arith);
        binary64_approx::lemma_approx_chain((au * one) * k, (ru * k) * u, po * u, 1, 1);
        assert((au * one) * k == (au * k) * one && po * u == (p as nat * u) * one)
            by (nonlinear_arith)
            requires
                po == p as nat * one,
        ;
        binary64_approx::lemma_approx_cancel(au * k, p as nat * u, 3, one);
    }
}

pub proof fn lemma_approx_sum(u: nat, a: nat, v: nat, b: nat, k: nat)
    requires
        binary64_approx::approx(u, a, k),
        binary64_approx::approx(v, b, k),
    ensures
        binary64_approx::approx(u + v, a + b, k),
{
    assert((a + b) * (0x4_0000_0000_0000 + k) == a * (0x4_0000_0000_0000 + k) + b
        * (0x4_0000_0000_0000 + k) && (a + b) * (0x4_0000_0000_0000 - k) == a
        * (0x4_0000_0000_0000 - k) + b * (0x4_0000_0000_0000 - k)) by (nonlinear_arith);
}

/// A blend of two values is what it says, to within a small part.
proof fn lemma_blend(x: Binary64, y: Binary64, p: u64, q: u64, n: u64)
    requires
        modest(x),
        modest(y),
        1 <= p <= 8,
        1 <= q <= 8,
        4 <= n <= 16,
    ensures
        binary64_laws::plain(blend(x, y, p, q, n)),
        binary64_approx::approx(
            binary64_laws::units(blend(x, y, p, q, n)) * n as nat,
            p as nat * binary64_laws::units(x) + q as nat * binary64_laws::units(y),
            5,
        ),
{
    lemma_portion(x, p, n);
    lemma_portion(y, q, n);
    let a: Binary64 = Binary64::ratio(p, n).times(x);
    let b: Binary64 = Binary64::ratio(q, n).times(y);
    let u: nat = binary64_laws::units(a);
    let v: nat = binary64_laws::units(b);
    let k: nat = n as nat;
    lemma2_to64();
    binary64_laws::lemma_scaled(1, 1195, 2);
    lemma_pow2_strictly_increases(1197, 2098);
    binary64_laws::a_sum_is_near(a, b);
    let w: nat = binary64_laws::units(a.plus(b));
    binary64_approx::lemma_approx_near(w, u + v);
    binary64_approx::lemma_approx_scale(w, u + v, 1, k);
    assert((u + v) * k == u * k + v * k) by (nonlinear_arith);
    let s: nat = p as nat * binary64_laws::units(x);
    let t: nat = q as nat * binary64_laws::units(y);
    lemma_approx_sum(u * k, s, v * k, t, 3);
    binary64_approx::lemma_approx_chain(w * k, u * k + v * k, s + t, 1, 3);
}

pub proof fn lemma_close(x: nat, y: nat, k: nat)
    requires
        binary64_approx::approx(x, y, k),
        k <= 0x1000,
    ensures
        binary64_size::close(x, y),
{
    binary64_approx::lemma_approx_more(x, y, k, 0x1000);
    assert(y * (0x4_0000_0000_0000 + 0x1000) == y * 0x4_0000_0000_1000);
    assert(y * (0x4_0000_0000_0000 - 0x1000) == y * 0x3_ffff_ffff_f000);
}

// ---- Delay -----------------------------------------------------------------------------

/// The milliseconds that an answer took; at least one.
pub open spec fn took(now: u64, stamp: u64) -> nat {
    if now > stamp {
        (now - stamp) as nat
    } else {
        1
    }
}

pub open spec fn apart(a: nat, b: nat) -> nat {
    if a >= b {
        (a - b) as nat
    } else {
        (b - a) as nat
    }
}

/// An answer to something sent later than now changes nothing. The first answer
/// is taken for the delay as it is, and half of it for the jitter. Each later
/// one moves the delay by an eighth of the distance towards itself, and the
/// jitter by a quarter towards how far it was from the delay.
pub proof fn an_answer_moves_delay_and_jitter(p: Path, now: u64, stamp: u64)
    requires
        took(now, stamp) <= 0x10_0000_0000_0000,
    ensures
        stamp > now ==> p.observed(now, stamp) == p,
        stamp <= now && p.rtt_ms is None ==> {
            let q: Path = p.observed(now, stamp);
            let s: nat = took(now, stamp) * binary64_laws::one();
            &&& q.rtt_ms is Some
            &&& binary64_laws::plain(q.rtt_ms->0) && binary64_laws::units(q.rtt_ms->0) == s
            &&& binary64_laws::plain(q.jitter_ms) && binary64_size::close(
                2 * binary64_laws::units(q.jitter_ms),
                s,
            )
        },
        stamp <= now && p.rtt_ms is Some && link_laws::quantity(p.rtt_ms->0)
            && link_laws::quantity(p.jitter_ms) ==> {
            let q: Path = p.observed(now, stamp);
            let s: nat = took(now, stamp) * binary64_laws::one();
            let d: nat = binary64_laws::units(p.rtt_ms->0);
            &&& q.rtt_ms is Some
            &&& binary64_laws::plain(q.rtt_ms->0) && binary64_size::close(
                8 * binary64_laws::units(q.rtt_ms->0),
                7 * d + s,
            )
            &&& binary64_laws::plain(q.jitter_ms) && binary64_size::close(
                4 * binary64_laws::units(q.jitter_ms),
                3 * binary64_laws::units(p.jitter_ms) + apart(d, s),
            )
        },
{
    reveal(Path::observed);
    reveal(Path::capacity_noted);
    if stamp <= now {
        let one: nat = binary64_laws::one();
        lemma_pow2_pos(1074);
        let t: u64 = path::larger(now.saturating_sub(stamp), 1);
        assert(t == took(now, stamp));
        let sample: Binary64 = Binary64::whole(t);
        binary64_laws::whole_numbers_are_exact(t);
        let s: nat = t as nat * one;
        lemma2_to64();
        binary64::lemma_pow2_values();
        binary64_laws::lemma_scaled(1, 52, 1074);
        assert(one <= s <= 0x10_0000_0000_0000 * one) by (nonlinear_arith)
            requires
                s == t * one,
                1 <= t <= 0x10_0000_0000_0000,
                one > 0,
        ;
        assert(pow2(1126) == 0x10_0000_0000_0000 * one);
        assert(binary64_approx::sized(sample, 1074, 1126));
        let q: Path = p.observed(now, stamp);
        match p.rtt_ms {
            None => {
                assert(q.rtt_ms == Some(sample));
                assert(q.jitter_ms == sample.over(Binary64::whole(2)));
                binary64_laws::whole_numbers_are_exact(2);
                binary64_laws::lemma_scaled(1, 1, 1074);
                binary64_approx::over_step(sample, Binary64::whole(2), 1074, 1126, 1075, 1075);
                let j: nat = binary64_laws::units(q.jitter_ms);
                assert(j * (2 * one) == (2 * j) * one) by (nonlinear_arith);
                binary64_approx::lemma_approx_cancel(2 * j, s, 1, one);
                lemma_close(2 * j, s, 1);
            },
            Some(previous) => {
                if link_laws::quantity(previous) && link_laws::quantity(p.jitter_ms) {
                    binary64::lemma_pow2_monotone(900, 974);
                    binary64::lemma_pow2_monotone(900, 1074);
                    binary64::lemma_pow2_monotone(1126, 1190);
                    binary64::lemma_pow2_monotone(1174, 1190);
                    assert(q.rtt_ms == Some(blend(previous, sample, 7, 1, 8)));
                    lemma_blend(previous, sample, 7, 1, 8);
                    let r: nat = binary64_laws::units(q.rtt_ms->0);
                    let d: nat = binary64_laws::units(previous);
                    assert(r * 8nat == 8 * r);
                    lemma_close(8 * r, 7 * d + s, 5);
                    let far: Binary64 = previous.minus(sample).abs();
                    lemma_far(previous, sample);
                    assert(q.jitter_ms == blend(p.jitter_ms, far, 3, 1, 4));
                    lemma_blend(p.jitter_ms, far, 3, 1, 4);
                    let j: nat = binary64_laws::units(q.jitter_ms);
                    let a: nat = 3 * binary64_laws::units(p.jitter_ms);
                    let f: nat = binary64_laws::units(far);
                    let g: nat = apart(d, s);
                    link_choice_laws::lemma_same(a, 1);
                    binary64_approx::lemma_approx_near(f, g);
                    lemma_approx_sum(a, a, f, g, 1);
                    binary64_approx::lemma_approx_chain(j * 4, a + f, a + g, 5, 1);
                    lemma_close(4 * j, a + g, 7);
                }
            },
        }
    }
}

proof fn lemma_far(a: Binary64, b: Binary64)
    requires
        link_laws::quantity(a),
        binary64_approx::sized(b, 1074, 1126),
    ensures
        modest(a.minus(b).abs()),
        binary64_laws::near(
            binary64_laws::units(a.minus(b).abs()),
            apart(binary64_laws::units(a), binary64_laws::units(b)),
        ),
{
    lemma2_to64();
    binary64_laws::lemma_scaled(1, 1174, 1);
    binary64_laws::lemma_scaled(1, 1174, 2);
    binary64::lemma_pow2_monotone(1126, 1174);
    binary64::lemma_pow2_monotone(974, 1074);
    binary64::lemma_pow2_monotone(1176, 1190);
    lemma_pow2_strictly_increases(1176, 2098);
    lemma_pow2_pos(1174);
    binary64_laws::a_distance_is_near(a, b);
    let ua: nat = binary64_laws::units(a);
    let ub: nat = binary64_laws::units(b);
    let d: nat = apart(ua, ub);
    let f: nat = binary64_laws::units(a.minus(b).abs());
    assert(f <= pow2(1190));
    if d > 0 {
        // Both are multiples of a unit that is not small.
        lemma_multiple(a);
        lemma_multiple(b);
        let g: nat = pow2(901);
        let x: nat = (ua / g) as nat;
        let y: nat = (ub / g) as nat;
        lemma_pow2_pos(901);
        assert(d >= g) by (nonlinear_arith)
            requires
                ua == x * g,
                ub == y * g,
                d == apart(ua, ub),
                d > 0,
                g > 0,
        ;
        binary64_laws::lemma_scaled(1, 900, 1);
    } else {
        assert(f == 0);
    }
}

proof fn lemma_multiple(a: Binary64)
    requires
        binary64_laws::plain(a),
        binary64_laws::units(a) == 0 || binary64_laws::units(a) >= pow2(974),
    ensures
        binary64_laws::units(a) == (binary64_laws::units(a) / pow2(901)) * pow2(901),
{
    binary64_laws::lemma_parts(a);
    lemma_pow2_pos(901);
    let u: nat = binary64_laws::units(a);
    let g: nat = pow2(901);
    let t: int = a.exponent() + 1074;
    binary64::lemma_pow2_values();
    if u == 0 {
        vstd::arithmetic::div_mod::lemma_div_by_multiple(0, g as int);
        assert(0 * g == 0);
    } else {
        if t < 901 {
            // Too small a unit: the value itself would be small.
            binary64::lemma_pow2_monotone(t as nat, 901);
            binary64_approx::lemma_most(a.significand(), pow2(t as nat), 53, 901);
            lemma_pow2_strictly_increases(954, 974);
        }
        assert(t >= 901);
        let k: nat = (t - 901) as nat;
        binary64_laws::lemma_scaled(a.significand(), k, 901);
        let x: nat = a.significand() * pow2(k);
        vstd::arithmetic::div_mod::lemma_div_by_multiple(x as int, g as int);
    }
}

// ---- Rates -----------------------------------------------------------------------------

pub open spec fn rate_sample(total: u64, elapsed: u64) -> Binary64 {
    Binary64::whole(total).times(Binary64::whole(8000)).over(Binary64::whole(elapsed))
}

pub proof fn lemma_rate_sample(total: u64, elapsed: u64)
    requires
        1 <= total <= 0x100_0000_0000,
        16 <= elapsed <= 0x100_0000_0000,
    ensures
        modest(rate_sample(total, elapsed)),
        binary64_approx::approx(
            binary64_laws::units(rate_sample(total, elapsed)) * elapsed as nat,
            total as nat * 8000 * binary64_laws::one(),
            4,
        ),
{
    let one: nat = binary64_laws::one();
    lemma_pow2_pos(1074);
    binary64_laws::whole_numbers_are_exact(total);
    binary64_laws::whole_numbers_are_exact(elapsed);
    binary64_laws::whole_numbers_are_exact(8000);
    lemma2_to64();
    lemma2_to64_rest();
    binary64_laws::lemma_scaled(1, 40, 1074);
    binary64_laws::lemma_scaled(1, 12, 1074);
    binary64_laws::lemma_scaled(1, 13, 1074);
    binary64_laws::lemma_scaled(1, 4, 1074);
    let n: nat = total as nat;
    let e: nat = elapsed as nat;
    assert(one <= n * one <= 0x100_0000_0000 * one && 16 * one <= e * one <= 0x100_0000_0000 * one)
        by (nonlinear_arith)
        requires
            1 <= n <= 0x100_0000_0000,
            16 <= e <= 0x100_0000_0000,
            one > 0,
    ;
    let a: Binary64 = Binary64::whole(total).times(Binary64::whole(8000));
    binary64_approx::times_step(
        Binary64::whole(total),
        Binary64::whole(8000),
        1074,
        1114,
        1086,
        1087,
    );
    let au: nat = binary64_laws::units(a);
    let w: nat = n * 8000 * one;
    assert((n * one) * (8000 * one) == w * one) by (nonlinear_arith)
        requires
            w == n * 8000 * one,
    ;
    binary64_approx::lemma_approx_cancel(au, w, 1, one);
    binary64_approx::over_step(a, Binary64::whole(elapsed), 1085, 1128, 1078, 1114);
    let s: nat = binary64_laws::units(rate_sample(total, elapsed));
    assert(s * (e * one) == (s * e) * one) by (nonlinear_arith);
    binary64_approx::lemma_approx_cancel(s * e, au, 1, one);
    binary64_approx::lemma_approx_chain(s * e, au, w, 1, 1);
    binary64_approx::lemma_approx_more(s * e, w, 3, 4);
    binary64::lemma_pow2_monotone(900, 1044);
    binary64::lemma_pow2_monotone(1125, 1190);
}

/// The delivery rate is measured over a quarter of a second or longer: bits by
/// the milliseconds they took. The first is taken as it is; each later one
/// counts three tenths. Until then bytes are only added up.
pub proof fn acknowledged_bytes_make_the_rate(
    p: Path,
    bytes: usize,
    stamp: u64,
    exact: bool,
    now: u64,
)
    requires
        p.rate_started <= now <= p.rate_started + 0x100_0000_0000,
        1 <= p.rate_bytes + bytes <= 0x100_0000_0000,
        p.delivery_bps.bits == 0 || link_laws::quantity(p.delivery_bps),
    ensures
        ({
            let q: Path = p.credited(bytes, stamp, exact, now);
            let total: nat = (p.rate_bytes + bytes) as nat;
            let elapsed: nat = (now - p.rate_started) as nat;
            let one: nat = binary64_laws::one();
            &&& elapsed < 250 ==> q.rate_bytes == total && q.rate_started == p.rate_started
                && q.delivery_bps == p.delivery_bps
            &&& elapsed >= 250 ==> q.rate_bytes == 0 && q.rate_started == now
                && binary64_laws::plain(q.delivery_bps) && (if p.delivery_bps.bits == 0 {
                binary64_size::close(
                    binary64_laws::units(q.delivery_bps) * elapsed,
                    total * 8000 * one,
                )
            } else {
                binary64_size::close(
                    (10 * binary64_laws::units(q.delivery_bps)) * elapsed,
                    (7 * binary64_laws::units(p.delivery_bps)) * elapsed + 3 * (total * 8000
                        * one),
                )
            })
        }),
{
    reveal(Path::credited);
    reveal(Path::observed);
    reveal(Path::capacity_noted);
    reveal(Path::capacity_acknowledged);
    let q: Path = p.credited(bytes, stamp, exact, now);
    let total: u64 = (p.rate_bytes + bytes) as u64;
    let elapsed: u64 = (now - p.rate_started) as u64;
    let e: nat = elapsed as nat;
    let one: nat = binary64_laws::one();
    if elapsed >= 250 {
        lemma_rate_sample(total, elapsed);
        let sample: Binary64 = rate_sample(total, elapsed);
        let s: nat = binary64_laws::units(sample);
        let w: nat = total as nat * 8000 * one;
        if p.delivery_bps.bits == 0 {
            assert(q.delivery_bps == sample);
            lemma_close(s * e, w, 4);
        } else {
            binary64::lemma_pow2_monotone(900, 974);
            binary64::lemma_pow2_monotone(1174, 1190);
            let d: Binary64 = p.delivery_bps;
            assert(q.delivery_bps == blend(d, sample, 7, 3, 10));
            lemma_blend(d, sample, 7, 3, 10);
            lemma_rate_blend(
                binary64_laws::units(q.delivery_bps),
                binary64_laws::units(d),
                s,
                e,
                w,
                10,
                7,
                3,
            );
        }
    }
}

proof fn lemma_rate_blend(r: nat, d: nat, s: nat, e: nat, w: nat, n: nat, p: nat, q: nat)
    requires
        binary64_approx::approx(r * n, p * d + q * s, 5),
        binary64_approx::approx(s * e, w, 4),
    ensures
        binary64_size::close((n * r) * e, (p * d) * e + q * w),
{
    binary64_approx::lemma_approx_scale(r * n, p * d + q * s, 5, e);
    binary64_approx::lemma_approx_scale(s * e, w, 4, q);
    link_choice_laws::lemma_same((p * d) * e, 4);
    lemma_approx_sum((p * d) * e, (p * d) * e, q * (s * e), q * w, 4);
    assert((p * d + q * s) * e == (p * d) * e + q * (s * e)) by (nonlinear_arith);
    assert((r * n) * e == (n * r) * e) by (nonlinear_arith);
    binary64_approx::lemma_approx_chain(
        (n * r) * e,
        (p * d) * e + q * (s * e),
        (p * d) * e + q * w,
        5,
        4,
    );
    lemma_close((n * r) * e, (p * d) * e + q * w, 10);
}

/// The rate of bulk TCP is measured while the window is in use, over a round
/// trip or two: bits by the milliseconds they took. The first is taken as it
/// is; each later one counts a quarter.
pub proof fn acknowledged_tcp_makes_its_rate(p: Path, bytes: usize, now: u64)
    requires
        p.tcp_rate.started is Some,
        p.tcp_rate.started->0 <= now,
        50 <= now - p.tcp_rate.started->0,
        p.tcp_rate.bytes + bytes <= 0x100_0000_0000,
        p.rate_window() <= now - p.tcp_rate.started->0,
        p.tcp_delivery_bps.bits == 0 || link_laws::quantity(p.tcp_delivery_bps),
    ensures
        ({
            let q: Path = p.tcp_credited(bytes, now);
            let total: nat = (p.tcp_rate.bytes + bytes) as nat;
            let elapsed: nat = (now - p.tcp_rate.started->0) as nat;
            let loaded: bool = p.tcp_rate.loaded || p.capacity_used(now);
            let one: nat = binary64_laws::one();
            &&& q.tcp_rate.bytes == 0 && q.tcp_rate.started == Some(now) && !q.tcp_rate.loaded
            &&& elapsed > 1000 || !loaded || total < 10_240 ==> q.tcp_delivery_bps
                == p.tcp_delivery_bps && q.tcp_rate.sampled_at == p.tcp_rate.sampled_at
            &&& elapsed <= 1000 && loaded && total >= 10_240 ==> q.tcp_rate.sampled_at == Some(
                now,
            ) && binary64_laws::plain(q.tcp_delivery_bps) && (if p.tcp_delivery_bps.bits == 0 {
                binary64_size::close(
                    binary64_laws::units(q.tcp_delivery_bps) * elapsed,
                    total * 8000 * one,
                )
            } else {
                binary64_size::close(
                    (4 * binary64_laws::units(q.tcp_delivery_bps)) * elapsed,
                    (3 * binary64_laws::units(p.tcp_delivery_bps)) * elapsed + 1 * (total * 8000
                        * one),
                )
            })
        }),
{
    reveal(Path::tcp_credited);
    let q: Path = p.tcp_credited(bytes, now);
    let total: u64 = (p.tcp_rate.bytes + bytes) as u64;
    let elapsed: u64 = (now - p.tcp_rate.started->0) as u64;
    let e: nat = elapsed as nat;
    let one: nat = binary64_laws::one();
    if elapsed <= 1000 && (p.tcp_rate.loaded || p.capacity_used(now)) && total >= 10_240 {
        lemma_rate_sample(total, elapsed);
        let sample: Binary64 = rate_sample(total, elapsed);
        let s: nat = binary64_laws::units(sample);
        let w: nat = total as nat * 8000 * one;
        if p.tcp_delivery_bps.bits == 0 {
            assert(q.tcp_delivery_bps == sample);
            lemma_close(s * e, w, 4);
        } else {
            binary64::lemma_pow2_monotone(900, 974);
            binary64::lemma_pow2_monotone(1174, 1190);
            let d: Binary64 = p.tcp_delivery_bps;
            assert(q.tcp_delivery_bps == blend(d, sample, 3, 1, 4));
            lemma_blend(d, sample, 3, 1, 4);
            lemma_rate_blend(
                binary64_laws::units(q.tcp_delivery_bps),
                binary64_laws::units(d),
                s,
                e,
                w,
                4,
                3,
                1,
            );
        }
    }
}

// ---- The window ------------------------------------------------------------------------

/// Credit that is turned into growth is spent: each step costs the window as it
/// stands, and adds one packet of 1280 bytes.
pub proof fn growth_costs_a_window_each(credit: usize, window: usize) -> (steps: nat)
    requires
        0 < window,
        credit + window + 1280 <= usize::MAX,
        1280 * credit + window + 1280 <= usize::MAX,
    ensures
        path::grown(credit, window).1 == window + 1280 * steps,
        path::grown(credit, window).0 < path::grown(credit, window).1,
        2 * (credit - path::grown(credit, window).0) == steps * (2 * window + 1280 * (steps - 1)),
    decreases credit,
{
    if credit >= window {
        let rest: usize = (credit - window) as usize;
        let next: usize = (window + 1280) as usize;
        assert(1280 * rest + next + 1280 <= usize::MAX) by {
            assert(1280 * rest == 1280 * credit - 1280 * window);
        }
        let k: nat = growth_costs_a_window_each(rest, next);
        let n: nat = k + 1;
        assert(n * (2 * window + 1280 * (n - 1)) == 2 * window + k * (2 * next + 1280 * (k - 1)))
            by (nonlinear_arith)
            requires
                n == k + 1,
                next == window + 1280,
        ;
        k + 1
    } else {
        0
    }
}

/// An acknowledgement grows the window by its bytes up to the threshold, and
/// past it by a packet for each window of bytes, what is left over being kept.
/// It never grows while a queue stands, nor past four mebibytes.
pub proof fn acknowledgements_grow_the_window(p: Path, bytes: usize)
    requires
        0 < p.congestion_window <= 4_194_304,
        p.growth_credit < p.congestion_window,
        bytes <= p.congestion_window,
    ensures
        ({
            let q: Path = p.capacity_acknowledged(bytes);
            let w: int = p.congestion_window as int;
            &&& p.queue_persistent ==> q.congestion_window == w && q.growth_credit
                == p.growth_credit
            &&& !p.queue_persistent && w < p.slow_start_threshold ==> q.congestion_window == if w
                + bytes < 4_194_304 {
                w + bytes
            } else {
                4_194_304
            }
            &&& !p.queue_persistent && w >= p.slow_start_threshold && p.growth_credit + bytes < w
                ==> q.congestion_window == w && q.growth_credit == p.growth_credit + bytes
            &&& !p.queue_persistent && w >= p.slow_start_threshold && p.growth_credit + bytes >= w
                ==> q.congestion_window == (if w + 1280 < 4_194_304 {
                w + 1280
            } else {
                4_194_304
            }) && q.growth_credit == p.growth_credit + bytes - w
        }),
{
    reveal(Path::capacity_acknowledged);
    reveal_with_fuel(path::grown, 3);
}

/// A copy that had to be repaired counts once in the time that a repair takes.
/// It halves the window, to no less than eight packets, exactly when it is
/// telling and a queue stands.
pub proof fn a_repair_backs_off_once(p: Path, now: u64, backoff: bool)
    requires
        p.timeouts < u64::MAX,
    ensures
        ({
            let q: Path = p.repair_timed_out(now, backoff);
            let recent: bool = p.last_congestion is Some && (now <= p.last_congestion->0 || now
                - p.last_congestion->0 < p.repair_ms()) && p.repair_ms() > 0;
            let half: int = p.congestion_window as int / 2;
            &&& recent ==> q == p
            &&& !recent ==> q.timeouts == p.timeouts + 1 && q.last_congestion == Some(now)
            &&& !recent && backoff && p.queue_persistent ==> q.congestion_window == (if half
                > 10_240 {
                half
            } else {
                10_240
            }) && q.slow_start_threshold == q.congestion_window && q.growth_credit == 0
            &&& !backoff || !p.queue_persistent ==> q.congestion_window == p.congestion_window
                && q.slow_start_threshold == p.slow_start_threshold
        }),
{
    reveal(Path::repair_timed_out);
}

} // verus!
