//! The times and thresholds of a path, in terms of what is measured of it.
use crate::binary64;
use crate::binary64::Binary64;
use crate::binary64_approx;
use crate::binary64_laws;
use crate::binary64_size;
use crate::link_laws;
use crate::path;
use crate::path::{Path, PathState};
use crate::target_laws;
use vstd::arithmetic::div_mod::*;
use vstd::arithmetic::power2::*;
use vstd::prelude::*;

verus! {

/// A whole number of milliseconds that a value holds is its part before the
/// point.
proof fn lemma_floor(x: Binary64)
    requires
        binary64_laws::plain(x),
        binary64_laws::units(x) < 0x1_0000_0000 * binary64_laws::one(),
    ensures
        x.floor_u64() * binary64_laws::one() <= binary64_laws::units(x) < (x.floor_u64() + 1)
            * binary64_laws::one(),
        x.floor_u64() < 0x1_0000_0000,
{
    let one: nat = binary64_laws::one();
    let u: nat = binary64_laws::units(x);
    lemma_pow2_pos(1074);
    binary64_size::a_whole_part_is_counted(x);
    lemma_fundamental_div_mod(u as int, one as int);
    lemma_mod_bound(u as int, one as int);
    let q: nat = u / one;
    assert(q < 0x1_0000_0000) by (nonlinear_arith)
        requires
            q == u / one,
            u < 0x1_0000_0000 * one,
            one > 0,
    ;
    assert(q * one <= u < (q + 1) * one) by (nonlinear_arith)
        requires
            u == one * q + u % one,
            0 <= u % one < one,
    ;
}

// ---- Silence ---------------------------------------------------------------------------

/// After how much silence a path has failed, exactly: eight probes and four
/// times the jitter, from a quarter of a second to two seconds.
pub open spec fn patience(p: Path) -> nat {
    let one: nat = binary64_laws::one();
    binary64_size::bounded(160 * one + 4 * binary64_laws::units(p.jitter_ms), 250 * one, 2_000 * one)
}

/// Milliseconds of silence after which a path has failed are its patience, to
/// within the millisecond and a small part.
pub proof fn silence_is_judged_by_jitter(p: Path)
    requires
        binary64_laws::plain(p.jitter_ms),
        binary64_laws::units(p.jitter_ms) < pow2(2000),
    ensures
        250 <= p.failure_ms() <= 2_000,
        p.failure_ms() * binary64_laws::one() * 1_000_000 <= patience(p) * 1_000_001,
        patience(p) * 1_000_000 <= (p.failure_ms() + 1) * binary64_laws::one() * 1_000_001,
{
    let one: nat = binary64_laws::one();
    lemma_pow2_pos(1074);
    lemma2_to64();
    binary64_laws::whole_numbers_are_exact(8);
    binary64_laws::whole_numbers_are_exact(20);
    binary64_laws::whole_numbers_are_exact(160);
    binary64_laws::a_multiple_is_rounded(8, Binary64::whole(20));
    assert(8 * (20 * one) == 160 * one);
    binary64_laws::values_round_to_themselves(Binary64::whole(160));
    let a: Binary64 = Binary64::whole(8).times(Binary64::whole(20));
    assert(a == Binary64::whole(160));
    binary64_laws::lemma_scaled(1, 2000, 4);
    lemma_pow2_strictly_increases(2004, 2098);
    binary64_laws::four_times_is_exact(p.jitter_ms);
    let b: Binary64 = Binary64::whole(4).times(p.jitter_ms);
    binary64_laws::lemma_scaled(1, 8, 1074);
    binary64::lemma_pow2_monotone(1082, 2000);
    binary64_laws::a_sum_is_near(a, b);
    let s: Binary64 = a.plus(b);
    binary64_size::a_bound_is_kept(s, 250, 2_000);
    let c: Binary64 = s.clamp(Binary64::whole(250), Binary64::whole(2_000));
    assert(p.failure_ms() == c.floor_u64());
    assert(250nat * one == 250 * one && 2_000nat * one == 2_000 * one);
    lemma_floor(c);
    let n: nat = p.failure_ms() as nat;
    let u: nat = binary64_laws::units(c);
    let su: nat = binary64_laws::units(s);
    let e: nat = 160 * one + 4 * binary64_laws::units(p.jitter_ms);
    assert(n * one <= u < (n + 1) * one);
    assert(n >= 250) by (nonlinear_arith)
        requires
            u < (n + 1) * one,
            u >= 250 * one,
            one > 0,
    ;
    assert(n <= 2_000) by (nonlinear_arith)
        requires
            n * one <= u,
            u <= 2_000 * one,
            one > 0,
    ;
    let no: nat = n * one;
    assert((n + 1) * one == no + one) by (nonlinear_arith)
        requires
            no == n * one,
    ;
}

/// A path takes no traffic after two seconds of silence, and keeps its standing
/// for a quarter of a second, whatever the jitter. Besides it must be enabled,
/// off probation, and have answered three times.
pub proof fn readiness_ends_with_silence(p: Path, now: u64)
    requires
        binary64_laws::plain(p.jitter_ms),
        binary64_laws::units(p.jitter_ms) < pow2(2000),
    ensures
        p.ready(now) ==> p.enabled && p.probation_until is None && p.good_samples >= 3
            && p.last_response is Some && now <= p.last_response->0 + 2_000,
        p.enabled && p.probation_until is None && p.good_samples >= 3 && p.last_response is Some
            && now <= p.last_response->0 + 250 ==> p.ready(now),
        p.recently_responding(now) <==> p.last_response is Some && now <= p.last_response->0 + 60,
{
    silence_is_judged_by_jitter(p);
}

/// More jitter never shortens the silence that a path is allowed.
pub proof fn jitter_earns_patience(p: Path, q: Path)
    requires
        binary64_laws::plain(p.jitter_ms),
        binary64_laws::plain(q.jitter_ms),
        binary64_laws::units(p.jitter_ms) <= binary64_laws::units(q.jitter_ms) < pow2(2000),
    ensures
        p.failure_ms() <= q.failure_ms(),
{
    let one: nat = binary64_laws::one();
    lemma_pow2_pos(1074);
    lemma2_to64();
    binary64_laws::whole_numbers_are_exact(8);
    binary64_laws::whole_numbers_are_exact(20);
    binary64_laws::whole_numbers_are_exact(160);
    binary64_laws::whole_numbers_are_exact(250);
    binary64_laws::whole_numbers_are_exact(2_000);
    binary64_laws::a_multiple_is_rounded(8, Binary64::whole(20));
    assert(8 * (20 * one) == 160 * one);
    binary64_laws::values_round_to_themselves(Binary64::whole(160));
    let a: Binary64 = Binary64::whole(8).times(Binary64::whole(20));
    binary64_laws::lemma_scaled(1, 2000, 3);
    lemma_pow2_strictly_increases(2003, 2098);
    binary64_laws::four_times_is_exact(p.jitter_ms);
    binary64_laws::four_times_is_exact(q.jitter_ms);
    let b: Binary64 = Binary64::whole(4).times(p.jitter_ms);
    let c: Binary64 = Binary64::whole(4).times(q.jitter_ms);
    binary64_laws::units_keep_order(b, c);
    binary64_laws::sums_keep_order(a, b, a, c);
    binary64_laws::units_keep_order(Binary64::whole(250), Binary64::whole(2_000));
    let x: Binary64 = a.plus(b);
    let y: Binary64 = a.plus(c);
    binary64_size::bounds_keep_order(x, y, Binary64::whole(250), Binary64::whole(2_000));
    binary64_size::whole_parts_keep_order(
        x.clamp(Binary64::whole(250), Binary64::whole(2_000)),
        y.clamp(Binary64::whole(250), Binary64::whole(2_000)),
    );
}

// ---- Repair ----------------------------------------------------------------------------

/// A copy is repaired after the delay, four times the jitter and 20
/// milliseconds, to within the millisecond and a small part; but not before 70
/// milliseconds, nor before the longest pause that was observed and 20
/// milliseconds, of which up to 300 count.
pub proof fn repairs_wait_for_delay_and_pause(p: Path)
    requires
        target_laws::timed(p),
        target_laws::span(p) < 0x1000_0000 * binary64_laws::one(),
    ensures
        ({
            let one: nat = binary64_laws::one();
            let pause: nat = binary64_size::bounded(p.response_pause_ms as nat + 20, 0, 300);
            let due: nat = target_laws::span(p) + 20 * one;
            let ms: nat = p.repair_ms() as nat;
            &&& ms >= 70
            &&& ms >= pause
            &&& due * 1_000_000 <= (ms + 1) * one * 1_000_001
            &&& ms > 70 && ms > pause ==> ms * one * 1_000_000 <= due * 1_000_001
        }),
{
    reveal(binary64::spec_lt);
    let one: nat = binary64_laws::one();
    lemma_pow2_pos(1074);
    lemma2_to64();
    binary64_laws::whole_numbers_are_exact(20);
    binary64_laws::whole_numbers_are_exact(70);
    target_laws::lemma_span(p);
    let d: Binary64 = target_laws::paced_delay(p);
    binary64_laws::lemma_scaled(1, 30, 1074);
    binary64_laws::lemma_scaled(1, 1104, 2);
    lemma_pow2_strictly_increases(1106, 2098);
    binary64_laws::a_sum_is_near(d, Binary64::whole(20));
    let s: Binary64 = d.plus(Binary64::whole(20));
    let su: nat = binary64_laws::units(s);
    let due: nat = target_laws::span(p) + 20 * one;
    assert(su * 0x4_0000_0000_0000 <= due * 0x4_0000_0000_0003);
    assert(due * 0x3_ffff_ffff_fffd <= su * 0x4_0000_0000_0000);
    binary64_laws::units_keep_order(s, Binary64::whole(70));
    let m: Binary64 = s.max(Binary64::whole(70));
    let mu: nat = binary64_laws::units(m);
    assert(mu == if su < 70 * one {
        70 * one
    } else {
        su
    });
    lemma_floor(m);
    let n: nat = m.floor_u64() as nat;
    let no: nat = n * one;
    assert((n + 1) * one == no + one) by (nonlinear_arith)
        requires
            no == n * one,
    ;
    assert(n >= 70) by (nonlinear_arith)
        requires
            mu < (n + 1) * one,
            mu >= 70 * one,
            one > 0,
    ;
    if su < 70 * one {
        assert(n == 70) by (nonlinear_arith)
            requires
                n * one <= mu,
                mu == 70 * one,
                n >= 70,
                one > 0,
        ;
    }
    let ms: nat = p.repair_ms() as nat;
    assert(ms >= n);
    let mo: nat = ms * one;
    assert((ms + 1) * one == mo + one && mo >= no) by (nonlinear_arith)
        requires
            mo == ms * one,
            no == n * one,
            ms >= n,
            one > 0,
    ;
}

// ---- Queues ----------------------------------------------------------------------------

/// How far above the least delay a path may lie without a queue: a floor, four
/// times the jitter, and twice the least delay up to 30 milliseconds.
pub open spec fn slack(p: Path, floor: nat) -> nat {
    let j: nat = 4 * binary64_laws::units(p.jitter_ms);
    let m: nat = 2 * binary64_size::bounded(
        binary64_laws::units(p.minimum_rtt_ms),
        0,
        15 * binary64_laws::one(),
    );
    let a: nat = if j > floor {
        j
    } else {
        floor
    };
    if m > a {
        m
    } else {
        a
    }
}

proof fn lemma_slack(p: Path, floor: u64)
    requires
        binary64_laws::plain(p.jitter_ms),
        binary64_laws::units(p.jitter_ms) < pow2(2000),
        binary64_laws::plain(p.minimum_rtt_ms),
        floor <= 1_000,
    ensures
        binary64_laws::plain(p.queue_slack_ms(Binary64::whole(floor))),
        binary64_laws::units(p.queue_slack_ms(Binary64::whole(floor))) == slack(
            p,
            floor as nat * binary64_laws::one(),
        ),
{
    reveal(binary64::spec_lt);
    let one: nat = binary64_laws::one();
    lemma_pow2_pos(1074);
    lemma2_to64();
    binary64_laws::whole_numbers_are_exact(floor);
    binary64_laws::whole_numbers_are_exact(0);
    binary64_laws::whole_numbers_are_exact(2);
    binary64_laws::lemma_scaled(1, 2000, 3);
    lemma_pow2_strictly_increases(2003, 2098);
    binary64_laws::four_times_is_exact(p.jitter_ms);
    let f: Binary64 = Binary64::whole(floor);
    let j: Binary64 = Binary64::whole(4).times(p.jitter_ms);
    binary64_laws::units_keep_order(f, j);
    let a: Binary64 = f.max(j);
    assert(0 * one == 0);
    link_laws::lemma_unset(Binary64::whole(0));
    assert(path::zero() == Binary64::whole(0));
    binary64_size::a_bound_is_kept(p.minimum_rtt_ms, 0, 15);
    let m: Binary64 = p.minimum_rtt_ms.clamp(path::zero(), Binary64::whole(15));
    let mu: nat = binary64_laws::units(m);
    binary64_laws::a_product_is_rounded(m, Binary64::whole(2));
    assert(mu * (2 * one) == (2 * mu) * one) by (nonlinear_arith);
    binary64_laws::rounding_ignores_zeros(2 * mu, -1074, 1074);
    binary64_laws::lemma_parts(m);
    let t: nat = (m.exponent() + 1074) as nat;
    binary64_laws::lemma_scaled(m.significand(), t, 1);
    binary64_laws::lemma_scaled(1, 5, 1074);
    lemma_pow2_strictly_increases(1079, 2098);
    binary64_laws::short_numbers_are_exact(m.significand(), t + 1);
    let b: Binary64 = m.times(Binary64::whole(2));
    assert(binary64_laws::plain(b) && binary64_laws::units(b) == 2 * mu);
    binary64_laws::units_keep_order(a, b);
}

/// An answer is raised while it lies clearly more than the slack above the least
/// delay. A run of raised ones makes a queue after a tenth of a second, and one
/// that is not raised ends it.
pub proof fn queues_are_told_by_raised_answers(p: Path, now: u64, sample: u64)
    requires
        binary64_laws::plain(p.jitter_ms),
        binary64_laws::units(p.jitter_ms) < pow2(2000),
        binary64_laws::plain(p.minimum_rtt_ms),
        1 <= sample <= 0x100_0000_0000,
        binary64_laws::units(p.minimum_rtt_ms) <= sample as nat * binary64_laws::one(),
    ensures
        ({
            let q: Path = p.queue_stepped(now, Binary64::whole(sample));
            let one: nat = binary64_laws::one();
            let above: nat = (sample as nat * one - binary64_laws::units(p.minimum_rtt_ms)) as nat;
            let limit: nat = slack(p, 30 * one);
            &&& binary64_size::clearly_less(limit, above) ==> q.elevated_since is Some && (
            p.elevated_since is None ==> q.elevated_since == Some(now) && !q.queue_persistent) && (
            p.elevated_since is Some ==> q.elevated_since == p.elevated_since && (q.queue_persistent
                <==> now >= p.elevated_since->0 + 100))
            &&& above == 0 || binary64_size::clearly_less(above, limit) ==> q.elevated_since is None
                && !q.queue_persistent
        }),
{
    reveal(binary64::spec_lt);
    let one: nat = binary64_laws::one();
    lemma_pow2_pos(1074);
    lemma2_to64();
    lemma2_to64_rest();
    lemma_slack(p, 30);
    binary64_laws::whole_numbers_are_exact(sample);
    let s: Binary64 = Binary64::whole(sample);
    let u: nat = binary64_laws::units(s);
    binary64_laws::lemma_scaled(1, 40, 1074);
    binary64_laws::lemma_scaled(1, 1114, 1);
    lemma_pow2_strictly_increases(1115, 2098);
    assert(u <= 0x100_0000_0000 * one) by (nonlinear_arith)
        requires
            u == sample * one,
            sample <= 0x100_0000_0000,
            one > 0,
    ;
    binary64_laws::a_difference_is_near(s, p.minimum_rtt_ms);
    let d: Binary64 = s.minus(p.minimum_rtt_ms);
    let l: Binary64 = p.queue_slack_ms(Binary64::whole(30));
    binary64_laws::units_keep_order(l, d);
    link_laws::lemma_unset(l);
    link_laws::lemma_unset(d);
}

/// An answer above 75 milliseconds of smoothed delay keeps calls off the path.
/// Only below 65 milliseconds, and after three answers, are they let back on.
/// The path is recovering until three answers and the end of any probation; and
/// then it is degraded where its delay lies clearly more than the slack above
/// the least.
pub proof fn delay_decides_standing(p: Path, now: u64)
    requires
        p.rtt_ms is Some,
        binary64_laws::plain(p.rtt_ms->0),
        binary64_laws::units(p.rtt_ms->0) < pow2(2000),
        binary64_laws::plain(p.jitter_ms),
        binary64_laws::units(p.jitter_ms) < pow2(2000),
        binary64_laws::plain(p.minimum_rtt_ms),
        binary64_laws::units(p.minimum_rtt_ms) <= binary64_laws::units(p.rtt_ms->0),
    ensures
        ({
            let q: Path = p.answered(now);
            let one: nat = binary64_laws::one();
            let d: nat = binary64_laws::units(p.rtt_ms->0);
            let above: nat = (d - binary64_laws::units(p.minimum_rtt_ms)) as nat;
            let limit: nat = slack(p, 15 * one);
            let soon: bool = q.good_samples < 3 || p.probation_until is Some;
            &&& d >= 75 * one ==> q.latency_excluded
            &&& d < 65 * one && q.good_samples >= 3 ==> !q.latency_excluded
            &&& 65 * one <= d < 75 * one || d < 65 * one && q.good_samples < 3
                ==> q.latency_excluded == p.latency_excluded
            &&& soon ==> q.state == PathState::Recovering
            &&& !soon && binary64_size::clearly_less(limit, above) ==> q.state
                == PathState::Degraded
            &&& !soon && (above == 0 || binary64_size::clearly_less(above, limit)) ==> q.state
                == PathState::Healthy
            &&& q.last_response == Some(now)
            &&& p.good_samples < u8::MAX ==> q.good_samples == p.good_samples + 1
        }),
{
    reveal(binary64::spec_lt);
    let one: nat = binary64_laws::one();
    lemma_pow2_pos(1074);
    lemma2_to64();
    binary64_laws::whole_numbers_are_exact(75);
    binary64_laws::whole_numbers_are_exact(65);
    let r: Binary64 = p.rtt_ms->0;
    binary64_laws::units_keep_order(r, Binary64::whole(75));
    binary64_laws::units_keep_order(r, Binary64::whole(65));
    link_laws::lemma_unset(Binary64::whole(75));
    link_laws::lemma_unset(Binary64::whole(65));
    lemma_slack(p, 15);
    binary64_laws::lemma_scaled(1, 2000, 1);
    lemma_pow2_strictly_increases(2001, 2098);
    binary64_laws::a_difference_is_near(r, p.minimum_rtt_ms);
    let d: Binary64 = r.minus(p.minimum_rtt_ms);
    let l: Binary64 = p.queue_slack_ms(Binary64::whole(15));
    binary64_laws::units_keep_order(l, d);
    link_laws::lemma_unset(l);
    link_laws::lemma_unset(d);
}

/// A standing queue takes up to a quarter off the window and at least a
/// twentieth, as the delay lies above the least and the slack: the window that
/// is left is to the window before as those are to the delay.
pub proof fn a_queue_takes_up_to_a_quarter(p: Path)
    requires
        p.rtt_ms is Some,
        link_laws::quantity(p.rtt_ms->0),
        binary64_laws::units(p.rtt_ms->0) > 0,
        link_laws::quantity(p.jitter_ms),
        link_laws::quantity(p.minimum_rtt_ms),
        27_400 <= p.congestion_window <= 4_194_304,
    ensures
        ({
            let one: nat = binary64_laws::one();
            let w: nat = p.congestion_window as nat;
            let r: nat = p.delay_window() as nat;
            let d: nat = binary64_laws::units(p.rtt_ms->0);
            let t: nat = binary64_laws::units(p.minimum_rtt_ms) + slack(p, 30 * one);
            &&& r <= w
            &&& 4 * (r + 1) >= 3 * w
            &&& 100 * r <= 95 * w + 1
            &&& 76 * d <= 100 * t <= 94 * d ==> {
                &&& r * d * 1_000_000 <= w * t * 1_000_001
                &&& w * t * 1_000_000 <= (r + 1) * d * 1_000_001
            }
        }),
{
    let one: nat = binary64_laws::one();
    lemma_pow2_pos(1074);
    lemma2_to64();
    lemma2_to64_rest();
    binary64::lemma_pow2_monotone(1174, 1999);
    lemma_pow2_strictly_increases(1999, 2000);
    lemma_slack(p, 30);
    let l: Binary64 = p.queue_slack_ms(Binary64::whole(30));
    let lu: nat = binary64_laws::units(l);
    binary64_laws::lemma_scaled(1, 1174, 2);
    binary64_laws::lemma_scaled(1, 1174, 3);
    binary64_laws::lemma_scaled(1, 1174, 5);
    binary64_laws::lemma_scaled(1, 5, 1074);
    binary64::lemma_pow2_monotone(1079, 1174);
    lemma_pow2_strictly_increases(1179, 2098);
    assert(lu <= 4 * pow2(1174));
    binary64_laws::a_sum_is_near(p.minimum_rtt_ms, l);
    let s: Binary64 = p.minimum_rtt_ms.plus(l);
    let su: nat = binary64_laws::units(s);
    let t: nat = binary64_laws::units(p.minimum_rtt_ms) + lu;
    assert(t >= 30 * one);
    let d: Binary64 = p.rtt_ms->0;
    let du: nat = binary64_laws::units(d);
    assert(one <= su <= pow2(1177));
    binary64::lemma_pow2_monotone(974, 1074);
    binary64_approx::over_step(s, d, 1074, 1177, 974, 1174);
    let x: Binary64 = s.over(d);
    let xu: nat = binary64_laws::units(x);
    // The bounds of the part.
    binary64_laws::whole_numbers_are_exact(3);
    binary64_laws::whole_numbers_are_exact(4);
    binary64_laws::whole_numbers_are_exact(95);
    binary64_laws::whole_numbers_are_exact(100);
    let low: Binary64 = Binary64::ratio(3, 4);
    let high: Binary64 = Binary64::ratio(95, 100);
    binary64_laws::lemma_scaled(1, 1, 1074);
    binary64_laws::lemma_scaled(1, 2, 1074);
    binary64_laws::lemma_scaled(1, 6, 1074);
    binary64_laws::lemma_scaled(1, 7, 1074);
    binary64_approx::over_step(Binary64::whole(3), Binary64::whole(4), 1075, 1076, 1076, 1076);
    binary64_approx::over_step(
        Binary64::whole(95),
        Binary64::whole(100),
        1080,
        1081,
        1080,
        1081,
    );
    let au: nat = binary64_laws::units(low);
    let bu: nat = binary64_laws::units(high);
    assert(au * (4 * one) == (au * 4) * one && bu * (100 * one) == (bu * 100) * one)
        by (nonlinear_arith);
    binary64_approx::lemma_approx_cancel(au * 4, 3 * one, 1, one);
    binary64_approx::lemma_approx_cancel(bu * 100, 95 * one, 1, one);
    let three: nat = 3 * one;
    let ninety: nat = 95 * one;
    assert(three * (0x4_0000_0000_0000 - 1) == three * 0x3_ffff_ffff_ffff && three
        * (0x4_0000_0000_0000 + 1) == three * 0x4_0000_0000_0001);
    assert(ninety * (0x4_0000_0000_0000 - 1) == ninety * 0x3_ffff_ffff_ffff && ninety
        * (0x4_0000_0000_0000 + 1) == ninety * 0x4_0000_0000_0001);
    binary64_laws::units_keep_order(low, high);
    binary64_size::bounds_keep_order(x, x, low, high);
    let part: Binary64 = x.clamp(low, high);
    let pu: nat = binary64_laws::units(part);
    binary64_laws::units_keep_order(low, part);
    binary64_laws::units_keep_order(part, high);
    binary64_laws::units_keep_order(x, low);
    binary64_laws::units_keep_order(x, high);
    // The window that is left.
    let w: nat = p.congestion_window as nat;
    binary64_laws::whole_numbers_are_exact(p.congestion_window as u64);
    let wide: Binary64 = Binary64::whole(p.congestion_window as u64);
    binary64_laws::lemma_scaled(1, 22, 1074);
    binary64_laws::lemma_scaled(1, 1073, 1);
    assert(one <= w * one <= 4_194_304 * one) by (nonlinear_arith)
        requires
            1 <= w <= 4_194_304,
            one > 0,
    ;
    binary64_approx::times_step(wide, part, 1074, 1096, 1073, 1075);
    let y: Binary64 = wide.times(part);
    let yu: nat = binary64_laws::units(y);
    let wp: nat = w * pu;
    assert((w * one) * pu == wp * one) by (nonlinear_arith)
        requires
            wp == w * pu,
    ;
    binary64_approx::lemma_approx_cancel(yu, wp, 1, one);
    assert(wp * (0x4_0000_0000_0000 + 1) == wp * 0x4_0000_0000_0001);
    assert(wp * (0x4_0000_0000_0000 - 1) == wp * 0x3_ffff_ffff_ffff);
    binary64_laws::lemma_scaled(1, 32, 1074);
    lemma_pow2_strictly_increases(1098, 1106);
    assert(yu < 0x1_0000_0000 * one);
    lemma_floor(y);
    let n: nat = y.floor_u64() as nat;
    let no: nat = n * one;
    assert((n + 1) * one == no + one) by (nonlinear_arith)
        requires
            no == n * one,
    ;
    lemma_left_window(n, w, one, yu, wp, au, bu, pu);
    let r: nat = p.delay_window() as nat;
    assert(p.rtt_or(0) == d);
    assert(n <= w);
    assert(r == if n < 20_480 {
        20_480
    } else {
        n
    });
    assert(n + 1 >= 20_550);
    assert(r == n);
    if 76 * du <= 100 * t <= 94 * du {
        let xd: nat = xu * du;
        let so: nat = su * one;
        let to: nat = t * one;
        assert(so * (0x4_0000_0000_0000 + 1) == so * 0x4_0000_0000_0001);
        assert(so * (0x4_0000_0000_0000 - 1) == so * 0x3_ffff_ffff_ffff);
        assert(so * 0x4_0000_0000_0000 <= to * 0x4_0000_0000_0001 && to * 0x3_ffff_ffff_ffff <= so
            * 0x4_0000_0000_0000) by (nonlinear_arith)
            requires
                so == su * one,
                to == t * one,
                su * 0x4_0000_0000_0000 <= t * 0x4_0000_0000_0001,
                t * 0x3_ffff_ffff_ffff <= su * 0x4_0000_0000_0000,
        ;
        let dn: nat = du * one;
        assert(76 * dn <= 100 * to <= 94 * dn) by (nonlinear_arith)
            requires
                76 * du <= 100 * t <= 94 * du,
                dn == du * one,
                to == t * one,
        ;
        let ad: nat = au * du;
        let bd: nat = bu * du;
        assert((ad * 4) * 0x4_0000_0000_0000 <= (3 * dn) * 0x4_0000_0000_0001) by (nonlinear_arith)
            requires
                ad == au * du,
                dn == du * one,
                (au * 4) * 0x4_0000_0000_0000 <= (3 * one) * 0x4_0000_0000_0001,
        ;
        assert((95 * dn) * 0x3_ffff_ffff_ffff <= (bd * 100) * 0x4_0000_0000_0000)
            by (nonlinear_arith)
            requires
                bd == bu * du,
                dn == du * one,
                (95 * one) * 0x3_ffff_ffff_ffff <= (bu * 100) * 0x4_0000_0000_0000,
        ;
        assert(dn > 0) by (nonlinear_arith)
            requires
                dn == du * one,
                du > 0,
                one > 0,
        ;
        assert(xd * 0x4_0000_0000_0000 <= to * 0x4_0000_0000_0003);
        assert(to * 0x3_ffff_ffff_fffd <= xd * 0x4_0000_0000_0000);
        assert(ad < xd);
        assert(xd < bd);
        assert(au < xu && xu < bu) by (nonlinear_arith)
            requires
                ad == au * du,
                bd == bu * du,
                xd == xu * du,
                ad < xd,
                xd < bd,
        ;
        assert(part == x);
        // y is w * x, and x is t over d.
        let wt: nat = w * t;
        let yd: nat = yu * du;
        let wxd: nat = wp * du;
        assert(wxd == w * xd) by (nonlinear_arith)
            requires
                wxd == wp * du,
                wp == w * xu,
                xd == xu * du,
        ;
        let wto: nat = wt * one;
        assert(wxd * 0x4_0000_0000_0000 <= wto * 0x4_0000_0000_0003 && wto * 0x3_ffff_ffff_fffd
            <= wxd * 0x4_0000_0000_0000) by {
            assert(xd * 0x4_0000_0000_0000 <= to * 0x4_0000_0000_0003);
            assert(to * 0x3_ffff_ffff_fffd <= xd * 0x4_0000_0000_0000);
            assert(wxd * 0x4_0000_0000_0000 <= wto * 0x4_0000_0000_0003 && wto
                * 0x3_ffff_ffff_fffd <= wxd * 0x4_0000_0000_0000) by (nonlinear_arith)
                requires
                    wxd == w * xd,
                    wto == wt * one,
                    wt == w * t,
                    to == t * one,
                    xd * 0x4_0000_0000_0000 <= to * 0x4_0000_0000_0003,
                    to * 0x3_ffff_ffff_fffd <= xd * 0x4_0000_0000_0000,
            ;
        }
        assert(yd * 0x4_0000_0000_0000 <= wxd * 0x4_0000_0000_0001 && wxd * 0x3_ffff_ffff_ffff
            <= yd * 0x4_0000_0000_0000) by (nonlinear_arith)
            requires
                yd == yu * du,
                wxd == wp * du,
                yu * 0x4_0000_0000_0000 <= wp * 0x4_0000_0000_0001,
                wp * 0x3_ffff_ffff_ffff <= yu * 0x4_0000_0000_0000,
        ;
        let nd: nat = n * du;
        assert(nd * one <= yd && yd <= (nd + du) * one) by (nonlinear_arith)
            requires
                yd == yu * du,
                nd == n * du,
                no == n * one,
                no <= yu,
                yu < no + one,
        ;
        let ndo: nat = nd * one;
        let nedo: nat = (nd + du) * one;
        assert(ndo * 1_000_000 <= wto * 1_000_001);
        assert(wto * 1_000_000 <= nedo * 1_000_001);
        assert(nd * 1_000_000 <= wt * 1_000_001) by (nonlinear_arith)
            requires
                ndo == nd * one,
                wto == wt * one,
                ndo * 1_000_000 <= wto * 1_000_001,
                one > 0,
        ;
        assert(wt * 1_000_000 <= (nd + du) * 1_000_001) by (nonlinear_arith)
            requires
                nedo == (nd + du) * one,
                wto == wt * one,
                wto * 1_000_000 <= nedo * 1_000_001,
                one > 0,
        ;
        assert((n + 1) * du == nd + du) by (nonlinear_arith)
            requires
                nd == n * du,
        ;
    }
}

/// What a part between three quarters and 95 hundredths leaves of a window.
proof fn lemma_left_window(
    n: nat,
    w: nat,
    one: nat,
    yu: nat,
    wp: nat,
    au: nat,
    bu: nat,
    pu: nat,
)
    requires
        one > 0,
        n * one <= yu < (n + 1) * one,
        yu * 0x4_0000_0000_0000 <= wp * 0x4_0000_0000_0001,
        wp * 0x3_ffff_ffff_ffff <= yu * 0x4_0000_0000_0000,
        wp == w * pu,
        au <= pu <= bu,
        (3 * one) * 0x3_ffff_ffff_ffff <= (au * 4) * 0x4_0000_0000_0000,
        (bu * 100) * 0x4_0000_0000_0000 <= (95 * one) * 0x4_0000_0000_0001,
        w <= 4_194_304,
    ensures
        4 * (n + 1) >= 3 * w,
        100 * n <= 95 * w + 1,
        n <= w,
{
    let wo: nat = w * one;
    let no: nat = n * one;
    assert((n + 1) * one == no + one) by (nonlinear_arith)
        requires
            no == n * one,
    ;
    assert((3 * wo) * 0x3_ffff_ffff_ffff <= (wp * 4) * 0x4_0000_0000_0000) by (nonlinear_arith)
        requires
            wo == w * one,
            wp == w * pu,
            au <= pu,
            (3 * one) * 0x3_ffff_ffff_ffff <= (au * 4) * 0x4_0000_0000_0000,
            w >= 0,
    ;
    assert((wp * 100) * 0x4_0000_0000_0000 <= (95 * wo) * 0x4_0000_0000_0001) by (nonlinear_arith)
        requires
            wo == w * one,
            wp == w * pu,
            pu <= bu,
            (bu * 100) * 0x4_0000_0000_0000 <= (95 * one) * 0x4_0000_0000_0001,
            w >= 0,
    ;
    assert(wo <= 4_194_304 * one) by (nonlinear_arith)
        requires
            wo == w * one,
            w <= 4_194_304,
            one > 0,
    ;
    assert(4 * (no + one) + one > 3 * wo);
    assert(100 * no < 95 * wo + one);
    assert(4 * (n + 1) + 1 > 3 * w) by (nonlinear_arith)
        requires
            4 * (no + one) + one > 3 * wo,
            no == n * one,
            wo == w * one,
            one > 0,
    ;
    assert(100 * n < 95 * w + 1) by (nonlinear_arith)
        requires
            100 * no < 95 * wo + one,
            no == n * one,
            wo == w * one,
            one > 0,
    ;
}

// ---- Windows ---------------------------------------------------------------------------

/// Milliseconds for which a measurement of a path is taken: two round trips.
proof fn lemma_two_trips(rtt: Binary64, low: u64, high: u64)
    requires
        binary64_laws::plain(rtt),
        binary64_laws::units(rtt) < pow2(2000),
        0 < low <= high <= 1_000,
    ensures
        ({
            let one: nat = binary64_laws::one();
            let n: u64 = Binary64::whole(2).times(rtt).clamp(
                Binary64::whole(low),
                Binary64::whole(high),
            ).floor_u64();
            let trips: nat = binary64_size::bounded(
                2 * binary64_laws::units(rtt),
                low as nat * one,
                high as nat * one,
            );
            &&& low <= n <= high
            &&& n * one * 1_000_000 <= trips * 1_000_001
            &&& trips * 1_000_000 <= (n + 1) * one * 1_000_001
        }),
{
    let one: nat = binary64_laws::one();
    lemma_pow2_pos(1074);
    lemma2_to64();
    binary64_laws::lemma_scaled(1, 2000, 2);
    lemma_pow2_strictly_increases(2002, 2098);
    binary64_laws::a_multiple_is_near(2, rtt);
    let s: Binary64 = Binary64::whole(2).times(rtt);
    binary64_size::a_bound_is_kept(s, low, high);
    let c: Binary64 = s.clamp(Binary64::whole(low), Binary64::whole(high));
    assert(low as nat * one == low * one && high as nat * one == high * one);
    assert(low * one <= high * one) by (nonlinear_arith)
        requires
            low <= high,
            one > 0,
    ;
    let u: nat = binary64_laws::units(c);
    assert(u < 0x1_0000_0000 * one) by (nonlinear_arith)
        requires
            u <= high * one,
            high <= 1_000,
            one > 0,
    ;
    lemma_floor(c);
    let n: nat = c.floor_u64() as nat;
    assert(n * one <= u < (n + 1) * one);
    assert(n >= low) by (nonlinear_arith)
        requires
            u < (n + 1) * one,
            u >= low * one,
            one > 0,
    ;
    assert(n <= high) by (nonlinear_arith)
        requires
            n * one <= u,
            u <= high * one,
            one > 0,
    ;
    let no: nat = n * one;
    assert((n + 1) * one == no + one) by (nonlinear_arith)
        requires
            no == n * one,
    ;
}

/// The rate of a path is taken over two round trips, from a twentieth of a
/// second to half a second, to within the millisecond and a small part.
pub proof fn rates_are_taken_over_two_round_trips(p: Path)
    requires
        p.rtt_ms is Some,
        binary64_laws::plain(p.rtt_ms->0),
        binary64_laws::units(p.rtt_ms->0) < pow2(2000),
    ensures
        ({
            let one: nat = binary64_laws::one();
            let trips: nat = binary64_size::bounded(
                2 * binary64_laws::units(p.rtt_ms->0),
                50 * one,
                500 * one,
            );
            &&& 50 <= p.rate_window() <= 500
            &&& p.rate_window() * one * 1_000_000 <= trips * 1_000_001
            &&& trips * 1_000_000 <= (p.rate_window() + 1) * one * 1_000_001
        }),
{
    lemma_two_trips(p.rtt_ms->0, 50, 500);
}

/// A window that is half in use counts as used for two round trips more, from a
/// fiftieth of a second to a whole one; a use that is noted lasts for all
/// acknowledgements of that time. Otherwise nothing is noted.
pub proof fn use_of_the_window_is_remembered(p: Path, now: u64, later: u64)
    requires
        p.rtt_ms is Some,
        binary64_laws::plain(p.rtt_ms->0),
        binary64_laws::units(p.rtt_ms->0) < pow2(2000),
        now <= later,
        now + 1_000 <= u64::MAX,
    ensures
        !p.half_used() ==> p.capacity_noted(now) == p,
        p.half_used() && later <= now + 20 ==> p.capacity_noted(now).capacity_used_until is Some
            && later <= p.capacity_noted(now).capacity_used_until->0,
        p.half_used() && later > now + 1_000 ==> p.capacity_noted(now).capacity_used_until->0
            < later,
        p.half_used() ==> ({
            let one: nat = binary64_laws::one();
            let trips: nat = binary64_size::bounded(
                2 * binary64_laws::units(p.rtt_ms->0),
                20 * one,
                1_000 * one,
            );
            let n: int = p.capacity_noted(now).capacity_used_until->0 - now;
            &&& n * one * 1_000_000 <= trips * 1_000_001
            &&& trips * 1_000_000 <= (n + 1) * one * 1_000_001
        }),
{
    reveal(Path::capacity_noted);
    lemma_two_trips(p.rtt_ms->0, 20, 1_000);
}

} // verus!
