//! Reports and tests of traffic, in terms of what was counted.
use crate::binary64;
use crate::binary64::Binary64;
use crate::binary64_approx;
use crate::binary64_laws;
use crate::binary64_size;
use crate::brain::PathReportView;
use crate::direct;
use crate::direct::PathView;
use crate::lab;
use crate::link_choice_laws;
use crate::link_laws;
use crate::path_laws;
use crate::route;
use crate::route::Shape;
use crate::runtime;
use vstd::arithmetic::power2::*;
use vstd::prelude::*;

verus! {

// ---- Reports ---------------------------------------------------------------------------

proof fn lemma_fraction(n: u64, d: u64)
    requires
        n <= 0x100_0000_0000,
        1_000 <= d <= 1_000_000,
    ensures
        binary64_laws::plain(Binary64::whole(n).over(Binary64::whole(d))),
        binary64_size::close(
            binary64_laws::units(Binary64::whole(n).over(Binary64::whole(d))) * d as nat,
            n as nat * binary64_laws::one(),
        ),
        n == 0 ==> Binary64::whole(n).over(Binary64::whole(d)).bits == 0,
{
    let one: nat = binary64_laws::one();
    lemma_pow2_pos(1074);
    lemma2_to64();
    lemma2_to64_rest();
    binary64_laws::whole_numbers_are_exact(n);
    binary64_laws::whole_numbers_are_exact(d);
    let x: Binary64 = Binary64::whole(n).over(Binary64::whole(d));
    let u: nat = binary64_laws::units(x);
    binary64_laws::lemma_scaled(1, 40, 1074);
    binary64_laws::lemma_scaled(1, 9, 1074);
    binary64_laws::lemma_scaled(1, 20, 1074);
    let k: nat = d as nat;
    assert(512 * one <= k * one <= 0x10_0000 * one) by (nonlinear_arith)
        requires
            1_000 <= k <= 1_000_000,
            one > 0,
    ;
    if n == 0 {
        reveal(binary64::spec_over);
        assert(0 * one == 0);
        link_laws::lemma_unset(Binary64::whole(0));
        link_laws::lemma_unset(Binary64::whole(d));
        binary64_laws::lemma_parts(x);
        assert(0 * k == 0);
    } else {
        let m: nat = n as nat;
        assert(one <= m * one <= 0x100_0000_0000 * one) by (nonlinear_arith)
            requires
                1 <= m <= 0x100_0000_0000,
                one > 0,
        ;
        binary64_approx::over_step(
            Binary64::whole(n),
            Binary64::whole(d),
            1074,
            1114,
            1083,
            1094,
        );
        assert(u * (k * one) == (u * k) * one) by (nonlinear_arith);
        binary64_approx::lemma_approx_cancel(u * k, m * one, 1, one);
        path_laws::lemma_close(u * k, m * one, 1);
    }
}

/// A report tells delay and jitter in milliseconds and failures as a share, as
/// they were measured in microseconds and parts per million; and no delay where
/// none is known.
pub proof fn reports_tell_what_was_measured(p: PathView, now: u64)
    requires
        p.link.rtt_us <= 0x100_0000_0000,
        p.link.jitter_us <= 0x100_0000_0000,
        p.link.probe_failure_ppm <= 1_000_000,
    ensures
        ({
            let r: PathReportView = runtime::path_report(p, now);
            let one: nat = binary64_laws::one();
            &&& r.rtt_ms is Some <==> p.link.rtt_us > 0
            &&& p.link.rtt_us > 0 ==> binary64_laws::plain(r.rtt_ms->0) && binary64_size::close(
                1_000 * binary64_laws::units(r.rtt_ms->0),
                p.link.rtt_us as nat * one,
            )
            &&& binary64_laws::plain(r.jitter_ms) && binary64_size::close(
                1_000 * binary64_laws::units(r.jitter_ms),
                p.link.jitter_us as nat * one,
            )
            &&& binary64_laws::plain(r.probe_failure_ratio) && binary64_size::close(
                1_000_000 * binary64_laws::units(r.probe_failure_ratio),
                p.link.probe_failure_ppm as nat * one,
            )
            &&& r.name == p.name && r.healthy == p.link.healthy && r.metered == p.link.metered
            &&& r.tcp is Some <==> p.link.tcp_observed
            &&& p.link.tcp_observed ==> r.tcp->0.acknowledged == p.link.acknowledged
                && r.tcp->0.held == p.link.upload_held(now)
            &&& r.received_bytes == p.link.received && r.incarnation == p.link.incarnation
        }),
{
    lemma_fraction(p.link.rtt_us, 1_000);
    lemma_fraction(p.link.jitter_us, 1_000);
    lemma_fraction(p.link.probe_failure_ppm, 1_000_000);
    let r: PathReportView = runtime::path_report(p, now);
    assert(binary64_laws::units(r.jitter_ms) * 1_000nat == 1_000 * binary64_laws::units(
        r.jitter_ms,
    ));
}

// ---- Congestion ------------------------------------------------------------------------

/// An upload is stuck exactly when 64 KiB were written and 16 KiB wait, and
/// either its delay grew by 50 milliseconds, or nothing moved for half a second,
/// or 4 KiB and a twentieth of what was acknowledged and repeated was repeated.
pub proof fn stuck_uploads_are_told(
    written: u64,
    queued: u64,
    excess_rtt_us: u64,
    acknowledged: u64,
    retransmitted: u64,
    stalled_us: u64,
)
    requires
        acknowledged <= 0x100_0000_0000,
        retransmitted <= 0x100_0000_0000,
    ensures
        direct::spec_upload_congested(
            written,
            queued,
            excess_rtt_us,
            acknowledged,
            retransmitted,
            stalled_us,
        ) <==> written >= 65_536 && queued >= 16_384 && (excess_rtt_us >= 50_000 || stalled_us
            >= 500_000 || (retransmitted >= 4_096 && 20 * retransmitted >= acknowledged
            + retransmitted)),
{
    reveal(binary64::spec_lt);
    let one: nat = binary64_laws::one();
    lemma_pow2_pos(1074);
    let all: u64 = (acknowledged + retransmitted) as u64;
    if retransmitted >= 4_096 {
        binary64_laws::whole_numbers_are_exact(retransmitted);
        binary64_laws::whole_numbers_are_exact(all);
        binary64_laws::whole_numbers_are_exact(5);
        binary64_laws::whole_numbers_are_exact(100);
        let a: Binary64 = Binary64::whole(retransmitted);
        let b: Binary64 = Binary64::whole(all);
        let c: Binary64 = Binary64::whole(5);
        let d: Binary64 = Binary64::whole(100);
        let r: nat = retransmitted as nat;
        let n: nat = all as nat;
        assert(n * one > 0 && r * one > 0) by (nonlinear_arith)
            requires
                n >= 4_096,
                r >= 4_096,
                one > 0,
        ;
        if 20 * r >= n {
            assert((5 * one) * (n * one) <= (r * one) * (100 * one)) by (nonlinear_arith)
                requires
                    20 * r >= n,
                    one > 0,
            ;
            binary64_laws::quotients_keep_order(c, d, a, b);
            binary64_laws::quotients_keep_order(a, b, a, b);
        } else {
            let oo: nat = one * one;
            assert((r * one) * (100 * one) * 0x4000_0000_0001 <= (5 * one) * (n * one)
                * 0x4000_0000_0000) by (nonlinear_arith)
                requires
                    20 * r + 1 <= n,
                    r <= 0x100_0000_0000,
                    one > 0,
            ;
            lemma_plain_range(r, n);
            lemma_plain_range(5, 100);
            binary64_size::clear_quotients_differ(a, b, c, d);
        }
    }
}

proof fn lemma_plain_range(m: nat, n: nat)
    requires
        1 <= m <= 0x200_0000_0000,
        1 <= n <= 0x200_0000_0000,
    ensures
        n * binary64_laws::one() > 0,
        n * binary64_laws::one() <= (m * binary64_laws::one()) * pow2(1022),
        m * binary64_laws::one() < (n * binary64_laws::one()) * pow2(1000),
{
    let one: nat = binary64_laws::one();
    lemma_pow2_pos(1074);
    binary64::lemma_pow2_values();
    binary64::lemma_pow2_monotone(64, 1022);
    binary64::lemma_pow2_monotone(64, 1000);
    assert(n * one > 0) by (nonlinear_arith)
        requires
            n >= 1,
            one > 0,
    ;
    assert(n * one <= (m * one) * pow2(1022)) by (nonlinear_arith)
        requires
            n <= 0x200_0000_0000,
            m >= 1,
            pow2(1022) >= 0x1_0000_0000_0000_0000,
            one > 0,
    ;
    assert(m * one < (n * one) * pow2(1000)) by (nonlinear_arith)
        requires
            m <= 0x200_0000_0000,
            n >= 1,
            pow2(1000) >= 0x1_0000_0000_0000_0000,
            one > 0,
    ;
}

// ---- Shape of traffic --------------------------------------------------------------------

proof fn lemma_twice(x: Binary64)
    requires
        binary64_laws::plain(x),
        2 * binary64_laws::units(x) < binary64_laws::top(),
    ensures
        binary64_laws::plain(x.times(Binary64::whole(2))),
        binary64_laws::units(x.times(Binary64::whole(2))) == 2 * binary64_laws::units(x),
{
    let one: nat = binary64_laws::one();
    binary64_laws::whole_numbers_are_exact(2);
    binary64_laws::a_product_is_rounded(x, Binary64::whole(2));
    let u: nat = binary64_laws::units(x);
    assert(u * (2 * one) == (2 * u) * one) by (nonlinear_arith);
    binary64_laws::rounding_ignores_zeros(2 * u, -1074, 1074);
    binary64_laws::lemma_parts(x);
    lemma2_to64();
    let t: nat = (x.exponent() + 1074) as nat;
    binary64_laws::lemma_scaled(x.significand(), t, 1);
    binary64_laws::short_numbers_are_exact(x.significand(), t + 1);
}

/// Traffic has the shape of the direction that carries a megabit in a second or
/// more, and more than twice the other; else it is balanced.
pub proof fn shape_is_the_stronger_direction(up: Binary64, down: Binary64)
    requires
        binary64_laws::plain(up),
        binary64_laws::plain(down),
        2 * binary64_laws::units(up) < binary64_laws::top(),
        2 * binary64_laws::units(down) < binary64_laws::top(),
    ensures
        ({
            let u: nat = binary64_laws::units(up);
            let d: nat = binary64_laws::units(down);
            let mega: nat = 1_000_000 * binary64_laws::one();
            &&& route::traffic_shape(up, down) == Shape::Download <==> d >= mega && 2 * u < d
            &&& route::traffic_shape(up, down) == Shape::Upload <==> u >= mega && 2 * d < u
        }),
{
    reveal(binary64::spec_lt);
    let one: nat = binary64_laws::one();
    lemma_pow2_pos(1074);
    binary64_laws::whole_numbers_are_exact(1_000_000);
    let mega: Binary64 = Binary64::whole(1_000_000);
    lemma_twice(up);
    lemma_twice(down);
    let x: Binary64 = up.times(Binary64::whole(2));
    let y: Binary64 = down.times(Binary64::whole(2));
    binary64_laws::units_keep_order(down, mega);
    binary64_laws::units_keep_order(up, mega);
    binary64_laws::units_keep_order(x, down);
    binary64_laws::units_keep_order(y, up);
    link_laws::lemma_unset(up);
    link_laws::lemma_unset(down);
    link_laws::lemma_unset(x);
    link_laws::lemma_unset(y);
    link_laws::lemma_unset(mega);
}

/// The rate between two readings of a counter is the bits that came by the
/// seconds that went, and nothing where the counter fell.
pub proof fn rates_are_bits_by_seconds(before: u64, after: u64, seconds: Binary64)
    requires
        after <= before || after - before <= 0x100_0000_0000,
        link_laws::quantity(seconds),
        binary64_laws::units(seconds) >= binary64_laws::one(),
    ensures
        binary64_laws::plain(route::bit_rate(before, after, seconds)),
        after <= before ==> route::bit_rate(before, after, seconds).bits == 0,
        after > before ==> binary64_size::close(
            binary64_laws::units(route::bit_rate(before, after, seconds)) * binary64_laws::units(
                seconds,
            ),
            (8 * (after - before) as nat * binary64_laws::one()) * binary64_laws::one(),
        ),
{
    reveal(binary64::spec_lt);
    let one: nat = binary64_laws::one();
    lemma_pow2_pos(1074);
    lemma2_to64();
    lemma2_to64_rest();
    let n: u64 = after.saturating_sub(before);
    binary64_laws::whole_numbers_are_exact(n);
    binary64_laws::whole_numbers_are_exact(8);
    binary64_laws::whole_numbers_are_exact(1);
    // The least time is below a second.
    let least: Binary64 = Binary64 { bits: route::LEAST_SECONDS };
    assert(least.bits < Binary64::whole(1).bits) by {
        lemma_one_bits();
    }
    assert(1 * one == one);
    binary64_laws::units_keep_order(Binary64::whole(1), seconds);
    assert(seconds.max(least) == seconds);
    let a: Binary64 = Binary64::whole(n).times(Binary64::whole(8));
    let r: Binary64 = route::bit_rate(before, after, seconds);
    assert(r == a.over(seconds));
    let m: nat = n as nat;
    let s: nat = binary64_laws::units(seconds);
    if n == 0 {
        binary64_laws::a_product_is_rounded(Binary64::whole(0), Binary64::whole(8));
        assert(0 * one == 0 && 0 * (8 * one) == 0);
        binary64_laws::lemma_round_none(-2148, false);
        reveal(binary64::spec_over);
        link_laws::lemma_unset(seconds);
        binary64_laws::lemma_parts(r);
    } else {
        binary64_laws::lemma_scaled(1, 40, 1074);
        binary64_laws::lemma_scaled(1, 3, 1074);
        assert(one <= m * one <= 0x100_0000_0000 * one) by (nonlinear_arith)
            requires
                1 <= m <= 0x100_0000_0000,
                one > 0,
        ;
        binary64_approx::times_step(
            Binary64::whole(n),
            Binary64::whole(8),
            1074,
            1114,
            1077,
            1077,
        );
        let au: nat = binary64_laws::units(a);
        let w: nat = 8 * m * one;
        assert((m * one) * (8 * one) == w * one) by (nonlinear_arith)
            requires
                w == 8 * m * one,
        ;
        binary64_approx::lemma_approx_cancel(au, w, 1, one);
        binary64_approx::over_step(a, seconds, 1076, 1118, 1074, 1174);
        let ru: nat = binary64_laws::units(r);
        binary64_approx::lemma_approx_scale(au, w, 1, one);
        binary64_approx::lemma_approx_chain(ru * s, au * one, w * one, 1, 1);
        path_laws::lemma_close(ru * s, w * one, 3);
    }
}

proof fn lemma_one_bits()
    ensures
        Binary64::whole(1).bits == 0x3ff0_0000_0000_0000,
{
    let one: nat = binary64_laws::one();
    let x: Binary64 = Binary64 { bits: 0x3ff0_0000_0000_0000 };
    binary64_laws::whole_numbers_are_exact(1);
    binary64_laws::lemma_parts(x);
    binary64::lemma_pow2_values();
    binary64_laws::lemma_scaled(1, 52, 1022);
    assert(x.bits as int / 0x10_0000_0000_0000 == 1023);
    assert(1 * one == one);
    binary64_laws::units_keep_order(x, Binary64::whole(1));
}

// ---- Samples ---------------------------------------------------------------------------

/// The exact sum of the first `n` samples.
pub open spec fn exact_sum(samples: Seq<Binary64>, n: nat) -> nat
    decreases n,
{
    if n == 0 {
        0
    } else {
        exact_sum(samples, (n - 1) as nat) + binary64_laws::units(samples[n - 1])
    }
}

proof fn lemma_sum(samples: Seq<Binary64>, n: nat)
    requires
        n <= samples.len(),
        n <= 1_000,
        forall|i: int| 0 <= i < samples.len() ==> link_laws::quantity(#[trigger] samples[i]),
    ensures
        binary64_laws::plain(lab::sum_of(samples, n)),
        binary64_approx::approx(
            binary64_laws::units(lab::sum_of(samples, n)),
            exact_sum(samples, n),
            2 * n,
        ),
        exact_sum(samples, n) <= n * pow2(1174),
        forall|i: int| 0 <= i < n ==> binary64_laws::units(#[trigger] samples[i]) <= exact_sum(
            samples,
            n,
        ),
    decreases n,
{
    let one: nat = binary64_laws::one();
    lemma_pow2_pos(1174);
    if n == 0 {
        binary64_laws::whole_numbers_are_exact(0);
        assert(0 * one == 0);
        assert(0 * pow2(1174) == 0);
    } else {
        let k: nat = (n - 1) as nat;
        lemma_sum(samples, k);
        let x: Binary64 = samples[n - 1];
        assert(link_laws::quantity(x));
        let s: Binary64 = lab::sum_of(samples, k);
        let su: nat = binary64_laws::units(s);
        let e: nat = exact_sum(samples, k);
        let u: nat = binary64_laws::units(x);
        assert(n * pow2(1174) == k * pow2(1174) + pow2(1174)) by (nonlinear_arith)
            requires
                n == k + 1,
        ;
        lemma2_to64();
        binary64_laws::lemma_scaled(1, 1174, 12);
        lemma_pow2_strictly_increases(1186, 2098);
        assert(k * pow2(1174) <= 1_000 * pow2(1174)) by (nonlinear_arith)
            requires
                k <= 1_000,
                pow2(1174) > 0,
        ;
        binary64_approx::lemma_approx_more(su, e, 2 * k, 2_000);
        assert(e * (0x4_0000_0000_0000 + 2_000) == e * 0x4_0000_0000_07d0);
        assert(su <= 2 * e);
        binary64_laws::a_sum_is_near(s, x);
        let t: nat = binary64_laws::units(s.plus(x));
        binary64_approx::lemma_approx_near(t, su + u);
        link_choice_laws::lemma_same(u, 2 * k);
        path_laws::lemma_approx_sum(su, e, u, u, 2 * k);
        binary64_approx::lemma_approx_chain(t, su + u, e + u, 1, 2 * k);
        assert(binary64_approx::approx(t, e + u, 2 * n));
    }
}

/// The least and the greatest of some samples are samples and bound all of
/// them, and the mean is their sum over their number, up to a thousand of them.
pub proof fn samples_are_summed_up(samples: Seq<Binary64>, i: int)
    requires
        0 <= i < samples.len() <= 1_000,
        forall|k: int| 0 <= k < samples.len() ==> link_laws::quantity(#[trigger] samples[k]),
        exact_sum(samples, samples.len()) >= pow2(974),
    ensures
        ({
            let n: nat = samples.len();
            let least: Binary64 = lab::least_of(samples, n);
            let greatest: Binary64 = lab::greatest_of(samples, n);
            let mean: Binary64 = lab::sum_of(samples, n).over(Binary64::whole(n as u64));
            &&& samples.contains(least) && least.bits <= samples[i].bits
            &&& samples.contains(greatest) && samples[i].bits <= greatest.bits
            &&& binary64_laws::plain(mean)
            &&& binary64_size::close(
                binary64_laws::units(mean) * n,
                exact_sum(samples, n),
            )
        }),
{
    let n: nat = samples.len();
    lemma_bounds(samples, n);
    lemma_sum(samples, n);
    let one: nat = binary64_laws::one();
    lemma_pow2_pos(1074);
    lemma2_to64();
    let s: Binary64 = lab::sum_of(samples, n);
    let su: nat = binary64_laws::units(s);
    let e: nat = exact_sum(samples, n);
    binary64_approx::lemma_approx_more(su, e, 2 * n, 2_000);
    assert(e * (0x4_0000_0000_0000 + 2_000) == e * 0x4_0000_0000_07d0);
    assert(e * (0x4_0000_0000_0000 - 2_000) == e * 0x3_ffff_ffff_f830);
    binary64_laws::whole_numbers_are_exact(n as u64);
    binary64_laws::lemma_scaled(1, 10, 1074);
    binary64_laws::lemma_scaled(1, 973, 1);
    binary64_laws::lemma_scaled(1, 1174, 11);
    lemma_pow2_pos(1174);
    assert(n * pow2(1174) <= 1_000 * pow2(1174)) by (nonlinear_arith)
        requires
            n <= 1_000,
            pow2(1174) > 0,
    ;
    assert(one <= n * one <= 1_024 * one) by (nonlinear_arith)
        requires
            1 <= n <= 1_000,
            one > 0,
    ;
    assert(pow2(973) <= su <= pow2(1185));
    binary64_approx::over_step(s, Binary64::whole(n as u64), 973, 1185, 1074, 1084);
    let m: nat = binary64_laws::units(s.over(Binary64::whole(n as u64)));
    assert(m * (n * one) == (m * n) * one) by (nonlinear_arith);
    binary64_approx::lemma_approx_cancel(m * n, su, 1, one);
    binary64_approx::lemma_approx_chain(m * n, su, e, 1, 2_000);
    path_laws::lemma_close(m * n, e, 2_002);
}

proof fn lemma_bounds(samples: Seq<Binary64>, n: nat)
    requires
        1 <= n <= samples.len(),
        forall|k: int| 0 <= k < samples.len() ==> link_laws::quantity(#[trigger] samples[k]),
    ensures
        samples.contains(lab::least_of(samples, n)),
        samples.contains(lab::greatest_of(samples, n)),
        forall|i: int|
            0 <= i < n ==> lab::least_of(samples, n).bits <= (#[trigger] samples[i]).bits
                <= lab::greatest_of(samples, n).bits,
    decreases n,
{
    reveal(binary64::spec_lt);
    if n == 1 {
        assert(samples[0] == lab::least_of(samples, n));
    } else {
        let k: nat = (n - 1) as nat;
        lemma_bounds(samples, k);
        let a: int = choose|a: int|
            0 <= a < samples.len() && samples[a] == lab::least_of(samples, k);
        let b: int = choose|b: int|
            0 <= b < samples.len() && samples[b] == lab::greatest_of(samples, k);
        assert(link_laws::quantity(samples[a]) && link_laws::quantity(samples[b])
            && link_laws::quantity(samples[n - 1]));
    }
}

} // verus!
