//! What advice goes by: the burden of a path, and what it does to its share of
//! conversations and to where work begins.
use crate::binary64;
use crate::binary64::{Binary64, HIDDEN, INFINITY_BITS};
use crate::binary64_laws;
use crate::binary64_size;
use crate::bond::Policy;
use crate::brain;
use crate::brain::{Direction, Observation, PathReportView, ReportView};
use crate::placement;
use vstd::arithmetic::div_mod::*;
use vstd::arithmetic::power2::*;
use vstd::prelude::*;

verus! {

/// Whether what is reported of a path are quantities: nothing that is a number
/// is negative.
pub open spec fn told(p: PathReportView) -> bool {
    &&& p.rtt_ms is Some && p.rtt_ms->0.finite() ==> binary64_laws::plain(p.rtt_ms->0)
    &&& p.jitter_ms.finite() ==> binary64_laws::plain(p.jitter_ms)
    &&& p.probe_failure_ratio.finite() ==> binary64_laws::plain(p.probe_failure_ratio)
}

/// The delay of a path: from one millisecond to ten seconds, and one second
/// where none was measured.
pub open spec fn delay_part(p: PathReportView) -> nat {
    let one: nat = binary64_laws::one();
    if p.rtt_ms is Some && p.rtt_ms->0.finite() {
        binary64_size::bounded(binary64_laws::units(p.rtt_ms->0), one, 10_000 * one)
    } else {
        1_000 * one
    }
}

/// The jitter of a path, up to one second.
pub open spec fn jitter_part(p: PathReportView) -> nat {
    if p.jitter_ms.finite() {
        binary64_size::bounded(
            binary64_laws::units(p.jitter_ms),
            0,
            1_000 * binary64_laws::one(),
        )
    } else {
        0
    }
}

/// The share of probes that failed, up to all.
pub open spec fn failure_part(p: PathReportView) -> nat {
    if p.probe_failure_ratio.finite() {
        binary64_size::bounded(
            binary64_laws::units(p.probe_failure_ratio),
            0,
            binary64_laws::one(),
        )
    } else {
        0
    }
}

/// What a path is to a conversation, in milliseconds: its delay, four times its
/// jitter, and half a second for failures all the time.
pub open spec fn burden(p: PathReportView) -> nat {
    delay_part(p) + 4 * jitter_part(p) + 500 * failure_part(p)
}

spec fn calm(p: PathReportView) -> Binary64 {
    let rtt: Binary64 = match p.rtt_ms {
        Some(rtt) => rtt,
        None => Binary64::whole(1_000),
    };
    brain::finite_or(rtt, Binary64::whole(1_000)).clamp(
        Binary64::whole(1),
        Binary64::whole(10_000),
    ).plus(
        Binary64::whole(4).times(
            brain::finite_or(p.jitter_ms, Binary64::whole(0)).clamp(
                Binary64::whole(0),
                Binary64::whole(1_000),
            ),
        ),
    )
}

spec fn failing(p: PathReportView) -> Binary64 {
    Binary64::whole(500).times(
        brain::finite_or(p.probe_failure_ratio, Binary64::whole(0)).clamp(
            Binary64::whole(0),
            Binary64::whole(1),
        ),
    )
}

proof fn lemma_scale()
    ensures
        20_000 * binary64_laws::one() < pow2(1090),
        8 * pow2(1090) < binary64_laws::top(),
        binary64_laws::one() > 0,
{
    lemma2_to64();
    lemma_pow2_pos(1074);
    binary64_laws::lemma_scaled(1, 16, 1074);
    binary64_laws::lemma_scaled(1, 3, 1090);
    lemma_pow2_strictly_increases(1093, 2098);
}

proof fn lemma_calm(p: PathReportView)
    requires
        told(p),
    ensures
        binary64_laws::plain(calm(p)),
        calm(p) == binary64::rounded(false, delay_part(p) + 4 * jitter_part(p), -1074, false),
        binary64_laws::near(
            binary64_laws::units(calm(p)),
            delay_part(p) + 4 * jitter_part(p),
        ),
{
    lemma_scale();
    let one: nat = binary64_laws::one();
    binary64_laws::whole_numbers_are_exact(1_000);
    binary64_laws::whole_numbers_are_exact(0);
    let rtt: Binary64 = match p.rtt_ms {
        Some(rtt) => rtt,
        None => Binary64::whole(1_000),
    };
    let d: Binary64 = brain::finite_or(rtt, Binary64::whole(1_000));
    let j: Binary64 = brain::finite_or(p.jitter_ms, Binary64::whole(0));
    binary64_size::a_bound_is_kept(d, 1, 10_000);
    binary64_size::a_bound_is_kept(j, 0, 1_000);
    assert(0 * one == 0 && 1 * one == one);
    let x: Binary64 = d.clamp(Binary64::whole(1), Binary64::whole(10_000));
    let y: Binary64 = j.clamp(Binary64::whole(0), Binary64::whole(1_000));
    assert(binary64_laws::units(x) == delay_part(p));
    assert(binary64_laws::units(y) == jitter_part(p));
    binary64_laws::four_times_is_exact(y);
    binary64_laws::a_sum_is_rounded(x, Binary64::whole(4).times(y));
    binary64_laws::a_sum_is_near(x, Binary64::whole(4).times(y));
}

proof fn lemma_failing(p: PathReportView)
    requires
        told(p),
    ensures
        binary64_laws::plain(failing(p)),
        binary64_laws::near(binary64_laws::units(failing(p)), 500 * failure_part(p)),
        failing(p) == binary64::rounded(false, 500 * failure_part(p), -1074, false),
        failure_part(p) <= binary64_laws::one(),
{
    lemma_scale();
    let one: nat = binary64_laws::one();
    binary64_laws::whole_numbers_are_exact(0);
    let f: Binary64 = brain::finite_or(p.probe_failure_ratio, Binary64::whole(0));
    binary64_size::a_bound_is_kept(f, 0, 1);
    assert(0 * one == 0 && 1 * one == one);
    let x: Binary64 = f.clamp(Binary64::whole(0), Binary64::whole(1));
    assert(binary64_laws::units(x) == failure_part(p));
    binary64_laws::a_multiple_is_near(500, x);
    binary64_laws::a_multiple_is_rounded(500, x);
}

/// What a path costs a conversation is its burden, to within a small part.
proof fn lemma_cost(p: PathReportView)
    requires
        told(p),
    ensures
        ({
            let c: Binary64 = brain::spec_realtime_cost(p);
            let u: nat = binary64_laws::units(c);
            let b: nat = burden(p);
            &&& binary64_laws::plain(c)
            &&& u * 0x4_0000_0000_0000 <= b * 0x4_0000_0000_0003
            &&& b * 0x3_ffff_ffff_fffd <= u * 0x4_0000_0000_0000
            &&& binary64_laws::one() <= b <= 14_500 * binary64_laws::one()
            &&& failure_part(p) == 0 ==> c == calm(p)
            &&& c == calm(p).plus(failing(p))
        }),
{
    lemma_scale();
    lemma_calm(p);
    lemma_failing(p);
    let c: Binary64 = brain::spec_realtime_cost(p);
    assert(c == calm(p).plus(failing(p)));
    let x: nat = binary64_laws::units(calm(p));
    let y: nat = binary64_laws::units(failing(p));
    binary64_laws::a_sum_is_near(calm(p), failing(p));
    binary64_laws::a_sum_is_rounded(calm(p), failing(p));
    let u: nat = binary64_laws::units(c);
    let b: nat = burden(p);
    let s: nat = delay_part(p) + 4 * jitter_part(p);
    let f: nat = 500 * failure_part(p);
    assert(b == s + f);
    assert((x + y) * 0x4_0000_0000_0000 <= b * 0x4_0000_0000_0001);
    assert(b * 0x3_ffff_ffff_ffff <= (x + y) * 0x4_0000_0000_0000);
    assert(u * 0x4_0000_0000_0000 <= b * 0x4_0000_0000_0003);
    assert(b * 0x3_ffff_ffff_fffd <= u * 0x4_0000_0000_0000);
    if failure_part(p) == 0 {
        assert(500 * failure_part(p) == 0);
        assert(y == 0);
        binary64_laws::values_round_to_themselves(calm(p));
    }
}

/// A path of clearly more burden costs a conversation more. Without failures a
/// path of more delay and jitter never costs less. And no part costs less for
/// being more.
pub proof fn burden_is_what_costs(p: PathReportView, q: PathReportView)
    requires
        told(p),
        told(q),
    ensures
        binary64_size::clearly_less(burden(p), burden(q)) ==> brain::spec_realtime_cost(p).bits
            < brain::spec_realtime_cost(q).bits,
        failure_part(p) == 0 && failure_part(q) == 0 && burden(p) <= burden(q)
            ==> brain::spec_realtime_cost(p).bits <= brain::spec_realtime_cost(q).bits,
        delay_part(p) + 4 * jitter_part(p) <= delay_part(q) + 4 * jitter_part(q) && failure_part(p)
            <= failure_part(q) ==> brain::spec_realtime_cost(p).bits
            <= brain::spec_realtime_cost(q).bits,
        brain::spec_realtime_cost(p).bits < INFINITY_BITS,
{
    lemma_cost(p);
    lemma_cost(q);
    lemma_scale();
    let c: Binary64 = brain::spec_realtime_cost(p);
    let d: Binary64 = brain::spec_realtime_cost(q);
    let x: nat = binary64_laws::units(c);
    let y: nat = binary64_laws::units(d);
    binary64_laws::units_keep_order(c, d);
    if binary64_size::clearly_less(burden(p), burden(q)) {
        assert(x < y);
    }
    lemma_calm(p);
    lemma_calm(q);
    lemma_failing(p);
    lemma_failing(q);
    let s: nat = delay_part(p) + 4 * jitter_part(p);
    let t: nat = delay_part(q) + 4 * jitter_part(q);
    if s <= t {
        binary64_laws::rounding_keeps_order(s, false, t, false, -1074);
        if failure_part(p) <= failure_part(q) {
            binary64_laws::rounding_keeps_order(
                500 * failure_part(p),
                false,
                500 * failure_part(q),
                false,
                -1074,
            );
            binary64_laws::sums_keep_order(calm(p), failing(p), calm(q), failing(q));
        }
    }
}

/// Raising the jitter of a path raises its cost, up to a second of jitter, and
/// so does raising its delay, up to ten seconds, and its failures. A fiftieth of
/// a millisecond more tells, and so does one failure more in five thousand.
pub proof fn more_of_anything_costs_more(p: PathReportView, q: PathReportView)
    requires
        told(p),
        told(q),
        p.jitter_ms.finite(),
        q.jitter_ms.finite(),
        p.rtt_ms is Some && p.rtt_ms->0.finite(),
        q.rtt_ms is Some && q.rtt_ms->0.finite(),
        p.probe_failure_ratio.finite(),
        q.probe_failure_ratio.finite(),
        binary64_laws::units(p.jitter_ms) <= binary64_laws::units(q.jitter_ms) <= 1_000
            * binary64_laws::one(),
        binary64_laws::one() <= binary64_laws::units(p.rtt_ms->0) <= binary64_laws::units(
            q.rtt_ms->0,
        ) <= 10_000 * binary64_laws::one(),
        binary64_laws::units(p.probe_failure_ratio) <= binary64_laws::units(
            q.probe_failure_ratio,
        ) <= binary64_laws::one(),
    ensures
        brain::spec_realtime_cost(p).bits <= brain::spec_realtime_cost(q).bits,
        binary64_laws::one() <= 50 * (binary64_laws::units(q.jitter_ms) - binary64_laws::units(
            p.jitter_ms,
        )) ==> brain::spec_realtime_cost(p).bits < brain::spec_realtime_cost(q).bits,
        binary64_laws::one() <= 50 * (binary64_laws::units(q.rtt_ms->0) - binary64_laws::units(
            p.rtt_ms->0,
        )) ==> brain::spec_realtime_cost(p).bits < brain::spec_realtime_cost(q).bits,
        binary64_laws::one() <= 5_000 * (binary64_laws::units(q.probe_failure_ratio)
            - binary64_laws::units(p.probe_failure_ratio)) ==> brain::spec_realtime_cost(p).bits
            < brain::spec_realtime_cost(q).bits,
{
    lemma_scale();
    lemma_cost(p);
    lemma_cost(q);
    burden_is_what_costs(p, q);
}

// ---- Conversations -----------------------------------------------------------------

/// A path that may get work: it is healthy, and to save data it is not metered
/// while a healthy one is not.
pub open spec fn may_work(report: ReportView, i: int) -> bool {
    &&& 0 <= i < report.paths.len()
    &&& report.paths[i].healthy
    &&& report.policy == Policy::DataSaver && report.paths[i].metered ==> forall|k: int|
        0 <= k < report.paths.len() && (#[trigger] report.paths[k]).healthy
            ==> report.paths[k].metered
}

/// Whether the delay of a path is known and within the cutoff of 75
/// milliseconds.
pub open spec fn near_enough(p: PathReportView) -> bool {
    &&& p.rtt_ms is Some
    &&& binary64_laws::plain(p.rtt_ms->0)
    &&& 0 < binary64_laws::units(p.rtt_ms->0) < 75 * binary64_laws::one()
}

pub proof fn lemma_may_work(report: ReportView, i: int)
    requires
        0 <= i < report.paths.len(),
    ensures
        report.eligible(i) == may_work(report, i),
{
    if report.has_unmetered() {
        let k: int = choose|k: int|
            0 <= k < report.paths.len() && (#[trigger] report.paths[k]).healthy
                && !report.paths[k].metered;
        assert(report.paths[k].healthy && !report.paths[k].metered);
    }
}

proof fn lemma_near_enough(report: ReportView, i: int)
    requires
        0 <= i < report.paths.len(),
        report.paths[i].rtt_ms is Some ==> binary64_laws::plain(report.paths[i].rtt_ms->0),
    ensures
        report.is_fast(i) == near_enough(report.paths[i]),
{
    reveal(binary64::spec_lt);
    binary64_laws::whole_numbers_are_exact(0);
    binary64_laws::whole_numbers_are_exact(75);
    let one: nat = binary64_laws::one();
    lemma_pow2_pos(1074);
    assert(0 * one == 0);
    if report.paths[i].rtt_ms is Some {
        let rtt: Binary64 = report.paths[i].rtt_ms->0;
        binary64_laws::units_keep_order(Binary64::whole(0), rtt);
        binary64_laws::units_keep_order(rtt, Binary64::whole(75));
    }
}

proof fn lemma_share(p: PathReportView)
    requires
        told(p),
    ensures
        ({
            let x: Binary64 = Binary64::whole(640).over(brain::spec_realtime_cost(p));
            let u: nat = binary64_laws::units(x);
            let one: nat = binary64_laws::one();
            &&& binary64_laws::plain(x)
            &&& u < 2_000 * one
            &&& binary64_laws::near(
                u * binary64_laws::units(brain::spec_realtime_cost(p)),
                (640 * one) * one,
            )
            &&& brain::small_whole(x) == binary64_size::bounded(
                (2 * u + one) / (2 * one),
                1,
                64,
            )
        }),
{
    lemma_cost(p);
    lemma_scale();
    binary64_laws::whole_numbers_are_exact(640);
    let c: Binary64 = brain::spec_realtime_cost(p);
    let one: nat = binary64_laws::one();
    let v: nat = binary64_laws::units(c);
    lemma2_to64();
    assert(v <= 20_000 * one && one <= 2 * v);
    let w: nat = 640 * one;
    assert(v <= w * pow2(1022) && w < v * pow2(1000)) by {
        binary64::lemma_pow2_monotone(64, 1022);
        binary64::lemma_pow2_monotone(64, 1000);
        binary64::lemma_pow2_values();
        assert(v <= w * pow2(1022)) by (nonlinear_arith)
            requires
                v <= 20_000 * one,
                w == 640 * one,
                pow2(1022) >= 0x1_0000_0000_0000_0000,
                one > 0,
        ;
        assert(w < v * pow2(1000)) by (nonlinear_arith)
            requires
                one <= 2 * v,
                w == 640 * one,
                pow2(1000) >= 0x1_0000_0000_0000_0000,
                one > 0,
        ;
    }
    binary64_laws::a_quotient_is_near(Binary64::whole(640), c);
    let x: Binary64 = Binary64::whole(640).over(c);
    let u: nat = binary64_laws::units(x);
    let uv: nat = u * v;
    let oo: nat = one * one;
    assert(w * one == 640 * oo) by (nonlinear_arith)
        requires
            w == 640 * one,
            oo == one * one,
    ;
    assert(u < 2_000 * one) by (nonlinear_arith)
        requires
            uv == u * v,
            uv * 0x4_0000_0000_0000 <= (640 * oo) * 0x4_0000_0000_0001,
            oo == one * one,
            one <= 2 * v,
            one > 0,
    ;
    assert(u < HIDDEN * one) by (nonlinear_arith)
        requires
            u < 2_000 * one,
            one > 0,
    ;
    binary64_size::a_nearest_bound_is_kept(x, 1, 64);
}

/// A path that takes part in conversations has a share of 640 over its burden
/// in milliseconds, to the nearest whole number, from 1 to 64.
pub proof fn a_share_is_by_burden(report: ReportView, i: int)
    requires
        may_work(report, i),
        told(report.paths[i]),
        near_enough(report.paths[i]),
    ensures
        1 <= report.realtime_weight(i) <= 64,
        report.realtime_weight(i) > 1 ==> (2 * report.realtime_weight(i) - 1) * burden(
            report.paths[i],
        ) * 1_000_000 <= 1_280 * binary64_laws::one() * 1_000_001,
        report.realtime_weight(i) < 64 ==> 1_280 * binary64_laws::one() * 1_000_000 <= (2
            * report.realtime_weight(i) + 1) * burden(report.paths[i]) * 1_000_001,
{
    let p: PathReportView = report.paths[i];
    lemma_may_work(report, i);
    lemma_near_enough(report, i);
    assert(report.eligible(i) && report.is_fast(i));
    assert(report.has_fast());
    lemma_share(p);
    lemma_cost(p);
    lemma_scale();
    let one: nat = binary64_laws::one();
    let c: nat = binary64_laws::units(brain::spec_realtime_cost(p));
    let u: nat = binary64_laws::units(Binary64::whole(640).over(brain::spec_realtime_cost(p)));
    let n: int = ((2 * u + one) / (2 * one)) as int;
    lemma_fundamental_div_mod((2 * u + one) as int, (2 * one) as int);
    lemma_mod_bound((2 * u + one) as int, (2 * one) as int);
    assert((2 * one) * n == 2 * (one * n)) by (nonlinear_arith);
    let w: int = report.realtime_weight(i) as int;
    let b: nat = burden(p);
    let uc: nat = u * c;
    let oo: nat = one * one;
    assert((640 * one) * one == 640 * oo) by (nonlinear_arith)
        requires
            oo == one * one,
    ;
    let on: int = one * n;
    assert(2 * on <= 2 * u + one < 2 * on + 2 * one);
    if w > 1 {
        assert(w <= n);
        assert((2 * w - 1) * one <= 2 * u) by (nonlinear_arith)
            requires
                w <= n,
                on == one * n,
                2 * on <= 2 * u + one,
                one > 0,
        ;
        let k: int = 2 * w - 1;
        assert(k * c * one <= 2 * uc) by (nonlinear_arith)
            requires
                k * one <= 2 * u,
                uc == u * c,
                c >= 0,
        ;
        let kc: int = k * c;
        assert((kc * one) * 0x4_0000_0000_0000 <= (1_280 * oo) * 0x4_0000_0000_0001);
        assert(kc * 0x4_0000_0000_0000 <= (1_280 * one) * 0x4_0000_0000_0001) by (nonlinear_arith)
            requires
                (kc * one) * 0x4_0000_0000_0000 <= (1_280 * oo) * 0x4_0000_0000_0001,
                oo == one * one,
                one > 0,
        ;
        let kb: int = k * b;
        assert(kb * 0x3_ffff_ffff_fffd <= kc * 0x4_0000_0000_0000) by (nonlinear_arith)
            requires
                kb == k * b,
                kc == k * c,
                b * 0x3_ffff_ffff_fffd <= c * 0x4_0000_0000_0000,
                k >= 0,
        ;
        assert(kb * 1_000_000 <= 1_280 * one * 1_000_001);
    }
    if w < 64 {
        assert(w >= n);
        assert(2 * u <= (2 * w + 1) * one) by (nonlinear_arith)
            requires
                w >= n,
                on == one * n,
                2 * u + one < 2 * on + 2 * one,
                one > 0,
        ;
        let k: int = 2 * w + 1;
        assert(2 * uc <= k * c * one) by (nonlinear_arith)
            requires
                2 * u <= k * one,
                uc == u * c,
                c >= 0,
        ;
        let kc: int = k * c;
        assert((1_280 * oo) * 0x3_ffff_ffff_ffff <= (kc * one) * 0x4_0000_0000_0000);
        assert((1_280 * one) * 0x3_ffff_ffff_ffff <= kc * 0x4_0000_0000_0000) by (nonlinear_arith)
            requires
                (1_280 * oo) * 0x3_ffff_ffff_ffff <= (kc * one) * 0x4_0000_0000_0000,
                oo == one * one,
                one > 0,
        ;
        let kb: int = k * b;
        assert(kc * 0x4_0000_0000_0000 <= kb * 0x4_0000_0000_0003) by (nonlinear_arith)
            requires
                kb == k * b,
                kc == k * c,
                c * 0x4_0000_0000_0000 <= b * 0x4_0000_0000_0003,
                k >= 0,
        ;
        assert(1_280 * one * 1_000_000 <= kb * 1_000_001);
    }
}

/// Of two paths that may work, within the cutoff and without failures, the one
/// with the greater delay and jitter never has the greater share of
/// conversations, four times the jitter counting. The same holds of any two
/// where one carries clearly more.
pub proof fn heavier_paths_get_no_greater_share(report: ReportView, i: int, k: int)
    requires
        may_work(report, i),
        may_work(report, k),
        told(report.paths[i]),
        told(report.paths[k]),
        near_enough(report.paths[i]),
        near_enough(report.paths[k]),
        binary64_size::clearly_less(burden(report.paths[i]), burden(report.paths[k])) || (
        failure_part(report.paths[i]) == 0 && failure_part(report.paths[k]) == 0 && burden(
            report.paths[i],
        ) <= burden(report.paths[k])),
    ensures
        report.realtime_weight(k) <= report.realtime_weight(i),
{
    let p: PathReportView = report.paths[i];
    let q: PathReportView = report.paths[k];
    lemma_may_work(report, i);
    lemma_may_work(report, k);
    lemma_near_enough(report, i);
    lemma_near_enough(report, k);
    assert(report.eligible(i) && report.is_fast(i));
    assert(report.has_fast());
    burden_is_what_costs(p, q);
    lemma_share(p);
    lemma_share(q);
    lemma_cost(p);
    lemma_cost(q);
    lemma_scale();
    binary64_laws::whole_numbers_are_exact(640);
    let c: Binary64 = brain::spec_realtime_cost(p);
    let d: Binary64 = brain::spec_realtime_cost(q);
    let w: Binary64 = Binary64::whole(640);
    binary64_laws::units_keep_order(c, d);
    let uw: nat = binary64_laws::units(w);
    let uc: nat = binary64_laws::units(c);
    let ud: nat = binary64_laws::units(d);
    assert(uw * uc <= uw * ud) by (nonlinear_arith)
        requires
            uc <= ud,
            uw >= 0,
    ;
    binary64_laws::quotients_keep_order(w, d, w, c);
    binary64_laws::units_keep_order(w.over(d), w.over(c));
    let one: nat = binary64_laws::one();
    lemma_div_is_ordered(
        (2 * binary64_laws::units(w.over(d)) + one) as int,
        (2 * binary64_laws::units(w.over(c)) + one) as int,
        (2 * one) as int,
    );
}

/// A path beyond the cutoff takes no part in conversations while another that
/// may work is within it.
pub proof fn conversations_stay_within_the_cutoff(report: ReportView, i: int, k: int)
    requires
        may_work(report, i),
        told(report.paths[i]),
        near_enough(report.paths[i]),
        0 <= k < report.paths.len(),
        report.paths[k].rtt_ms is Some ==> binary64_laws::plain(report.paths[k].rtt_ms->0),
        !near_enough(report.paths[k]) || !may_work(report, k),
    ensures
        report.realtime_weight(k) == 0,
        report.realtime_weight(i) > 0,
{
    lemma_may_work(report, i);
    lemma_may_work(report, k);
    lemma_near_enough(report, i);
    lemma_near_enough(report, k);
    assert(report.eligible(i) && report.is_fast(i));
    assert(report.has_fast());
    lemma_share(report.paths[i]);
}

// ---- Where work begins ---------------------------------------------------------------

/// Whether the delay of a path was measured.
pub open spec fn measured(p: PathReportView) -> bool {
    p.rtt_ms is Some && binary64_laws::plain(p.rtt_ms->0) && binary64_laws::units(p.rtt_ms->0) > 0
}

/// While no path that may work is proven, work begins on one whose delay was
/// measured and than which no other such path carries clearly less, whenever
/// there is one; and its burden counts delay, four times the jitter, and
/// failures.
pub proof fn work_begins_on_the_least_burden(
    previous: Option<Seq<char>>,
    report: ReportView,
    seen: Seq<Observation>,
    direction: Direction,
    k: int,
)
    requires
        report.paths.len() <= usize::MAX,
        seen.len() == report.paths.len(),
        forall|i: int| may_work(report, i) ==> !brain::is_proven(#[trigger] seen[i], direction),
        forall|i: int| 0 <= i < report.paths.len() ==> told(#[trigger] report.paths[i]),
        may_work(report, k),
        measured(report.paths[k]),
    ensures
        ({
            let first: Option<usize> = brain::champion(previous, report, seen, direction);
            &&& first is Some
            &&& may_work(report, first->0 as int)
            &&& measured(report.paths[first->0 as int])
            &&& !binary64_size::clearly_less(
                burden(report.paths[k]),
                burden(report.paths[first->0 as int]),
            )
        }),
{
    let n: nat = report.paths.len();
    let all: Seq<usize> = placement::up_to(n);
    let list: Seq<usize> = report.eligible_list();
    placement::lemma_kept(all, report.eligible_flags(), n);
    let proven: Seq<usize> = placement::kept(list, brain::proven_flags(seen, direction));
    placement::lemma_kept(list, brain::proven_flags(seen, direction), n);
    if proven.len() > 0 {
        let x: usize = proven[0];
        assert(proven.contains(x));
        assert(list.contains(x));
        assert(x < n);
        assert(report.eligible_flags()[x as int]);
        lemma_may_work(report, x as int);
        assert(brain::proven_flags(seen, direction)[x as int]);
        assert(!brain::is_proven(seen[x as int], direction));
    }
    assert(brain::champion(previous, report, seen, direction) == report.beginner());
    let timed: Seq<usize> = placement::kept(list, report.timed_flags());
    placement::lemma_kept(list, report.timed_flags(), n);
    placement::lemma_cheapest(timed, report.costs(), n);
    lemma_measured(report, k);
    lemma_may_work(report, k);
    assert(all[k] == k as usize);
    assert(all.contains(k as usize));
    assert(report.eligible_flags()[k]);
    assert(list.contains(k as usize));
    assert(timed.contains(k as usize));
    let m: int = choose|m: int| 0 <= m < timed.len() && timed[m] == k as usize;
    assert(timed[m] == k as usize);
    let b: usize = report.beginner()->0;
    assert(timed.contains(b));
    assert(list.contains(b));
    assert(report.eligible_flags()[b as int]);
    assert(report.timed_flags()[b as int]);
    lemma_may_work(report, b as int);
    assert(told(report.paths[b as int]) && told(report.paths[k]));
    lemma_measured(report, b as int);
    burden_is_what_costs(report.paths[k], report.paths[b as int]);
    burden_is_what_costs(report.paths[b as int], report.paths[k]);
    assert(report.costs()[b as int].key() <= report.costs()[k].key());
}

proof fn lemma_measured(report: ReportView, i: int)
    requires
        0 <= i < report.paths.len(),
        told(report.paths[i]),
    ensures
        report.timed_flags()[i] == measured(report.paths[i]),
{
    reveal(binary64::spec_lt);
    binary64_laws::whole_numbers_are_exact(0);
    let one: nat = binary64_laws::one();
    assert(0 * one == 0);
    if report.paths[i].rtt_ms is Some && report.paths[i].rtt_ms->0.finite() {
        binary64_laws::units_keep_order(Binary64::whole(0), report.paths[i].rtt_ms->0);
    }
}

} // verus!
