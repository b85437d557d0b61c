//! What the controller learns of a path, who becomes champion by it, and what
//! share of work a path gets.
use crate::binary64;
use crate::binary64::{Binary64, HIDDEN, INFINITY_BITS};
use crate::binary64_approx;
use crate::binary64_laws;
use crate::binary64_size;
use crate::brain;
use crate::brain::{Decay, Direction, Observation, PathReportView, ReportView};
use crate::brain_laws;
use crate::link_laws;
use crate::path_laws;
use crate::placement;
use vstd::arithmetic::div_mod::*;
use vstd::arithmetic::power2::*;
use vstd::prelude::*;

verus! {

// ---- Learning --------------------------------------------------------------------------

/// Whether a sample continues the last one of the same path, by what it says:
/// nothing fell, and a tenth of a second to ten seconds went by.
pub open spec fn goes_on(o: Observation, p: PathReportView, sample_ms: u64) -> bool {
    &&& p.incarnation == o.incarnation
    &&& (match p.tcp {
        Some(tcp) => tcp.acknowledged,
        None => 0,
    }) >= o.acknowledged
    &&& p.received_bytes >= o.received
    &&& o.sample_ms + 100 <= sample_ms <= o.sample_ms + 10_000
}

proof fn lemma_bit_rate(bytes: u64, elapsed: u64)
    requires
        bytes <= 0x100_0000_0000,
        100 <= elapsed <= 10_000,
    ensures
        binary64_laws::plain(brain::bit_rate(bytes, elapsed)),
        binary64_size::close(
            binary64_laws::units(brain::bit_rate(bytes, elapsed)) * elapsed as nat,
            bytes as nat * 8000 * binary64_laws::one(),
        ),
        bytes == 0 ==> brain::bit_rate(bytes, elapsed).bits == 0,
{
    if bytes == 0 {
        let one: nat = binary64_laws::one();
        lemma_pow2_pos(1074);
        binary64_laws::whole_numbers_are_exact(0);
        binary64_laws::whole_numbers_are_exact(8000);
        binary64_laws::whole_numbers_are_exact(elapsed);
        assert(0 * one == 0);
        let a: Binary64 = Binary64::whole(0).times(Binary64::whole(8000));
        binary64_laws::a_product_is_rounded(Binary64::whole(0), Binary64::whole(8000));
        assert(0 * (8000 * one) == 0);
        binary64_laws::lemma_round_none(-2148, false);
        reveal(binary64::spec_over);
        link_laws::lemma_unset(Binary64::whole(elapsed));
        assert(elapsed * one > 0) by (nonlinear_arith)
            requires
                elapsed >= 100,
                one > 0,
        ;
        let r: Binary64 = brain::bit_rate(bytes, elapsed);
        assert(r == a.over(Binary64::whole(elapsed)));
        binary64_laws::lemma_parts(r);
        assert(0 * elapsed as nat == 0 && 0 * 8000 * one == 0);
    } else {
        path_laws::lemma_rate_sample(bytes, elapsed);
        path_laws::lemma_close(
            binary64_laws::units(brain::bit_rate(bytes, elapsed)) * elapsed as nat,
            bytes as nat * 8000 * binary64_laws::one(),
            4,
        );
    }
}

/// What came in since the last sample is the present rate of download, bits by
/// the time it took. The rate that is learned is never below it, nor above both
/// it and the one before; and the peak is never below the rate. Sixty-four
/// kilobytes or more count as a sample and as learned.
pub proof fn downloads_are_learned(
    o: Observation,
    p: PathReportView,
    sample_ms: u64,
    decay: Decay,
)
    requires
        goes_on(o, p, sample_ms),
        p.received_bytes - o.received <= 0x100_0000_0000,
        binary64_laws::plain(o.download_bps),
        binary64_laws::plain(o.download_peak_bps),
        binary64_laws::plain(decay.idle) && binary64_laws::units(decay.idle)
            <= binary64_laws::one(),
        binary64_laws::plain(decay.loaded) && binary64_laws::units(decay.loaded)
            <= binary64_laws::one(),
    ensures
        ({
            let next: Observation = brain::observed(o, p, sample_ms, decay);
            let came: nat = (p.received_bytes - o.received) as nat;
            let took: nat = (sample_ms - o.sample_ms) as nat;
            &&& binary64_laws::plain(next.current_download_bps)
            &&& binary64_size::close(
                binary64_laws::units(next.current_download_bps) * took,
                came * 8000 * binary64_laws::one(),
            )
            &&& next.current_download_bps.bits <= next.download_bps.bits < INFINITY_BITS
            &&& next.download_bps.bits <= o.download_bps.bits || next.download_bps
                == next.current_download_bps
            &&& next.download_bps.bits <= next.download_peak_bps.bits < INFINITY_BITS
            &&& next.download_peak_bps.bits <= o.download_peak_bps.bits || next.download_peak_bps
                == next.download_bps
            &&& came >= 65_536 && o.download_samples < u32::MAX && o.download_learned + came
                <= u64::MAX ==> next.download_samples == o.download_samples + 1
                && next.download_learned == o.download_learned + came
            &&& came < 65_536 ==> next.download_samples == o.download_samples
                && next.download_learned == o.download_learned
            &&& next.received == p.received_bytes && next.sample_ms == sample_ms
                && next.incarnation == p.incarnation
        }),
{
    reveal(brain::observed);
    let came: u64 = (p.received_bytes - o.received) as u64;
    let took: u64 = (sample_ms - o.sample_ms) as u64;
    assert(brain::continues(o, p, sample_ms));
    lemma_bit_rate(came, took);
    lemma_faded(o.download_bps, decay.idle);
    lemma_faded(o.download_bps, decay.loaded);
    lemma_faded(o.download_peak_bps, decay.idle);
    reveal(binary64::spec_lt);
    let now: Binary64 = brain::bit_rate(came, took);
    let d: Binary64 = if came >= 65_536 {
        decay.loaded
    } else {
        decay.idle
    };
    let rate: Binary64 = o.download_bps.times(d).max(now);
    assert(rate.bits >= now.bits);
    let next: Observation = brain::observed(o, p, sample_ms, decay);
    assert(next.download_bps == rate);
}

proof fn lemma_faded(x: Binary64, d: Binary64)
    requires
        binary64_laws::plain(x),
        binary64_laws::plain(d),
        binary64_laws::units(d) <= binary64_laws::one(),
    ensures
        x.times(d).bits <= x.bits,
{
    let one: nat = binary64_laws::one();
    let u: nat = binary64_laws::units(x);
    binary64_laws::a_product_is_rounded(x, d);
    assert(u * binary64_laws::units(d) <= u * one) by (nonlinear_arith)
        requires
            binary64_laws::units(d) <= one,
            u >= 0,
    ;
    binary64_laws::rounding_keeps_order(
        u * binary64_laws::units(d),
        false,
        u * one,
        false,
        -2148,
    );
    binary64_laws::rounding_ignores_zeros(u, -1074, 1074);
    binary64_laws::values_round_to_themselves(x);
}

/// What was acknowledged since the last sample is the present rate of upload,
/// where TCP was observed before and is now. A path that is held is known by
/// that alone; else the rate that is learned is never below it.
pub proof fn uploads_are_learned(
    o: Observation,
    p: PathReportView,
    sample_ms: u64,
    decay: Decay,
)
    requires
        goes_on(o, p, sample_ms),
        p.tcp is Some,
        p.tcp->0.acknowledged - o.acknowledged <= 0x100_0000_0000,
        binary64_laws::plain(o.upload_bps),
        binary64_laws::plain(o.upload_peak_bps),
        binary64_laws::plain(decay.idle) && binary64_laws::units(decay.idle)
            <= binary64_laws::one(),
        binary64_laws::plain(decay.loaded) && binary64_laws::units(decay.loaded)
            <= binary64_laws::one(),
    ensures
        ({
            let next: Observation = brain::observed(o, p, sample_ms, decay);
            let went: nat = (p.tcp->0.acknowledged - o.acknowledged) as nat;
            let took: nat = (sample_ms - o.sample_ms) as nat;
            &&& o.tcp_observed ==> binary64_laws::plain(next.current_upload_bps)
                && binary64_size::close(
                binary64_laws::units(next.current_upload_bps) * took,
                went * 8000 * binary64_laws::one(),
            )
            &&& !o.tcp_observed ==> next.current_upload_bps.bits == 0 && next.upload_bps.bits == 0
            &&& p.tcp->0.held ==> next.upload_bps == next.current_upload_bps
                && next.upload_peak_bps == next.current_upload_bps
            &&& next.current_upload_bps.bits <= next.upload_bps.bits < INFINITY_BITS
            &&& next.upload_bps.bits <= o.upload_bps.bits || next.upload_bps
                == next.current_upload_bps
            &&& next.upload_bps.bits <= next.upload_peak_bps.bits < INFINITY_BITS
            &&& went >= 65_536 && o.upload_samples < u32::MAX && o.upload_learned + went
                <= u64::MAX ==> next.upload_samples == o.upload_samples + 1 && next.upload_learned
                == o.upload_learned + went
            &&& went < 65_536 ==> next.upload_samples == o.upload_samples && next.upload_learned
                == o.upload_learned
            &&& next.acknowledged == p.tcp->0.acknowledged && next.tcp_observed
        }),
{
    reveal(brain::observed);
    let went: u64 = (p.tcp->0.acknowledged - o.acknowledged) as u64;
    let took: u64 = (sample_ms - o.sample_ms) as u64;
    assert(brain::continues(o, p, sample_ms));
    lemma_bit_rate(went, took);
    lemma_bit_rate(0, took);
    lemma_faded(o.upload_bps, decay.idle);
    lemma_faded(o.upload_bps, decay.loaded);
    lemma_faded(o.upload_peak_bps, decay.idle);
    binary64_laws::whole_numbers_are_exact(0);
    let one: nat = binary64_laws::one();
    assert(0 * one == 0) by (nonlinear_arith);
    link_laws::lemma_unset(Binary64::whole(0));
    reveal(binary64::spec_lt);
}

// ---- Champions -------------------------------------------------------------------------

proof fn lemma_strongest(list: Seq<usize>, scores: Seq<Binary64>)
    ensures
        list.len() > 0 ==> brain::strongest(list, scores) is Some,
        match brain::strongest(list, scores) {
            Some(best) => list.contains(best) && forall|i: int|
                0 <= i < list.len() ==> scores[(#[trigger] list[i]) as int].key()
                    <= scores[best as int].key(),
            None => list.len() == 0,
        },
    decreases list.len(),
{
    if list.len() > 0 {
        let rest: Seq<usize> = list.drop_last();
        lemma_strongest(rest, scores);
        let best: usize = brain::strongest(list, scores)->0;
        assert(list[list.len() - 1] == list.last());
        if rest.len() > 0 {
            let old_best: usize = brain::strongest(rest, scores)->0;
            let k: int = choose|k: int| 0 <= k < rest.len() && rest[k] == old_best;
            assert(list[k] == old_best);
        }
        assert forall|i: int| 0 <= i < list.len() implies scores[(
        #[trigger] list[i]) as int].key() <= scores[best as int].key() by {
            if i < list.len() - 1 {
                assert(rest[i] == list[i]);
            }
        }
    }
}

/// Whenever a path that may work is proven, the champion is one that may work,
/// is proven, and whose rate is the greatest of them, or at least no other's
/// exceeds it by 16 percent or more. Without a champion before, it is the one
/// of the greatest rate.
pub proof fn champions_have_the_greatest_rate(
    previous: Option<Seq<char>>,
    report: ReportView,
    seen: Seq<Observation>,
    direction: Direction,
    k: int,
)
    requires
        report.paths.len() <= usize::MAX,
        seen.len() == report.paths.len(),
        forall|i: int|
            0 <= i < seen.len() ==> binary64_laws::plain(
                #[trigger] brain::score(seen[i], direction),
            ) && binary64_laws::units(brain::score(seen[i], direction)) <= pow2(1174),
        brain_laws::may_work(report, k),
        brain::is_proven(seen[k], direction),
    ensures
        ({
            let c: Option<usize> = brain::champion(previous, report, seen, direction);
            &&& c is Some
            &&& brain_laws::may_work(report, c->0 as int)
            &&& brain::is_proven(seen[c->0 as int], direction)
            &&& 100 * binary64_laws::units(brain::score(seen[k], direction)) <= 116
                * binary64_laws::units(brain::score(seen[c->0 as int], direction))
            &&& previous is None ==> binary64_laws::units(brain::score(seen[k], direction))
                <= binary64_laws::units(brain::score(seen[c->0 as int], direction))
        }),
{
    let n: nat = report.paths.len();
    let all: Seq<usize> = placement::up_to(n);
    let list: Seq<usize> = report.eligible_list();
    placement::lemma_kept(all, report.eligible_flags(), n);
    let flags: Seq<bool> = brain::proven_flags(seen, direction);
    let proven: Seq<usize> = placement::kept(list, flags);
    placement::lemma_kept(list, flags, n);
    let scores: Seq<Binary64> = brain::scores_of(seen, direction);
    lemma_strongest(proven, scores);
    brain_laws::lemma_may_work(report, k);
    assert(all[k] == k as usize);
    assert(all.contains(k as usize));
    assert(report.eligible_flags()[k]);
    assert(list.contains(k as usize));
    assert(flags[k]);
    assert(proven.contains(k as usize));
    let at: int = choose|at: int| 0 <= at < proven.len() && proven[at] == k as usize;
    assert(proven[at] == k as usize);
    let best: usize = brain::strongest(proven, scores)->0;
    assert(proven.contains(best));
    assert(list.contains(best));
    assert(best < n);
    assert(flags[best as int]);
    assert(report.eligible_flags()[best as int]);
    brain_laws::lemma_may_work(report, best as int);
    let sk: Binary64 = brain::score(seen[k], direction);
    let sb: Binary64 = brain::score(seen[best as int], direction);
    binary64_laws::units_keep_order(sk, sb);
    assert(scores[k].key() <= scores[best as int].key());
    let c: usize = brain::champion(previous, report, seen, direction)->0;
    if c != best {
        lemma_named(report, list, previous->0, 0);
        assert(list.contains(c));
        assert(c < n);
        assert(report.eligible_flags()[c as int]);
        brain_laws::lemma_may_work(report, c as int);
        let sc: Binary64 = brain::score(seen[c as int], direction);
        reveal(binary64::spec_lt);
        binary64_laws::whole_numbers_are_exact(64_000);
        binary64_laws::units_keep_order(sc, Binary64::whole(64_000));
        lemma_pow2_pos(1074);
        link_laws::lemma_unset(sc);
        link_laws::lemma_unset(Binary64::whole(64_000));
        lemma_margin(sb, sc);
    }
}

proof fn lemma_named(report: ReportView, list: Seq<usize>, name: Seq<char>, i: int)
    requires
        0 <= i <= list.len(),
    ensures
        brain::named_in(report, list, name, i) is Some ==> list.contains(
            brain::named_in(report, list, name, i)->0,
        ),
    decreases list.len() - i,
{
    if i < list.len() && report.paths[list[i] as int].name != name {
        lemma_named(report, list, name, i + 1);
    }
}

proof fn lemma_margin(a: Binary64, b: Binary64)
    requires
        binary64_laws::plain(a),
        binary64_laws::plain(b),
        64_000 * binary64_laws::one() <= binary64_laws::units(b) <= pow2(1174),
        a.lt(b.times(Binary64::ratio(115, 100))),
    ensures
        100 * binary64_laws::units(a) <= 116 * binary64_laws::units(b),
{
    reveal(binary64::spec_lt);
    let one: nat = binary64_laws::one();
    lemma_pow2_pos(1074);
    let r: Binary64 = Binary64::ratio(115, 100);
    binary64_laws::whole_numbers_are_exact(115);
    binary64_laws::whole_numbers_are_exact(100);
    lemma2_to64();
    binary64_laws::lemma_scaled(1, 6, 1074);
    binary64_laws::lemma_scaled(1, 7, 1074);
    binary64_approx::over_step(
        Binary64::whole(115),
        Binary64::whole(100),
        1080,
        1081,
        1080,
        1081,
    );
    let ru: nat = binary64_laws::units(r);
    assert(ru * (100 * one) == (ru * 100) * one) by (nonlinear_arith);
    binary64_approx::lemma_approx_cancel(ru * 100, 115 * one, 1, one);
    let u: nat = binary64_laws::units(b);
    let c: Binary64 = b.times(r);
    let fifteen: nat = 115 * one;
    assert(fifteen * (0x4_0000_0000_0000 + 1) == fifteen * 0x4_0000_0000_0001);
    let m: nat = u * ru;
    binary64_approx::times_step(b, r, 1074, 1174, 1072, 1076);
    let cu: nat = binary64_laws::units(c);
    binary64_laws::units_keep_order(a, c);
    assert(m * (0x4_0000_0000_0000 + 1) == m * 0x4_0000_0000_0001);
    let co: nat = cu * one;
    assert(ru * 1000 <= 1151 * one);
    assert(m * 1000 <= 1151 * (u * one)) by (nonlinear_arith)
        requires
            m == u * ru,
            ru * 1000 <= 1151 * one,
            u >= 0,
    ;
    let uo: nat = u * one;
    assert(co * 100 <= 116 * uo);
    assert(100 * cu <= 116 * u) by (nonlinear_arith)
        requires
            co == cu * one,
            uo == u * one,
            co * 100 <= 116 * uo,
            one > 0,
    ;
}

// ---- Shares ----------------------------------------------------------------------------

/// How reliable a path is, of ten: failures all the time leave two.
pub open spec fn reliable_of_ten(p: PathReportView) -> nat {
    (10 * binary64_laws::one() - 8 * brain_laws::failure_part(p)) as nat
}

proof fn lemma_reliability(p: PathReportView)
    requires
        brain_laws::told(p),
        brain_laws::failure_part(p) == 0 || brain_laws::failure_part(p) >= pow2(974),
    ensures
        binary64_approx::sized(brain::reliability(p), 1070, 1075),
        binary64_approx::approx(
            binary64_laws::units(brain::reliability(p)) * 10,
            reliable_of_ten(p),
            40,
        ),
{
    let one: nat = binary64_laws::one();
    lemma_pow2_pos(1074);
    lemma2_to64();
    binary64_laws::lemma_scaled(1, 1, 1074);
    binary64_laws::lemma_scaled(1, 1070, 4);
    binary64_laws::whole_numbers_are_exact(0);
    binary64_laws::whole_numbers_are_exact(1);
    assert(0 * one == 0 && 1 * one == one);
    let g: Binary64 = brain::finite_or(p.probe_failure_ratio, Binary64::whole(0));
    binary64_size::a_bound_is_kept(g, 0, 1);
    let f: Binary64 = g.clamp(Binary64::whole(0), Binary64::whole(1));
    let fu: nat = binary64_laws::units(f);
    assert(fu == brain_laws::failure_part(p));
    binary64::lemma_pow2_monotone(1074, 1174);
    lemma_eight_tenths(f);
    let e: Binary64 = f.times(Binary64::ratio(8, 10));
    let eu: nat = binary64_laws::units(e);
    assert(eu * 10 * 0x4_0000_0000_0000 <= 8 * fu * 0x4_0000_0000_0003);
    assert(eu <= one);
    lemma_pow2_strictly_increases(1075, 2098);
    binary64_laws::a_difference_is_near(Binary64::whole(1), e);
    let ru: nat = binary64_laws::units(brain::reliability(p));
    let t: nat = reliable_of_ten(p);
    assert(ru * 10 * 0x4_0000_0000_0000 <= t * 0x4_0000_0000_0028);
    assert(t * 0x3_ffff_ffff_ffd8 <= ru * 10 * 0x4_0000_0000_0000);
    assert(t * (0x4_0000_0000_0000 + 40) == t * 0x4_0000_0000_0028);
    assert(t * (0x4_0000_0000_0000 - 40) == t * 0x3_ffff_ffff_ffd8);
}

proof fn lemma_eight_tenths(f: Binary64)
    requires
        link_laws::quantity(f),
    ensures
        ({
            let u: nat = binary64_laws::units(f.times(Binary64::ratio(8, 10)));
            &&& binary64_laws::plain(f.times(Binary64::ratio(8, 10)))
            &&& u * 10 * 0x4_0000_0000_0000 <= 8 * binary64_laws::units(f) * 0x4_0000_0000_0003
            &&& 8 * binary64_laws::units(f) * 0x3_ffff_ffff_fffd <= u * 10 * 0x4_0000_0000_0000
        }),
{
    binary64::lemma_pow2_monotone(900, 974);
    binary64::lemma_pow2_monotone(1174, 1190);
    path_laws::lemma_portion(f, 8, 10);
    let r: Binary64 = Binary64::ratio(8, 10);
    binary64_laws::whole_numbers_are_exact(8);
    binary64_laws::whole_numbers_are_exact(10);
    let one: nat = binary64_laws::one();
    lemma_pow2_pos(1074);
    lemma2_to64();
    binary64_laws::lemma_scaled(1, 3, 1074);
    binary64_laws::lemma_scaled(1, 4, 1074);
    binary64_approx::over_step(Binary64::whole(8), Binary64::whole(10), 1077, 1077, 1077, 1078);
    binary64_laws::a_product_is_rounded(f, r);
    binary64_laws::a_product_is_rounded(r, f);
    assert(binary64_laws::units(f) * binary64_laws::units(r) == binary64_laws::units(r)
        * binary64_laws::units(f)) by (nonlinear_arith);
    let w: nat = 8 * binary64_laws::units(f);
    assert(w * (0x4_0000_0000_0000 + 3) == w * 0x4_0000_0000_0003);
    assert(w * (0x4_0000_0000_0000 - 3) == w * 0x3_ffff_ffff_fffd);
}

/// The champion has the full share of 64. Another path that is proven has its
/// part of the champion's rate out of 64, by how reliable it is, to the nearest
/// whole number; and one that is not proven has the least share.
pub proof fn work_is_shared_by_rate(
    report: ReportView,
    seen: Seq<Observation>,
    champion: usize,
    direction: Direction,
    i: int,
)
    requires
        seen.len() == report.paths.len(),
        champion < report.paths.len(),
        brain_laws::may_work(report, i),
        brain_laws::told(report.paths[i]),
        brain_laws::failure_part(report.paths[i]) == 0 || brain_laws::failure_part(
            report.paths[i],
        ) >= pow2(974),
    ensures
        ({
            let w: int = report.weight(seen, Some(champion), direction, i) as int;
            let same: bool = report.paths[champion as int].name == report.paths[i].name;
            let rate: Binary64 = brain::share_rate(seen[i], direction);
            let most: Binary64 = brain::share_rate(seen[champion as int], direction);
            let r: nat = binary64_laws::units(rate);
            let c: nat = binary64_laws::units(most);
            let one: nat = binary64_laws::one();
            &&& same ==> w == 64
            &&& !same && brain::proof_count(seen[i], direction) < 3 ==> w == 1
            &&& !same && binary64_laws::plain(rate) && r < 64_000 * one ==> w == 1
            &&& !same && brain::proof_count(seen[i], direction) >= 3 && binary64_laws::plain(rate)
                && binary64_laws::plain(most) && 64_000 * one <= r <= c <= pow2(1170) && c <= 64
                * r ==> {
                &&& 1 <= w <= 64
                &&& w > 1 ==> (2 * w - 1) * (10 * c) * one * 1_000_000 <= 2 * ((64 * r)
                    * reliable_of_ten(report.paths[i])) * 1_000_001
                &&& w < 64 ==> 2 * ((64 * r) * reliable_of_ten(report.paths[i])) * 1_000_000 <= (2
                    * w + 1) * (10 * c) * one * 1_000_001
            }
        }),
{
    reveal(binary64::spec_lt);
    let one: nat = binary64_laws::one();
    lemma_pow2_pos(1074);
    brain_laws::lemma_may_work(report, i);
    let p: PathReportView = report.paths[i];
    let rate: Binary64 = brain::share_rate(seen[i], direction);
    let most: Binary64 = brain::share_rate(seen[champion as int], direction);
    let r: nat = binary64_laws::units(rate);
    let c: nat = binary64_laws::units(most);
    binary64_laws::whole_numbers_are_exact(64_000);
    let least: Binary64 = Binary64::whole(64_000);
    if binary64_laws::plain(rate) {
        binary64_laws::units_keep_order(rate, least);
        link_laws::lemma_unset(rate);
        link_laws::lemma_unset(least);
    }
    let same: bool = report.paths[champion as int].name == report.paths[i].name;
    if !same && brain::proof_count(seen[i], direction) >= 3 && binary64_laws::plain(rate)
        && binary64_laws::plain(most) && 64_000 * one <= r <= c <= pow2(1170) && c <= 64 * r {
        binary64_laws::units_keep_order(most, least);
        lemma_reliability(p);
        lemma_part(rate, most, brain::reliability(p), reliable_of_ten(p));
    }
}

/// The part of a rate out of 64, by how reliable it is.
proof fn lemma_part(rate: Binary64, most: Binary64, rel: Binary64, ten: nat)
    requires
        binary64_laws::plain(rate),
        binary64_laws::plain(most),
        64_000 * binary64_laws::one() <= binary64_laws::units(rate) <= binary64_laws::units(most)
            <= pow2(1170),
        binary64_laws::units(most) <= 64 * binary64_laws::units(rate),
        binary64_approx::sized(rel, 1070, 1075),
        binary64_approx::approx(binary64_laws::units(rel) * 10, ten, 40),
    ensures
        ({
            let x: Binary64 = Binary64::whole(64).times(
                rate.over(most).clamp(Binary64::ratio(1, 64), Binary64::whole(1)),
            ).times(rel);
            let w: int = brain::small_whole(x) as int;
            let one: nat = binary64_laws::one();
            let m: nat = (64 * binary64_laws::units(rate)) * ten;
            let c: nat = binary64_laws::units(most);
            &&& 1 <= w <= 64
            &&& w > 1 ==> (2 * w - 1) * (10 * c) * one * 1_000_000 <= 2 * m * 1_000_001
            &&& w < 64 ==> 2 * m * 1_000_000 <= (2 * w + 1) * (10 * c) * one * 1_000_001
        }),
{
    let one: nat = binary64_laws::one();
    lemma_pow2_pos(1074);
    lemma2_to64();
    binary64_laws::lemma_scaled(1, 6, 1074);
    binary64_laws::lemma_scaled(1, 1, 1074);
    let r: nat = binary64_laws::units(rate);
    let c: nat = binary64_laws::units(most);
    binary64_laws::whole_numbers_are_exact(1);
    binary64_laws::whole_numbers_are_exact(64);
    assert(1 * one == one);
    let single: Binary64 = Binary64::whole(1);
    let q: Binary64 = rate.over(most);
    let low: Binary64 = Binary64::ratio(1, 64);
    // Within its bounds as it is.
    assert(low.bits <= q.bits <= single.bits) by {
        assert(one * c <= r * (64 * one)) by (nonlinear_arith)
            requires
                c <= 64 * r,
                one > 0,
        ;
        binary64_laws::quotients_keep_order(single, Binary64::whole(64), rate, most);
        assert(r * one <= one * c) by (nonlinear_arith)
            requires
                r <= c,
                one > 0,
        ;
        binary64_laws::quotients_keep_order(rate, most, single, single);
        binary64_size::over_one_is_itself(single);
    }
    binary64_size::bounds_keep_order(q, q, low, single);
    let qu: nat = binary64_laws::units(q);
    assert(r <= pow2(1170));
    binary64::lemma_pow2_monotone(1074, 1080);
    assert(binary64_size::in_range(rate, most)) by {
        binary64::lemma_pow2_values();
        binary64::lemma_pow2_monotone(64, 1022);
        binary64::lemma_pow2_monotone(64, 1000);
        assert(c <= r * pow2(1022)) by (nonlinear_arith)
            requires
                c <= 64 * r,
                pow2(1022) >= 64,
                r >= 0,
        ;
        assert(r < c * pow2(1000)) by (nonlinear_arith)
            requires
                r <= c,
                c > 0,
                pow2(1000) >= 64,
        ;
    }
    binary64_laws::a_quotient_is_near(rate, most);
    binary64_approx::lemma_approx_near(qu * c, r * one);
    binary64_laws::units_keep_order(q, single);
    let k: Binary64 = Binary64::whole(64).times(q);
    binary64_laws::lemma_scaled(1, 1080, 1);
    lemma_pow2_strictly_increases(1081, 2098);
    binary64_laws::a_multiple_is_near(64, q);
    let ku: nat = binary64_laws::units(k);
    binary64_approx::lemma_approx_near(ku, 64 * qu);
    assert(one <= 2 * (64 * qu)) by {
        let x: nat = qu * c;
        let y: nat = r * one;
        assert(y * 0x3_ffff_ffff_ffff <= x * 0x4_0000_0000_0000);
        assert(one <= 2 * (64 * qu)) by (nonlinear_arith)
            requires
                x == qu * c,
                y == r * one,
                y * 0x3_ffff_ffff_ffff <= x * 0x4_0000_0000_0000,
                c <= 64 * r,
                r > 0,
        ;
    }
    binary64_laws::lemma_scaled(1, 1072, 2);
    binary64_laws::lemma_scaled(1, 1074, 7);
    assert(pow2(1072) * 4 == one);
    assert(pow2(1081) == 128 * one);
    assert(pow2(1072) <= ku <= pow2(1081));
    binary64_approx::times_step(k, rel, 1072, 1081, 1070, 1075);
    let x: Binary64 = k.times(rel);
    let u: nat = binary64_laws::units(x);
    let ru: nat = binary64_laws::units(rel);
    // u * (10 c) is 64 r * ten.
    let m: nat = (64 * r) * ten;
    assert(binary64_approx::approx(u * (10 * c), m, 50)) by {
        binary64_approx::lemma_approx_scale(u * one, ku * ru, 1, 10 * c);
        binary64_approx::lemma_approx_scale(ku, 64 * qu, 1, ru * (10 * c));
        assert((ku * ru) * (10 * c) == ku * (ru * (10 * c))) by (nonlinear_arith);
        binary64_approx::lemma_approx_chain(
            (u * one) * (10 * c),
            ku * (ru * (10 * c)),
            (64 * qu) * (ru * (10 * c)),
            1,
            1,
        );
        binary64_approx::lemma_approx_product(qu * c, r * one, 1, ru * 10, ten, 40);
        binary64_approx::lemma_approx_scale((qu * c) * (ru * 10), (r * one) * ten, 42, 64);
        assert((64 * qu) * (ru * (10 * c)) == 64 * ((qu * c) * (ru * 10))) by (nonlinear_arith);
        binary64_approx::lemma_approx_chain(
            (u * one) * (10 * c),
            64 * ((qu * c) * (ru * 10)),
            64 * ((r * one) * ten),
            3,
            42,
        );
        assert((u * one) * (10 * c) == (u * (10 * c)) * one && 64 * ((r * one) * ten) == m * one)
            by (nonlinear_arith)
            requires
                m == (64 * r) * ten,
        ;
        binary64_approx::lemma_approx_cancel(u * (10 * c), m, 46, one);
        binary64_approx::lemma_approx_more(u * (10 * c), m, 46, 50);
    }
    binary64_laws::lemma_scaled(1, 9, 1074);
    assert(u < HIDDEN * one) by {
        binary64_laws::lemma_scaled(1, 52, 1074);
        binary64::lemma_pow2_values();
        lemma_pow2_strictly_increases(1083, 1126);
    }
    binary64_size::a_nearest_bound_is_kept(x, 1, 64);
    let w: int = brain::small_whole(x) as int;
    let n: int = ((2 * u + one) / (2 * one)) as int;
    lemma_fundamental_div_mod((2 * u + one) as int, (2 * one) as int);
    lemma_mod_bound((2 * u + one) as int, (2 * one) as int);
    let on: int = one * n;
    assert((2 * one) * n == 2 * on) by (nonlinear_arith)
        requires
            on == one * n,
    ;
    let d: nat = 10 * c;
    let ud: nat = u * d;
    assert(m * (0x4_0000_0000_0000 + 50) == m * 0x4_0000_0000_0032);
    assert(m * (0x4_0000_0000_0000 - 50) == m * 0x3_ffff_ffff_ffce);
    if w > 1 {
        assert(w <= n);
        let h: int = (2 * w - 1) * d * one;
        assert(h <= 2 * ud) by (nonlinear_arith)
            requires
                h == (2 * w - 1) * d * one,
                ud == u * d,
                w <= n,
                on == one * n,
                2 * on <= 2 * u + one,
                one > 0,
                d >= 0,
        ;
        assert(h * 1_000_000 <= 2 * m * 1_000_001);
    }
    if w < 64 {
        assert(w >= n);
        let h: int = (2 * w + 1) * d * one;
        assert(2 * ud <= h) by (nonlinear_arith)
            requires
                h == (2 * w + 1) * d * one,
                ud == u * d,
                w >= n,
                on == one * n,
                2 * u + one < 2 * on + 2 * one,
                one > 0,
                d >= 0,
        ;
        assert(2 * m * 1_000_000 <= h * 1_000_001);
    }
}

} // verus!
