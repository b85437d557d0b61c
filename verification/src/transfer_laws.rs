//! Where bulk data goes, and how fast: the time that a path takes for it, in
//! terms of delay, window and measured rate.
use crate::binary64;
use crate::binary64::Binary64;
use crate::binary64_approx;
use crate::binary64_laws;
use crate::binary64_size;
use crate::bond;
use crate::bond::SchedulerView;
use crate::link_choice_laws;
use crate::link_laws;
use crate::path::Path;
use crate::path_laws;
use crate::placement;
use crate::target_laws;
use vstd::arithmetic::power2::*;
use vstd::prelude::*;

verus! {

// ---- Pace ------------------------------------------------------------------------------

/// Delay of a path for its pace: no less than a millisecond.
pub open spec fn round_trip(p: Path) -> nat {
    let d: nat = target_laws::delay_of(p);
    if d < binary64_laws::one() {
        binary64_laws::one()
    } else {
        d
    }
}

/// Whether delay and window are such as there are: a window of at most a
/// tebibyte, and of two bytes or more for each millisecond of delay.
pub open spec fn running(p: Path) -> bool {
    &&& p.rtt_ms is Some ==> link_laws::quantity(p.rtt_ms->0)
    &&& link_laws::quantity(p.jitter_ms)
    &&& 1 <= p.congestion_window <= 0x100_0000_0000
    &&& 2 * round_trip(p) <= p.congestion_window * binary64_laws::one()
}

pub proof fn lemma_ones()
    ensures
        binary64_laws::one() == pow2(1074),
        binary64_laws::one() > 0,
        pow2(1114) == 0x100_0000_0000 * binary64_laws::one(),
        30 * binary64_laws::one() <= pow2(1079),
        pow2(1075) == 2 * binary64_laws::one(),
        pow2(974) <= pow2(1074),
        pow2(1079) <= pow2(1174),
{
    lemma2_to64();
    lemma2_to64_rest();
    lemma_pow2_pos(1074);
    binary64_laws::lemma_scaled(1, 40, 1074);
    binary64_laws::lemma_scaled(1, 5, 1074);
    binary64_laws::lemma_scaled(1, 1, 1074);
    binary64::lemma_pow2_monotone(974, 1074);
    binary64::lemma_pow2_monotone(1079, 1174);
}

proof fn lemma_delay(p: Path)
    requires
        p.rtt_ms is Some ==> link_laws::quantity(p.rtt_ms->0),
    ensures
        link_laws::quantity(p.rtt_or(30)),
        binary64_laws::units(p.rtt_or(30)) == target_laws::delay_of(p),
{
    lemma_ones();
    binary64_laws::whole_numbers_are_exact(30);
}

/// The pace that the window allows: its bytes in a round trip.
pub proof fn lemma_pace(p: Path)
    requires
        running(p),
    ensures
        binary64_approx::sized(p.estimated_bytes_per_ms(), 1074, 1180),
        ({
            let one: nat = binary64_laws::one();
            binary64_approx::approx(
                binary64_laws::units(p.estimated_bytes_per_ms()) * round_trip(p),
                (p.congestion_window as nat * one) * one,
                1,
            )
        }),
{
    reveal(binary64::spec_lt);
    lemma_ones();
    lemma_delay(p);
    let one: nat = binary64_laws::one();
    binary64_laws::whole_numbers_are_exact(1);
    binary64_laws::whole_numbers_are_exact(p.congestion_window as u64);
    let c: nat = p.congestion_window as nat;
    let single: Binary64 = Binary64::whole(1);
    assert(1 * one == one);
    binary64_laws::units_keep_order(p.rtt_or(30), single);
    let m: Binary64 = p.rtt_or(30).max(single);
    assert(binary64_laws::plain(m) && binary64_laws::units(m) == round_trip(p));
    binary64::lemma_pow2_monotone(1074, 1174);
    assert(one <= c * one <= 0x100_0000_0000 * one) by (nonlinear_arith)
        requires
            1 <= c <= 0x100_0000_0000,
            one > 0,
    ;
    let w: Binary64 = Binary64::whole(p.congestion_window as u64);
    binary64_approx::over_step(w, m, 1074, 1114, 1074, 1174);
    let r: Binary64 = w.over(m);
    let u: nat = binary64_laws::units(r);
    let d: nat = round_trip(p);
    let co: nat = c * one;
    assert(u >= one) by {
        let x: nat = u * d;
        let y: nat = co * one;
        assert(y * (0x4_0000_0000_0000 - 1) == y * 0x3_ffff_ffff_ffff);
        assert(y >= 2 * d * one) by (nonlinear_arith)
            requires
                y == co * one,
                co >= 2 * d,
                one > 0,
        ;
        let z: nat = d * one;
        assert(2 * d * one == 2 * z) by (nonlinear_arith)
            requires
                z == d * one,
        ;
        assert(x >= z);
        assert(u >= one) by (nonlinear_arith)
            requires
                x == u * d,
                z == d * one,
                x >= z,
                d > 0,
        ;
    }
    binary64_laws::units_keep_order(r, single);
    assert(p.estimated_bytes_per_ms() == r);
    binary64::lemma_pow2_monotone(1115, 1180);
}

/// The time in which some bytes go at a pace that is known as a fraction.
pub proof fn lemma_drain(bytes: u64, pace: Binary64, n: nat, d: nat)
    requires
        bytes <= 0x100_0000_0000,
        binary64_approx::sized(pace, 1074, 1180),
        binary64_approx::approx(binary64_laws::units(pace) * d, n, 8),
    ensures
        ({
            let y: Binary64 = Binary64::whole(bytes).over(pace);
            let one: nat = binary64_laws::one();
            &&& binary64_laws::plain(y)
            &&& binary64_laws::units(y) <= pow2(1115)
            &&& binary64_approx::approx(
                binary64_laws::units(y) * n,
                (bytes as nat * (one * one)) * d,
                12,
            )
        }),
{
    lemma_ones();
    let one: nat = binary64_laws::one();
    let oo: nat = one * one;
    let b: nat = bytes as nat;
    binary64_laws::whole_numbers_are_exact(bytes);
    let y: Binary64 = Binary64::whole(bytes).over(pace);
    let u: nat = binary64_laws::units(y);
    let r: nat = binary64_laws::units(pace);
    lemma_pow2_pos(1115);
    if bytes == 0 {
        reveal(binary64::spec_over);
        assert(0 * one == 0);
        link_laws::lemma_unset(Binary64::whole(0));
        link_laws::lemma_unset(pace);
        binary64_laws::lemma_parts(y);
        assert(0 * n == 0 && 0 * oo == 0 && 0 * d == 0);
    } else {
        assert(one <= b * one <= 0x100_0000_0000 * one) by (nonlinear_arith)
            requires
                1 <= b <= 0x100_0000_0000,
                one > 0,
        ;
        binary64_approx::over_step(Binary64::whole(bytes), pace, 1074, 1114, 1074, 1180);
        binary64_approx::lemma_approx_scale(u * r, (b * one) * one, 1, d);
        assert((u * r) * d == u * (r * d) && ((b * one) * one) * d == (b * oo) * d)
            by (nonlinear_arith)
            requires
                oo == one * one,
        ;
        binary64_approx::lemma_approx_replace(u, r * d, n, (b * oo) * d, 1, 8);
        binary64_approx::lemma_approx_more(u * n, (b * oo) * d, 11, 12);
    }
}

pub proof fn lemma_half(p: Path)
    requires
        p.rtt_ms is Some ==> link_laws::quantity(p.rtt_ms->0),
    ensures
        ({
            let x: Binary64 = p.rtt_or(30).over(Binary64::whole(2));
            &&& binary64_laws::plain(x)
            &&& binary64_laws::units(x) <= pow2(1175)
            &&& binary64_approx::approx(
                binary64_laws::units(x) * 2,
                target_laws::delay_of(p),
                1,
            )
        }),
{
    lemma_ones();
    lemma_delay(p);
    let one: nat = binary64_laws::one();
    let d: nat = target_laws::delay_of(p);
    binary64_laws::whole_numbers_are_exact(2);
    let x: Binary64 = p.rtt_or(30).over(Binary64::whole(2));
    let u: nat = binary64_laws::units(x);
    lemma_pow2_pos(1175);
    if d == 0 {
        link_laws::lemma_unset(p.rtt_or(30));
        link_laws::lemma_none_over(p.rtt_or(30), 2);
        binary64_laws::lemma_parts(x);
    } else {
        binary64_approx::over_step(p.rtt_or(30), Binary64::whole(2), 974, 1174, 1075, 1075);
        binary64::lemma_pow2_monotone(1174, 1175);
        assert(u * (2 * one) == (u * 2) * one) by (nonlinear_arith);
        binary64_approx::lemma_approx_cancel(u * 2, d, 1, one);
    }
}

// ---- Bulk ------------------------------------------------------------------------------

/// The time that a path takes for some bytes behind what is in flight, times
/// twice its window: half the delay, and what is under way at its pace.
pub open spec fn bulk_time(p: Path, bytes: usize) -> nat {
    p.congestion_window as nat * target_laws::delay_of(p) + 2 * ((p.in_flight + bytes) as nat
        * round_trip(p))
}

proof fn lemma_bulk_cost(p: Path, bytes: usize)
    requires
        running(p),
        p.in_flight + bytes <= 0x100_0000_0000,
        p.in_flight + bytes <= usize::MAX,
    ensures
        ({
            let c: Binary64 = bond::bulk_cost(p, bytes);
            &&& binary64_laws::plain(c)
            &&& binary64_approx::approx(
                binary64_laws::units(c) * (2 * p.congestion_window as nat),
                bulk_time(p, bytes),
                15,
            )
        }),
{
    lemma_ones();
    let one: nat = binary64_laws::one();
    let oo: nat = one * one;
    let w: nat = p.congestion_window as nat;
    let q: u64 = (p.in_flight + bytes) as u64;
    let m: nat = round_trip(p);
    let d: nat = target_laws::delay_of(p);
    lemma_pace(p);
    lemma_half(p);
    let pace: Binary64 = p.estimated_bytes_per_ms();
    assert((w * one) * one == w * oo) by (nonlinear_arith)
        requires
            oo == one * one,
    ;
    binary64_approx::lemma_approx_more(binary64_laws::units(pace) * m, w * oo, 1, 8);
    lemma_drain(q, pace, w * oo, m);
    let x: Binary64 = p.rtt_or(30).over(Binary64::whole(2));
    let y: Binary64 = Binary64::whole(q).over(pace);
    let c: Binary64 = bond::bulk_cost(p, bytes);
    assert(c == x.plus(y));
    lemma2_to64();
    binary64::lemma_pow2_monotone(1115, 1175);
    binary64_laws::lemma_scaled(1, 1175, 2);
    lemma_pow2_strictly_increases(1177, 2098);
    binary64_laws::a_sum_is_near(x, y);
    let cu: nat = binary64_laws::units(c);
    let xu: nat = binary64_laws::units(x);
    let yu: nat = binary64_laws::units(y);
    binary64_approx::lemma_approx_near(cu, xu + yu);
    // At the scale of twice the window.
    let k: nat = 2 * w;
    binary64_approx::lemma_approx_scale(cu, xu + yu, 1, k);
    assert((xu + yu) * k == w * (xu * 2) + 2 * (yu * w)) by (nonlinear_arith)
        requires
            k == 2 * w,
    ;
    binary64_approx::lemma_approx_scale(xu * 2, d, 1, w);
    binary64_approx::lemma_approx_more(w * (xu * 2), w * d, 1, 12);
    let b: nat = q as nat;
    assert(yu * (w * oo) == (yu * w) * oo && (b * oo) * m == (b * m) * oo) by (nonlinear_arith);
    assert(oo > 0) by (nonlinear_arith)
        requires
            oo == one * one,
            one > 0,
    ;
    binary64_approx::lemma_approx_cancel(yu * w, b * m, 12, oo);
    binary64_approx::lemma_approx_scale(yu * w, b * m, 12, 2);
    path_laws::lemma_approx_sum(w * (xu * 2), w * d, 2 * (yu * w), 2 * (b * m), 12);
    binary64_approx::lemma_approx_chain(
        cu * k,
        w * (xu * 2) + 2 * (yu * w),
        bulk_time(p, bytes),
        1,
        12,
    );
    binary64_approx::lemma_approx_more(cu * k, bulk_time(p, bytes), 14, 15);
}

/// Bulk data goes first on the path on which it clearly takes the least time:
/// half the delay, and what is in flight and the packet at the pace of the
/// window.
pub proof fn bulk_goes_where_it_is_through_first(
    v: SchedulerView,
    bytes: usize,
    now: u64,
    i: int,
    j: int,
)
    requires
        v.paths.len() <= usize::MAX,
        0 <= i < v.targets(bytes, false, now).len(),
        0 <= j < v.targets(bytes, false, now).len(),
        ({
            let p: Path = v.paths[v.targets(bytes, false, now)[i] as int];
            let q: Path = v.paths[v.targets(bytes, false, now)[j] as int];
            &&& running(p)
            &&& running(q)
            &&& p.in_flight + bytes <= 0x100_0000_0000 && p.in_flight + bytes <= usize::MAX
            &&& q.in_flight + bytes <= 0x100_0000_0000 && q.in_flight + bytes <= usize::MAX
            &&& binary64_size::clearly_less(
                bulk_time(p, bytes) * q.congestion_window as nat,
                bulk_time(q, bytes) * p.congestion_window as nat,
            )
        }),
    ensures
        i < j,
{
    reveal(SchedulerView::targets);
    let list: Seq<usize> = v.targets(bytes, false, now);
    target_laws::lemma_open_paths(v, bytes, false, now);
    placement::lemma_ordered_pairwise(
        target_laws::open_paths(v, bytes, false, now),
        bond::bulk_costs(v.paths, bytes),
        target_laws::nearer(v),
    );
    assert(list.contains(list[i]) && list.contains(list[j]));
    let p: Path = v.paths[list[i] as int];
    let q: Path = v.paths[list[j] as int];
    lemma_bulk_cost(p, bytes);
    lemma_bulk_cost(q, bytes);
    let a: Binary64 = bond::bulk_cost(p, bytes);
    let b: Binary64 = bond::bulk_cost(q, bytes);
    lemma_less(
        binary64_laws::units(a),
        bulk_time(p, bytes),
        2 * p.congestion_window as nat,
        binary64_laws::units(b),
        bulk_time(q, bytes),
        2 * q.congestion_window as nat,
        15,
    );
    binary64_laws::units_keep_order(a, b);
    if j < i {
        assert(list[j] == list[j] && list[i] == list[i]);
    }
}

/// Numbers that are known over different scales, and clearly differ.
pub proof fn lemma_less(a: nat, x: nat, m: nat, b: nat, y: nat, n: nat, k: nat)
    requires
        binary64_approx::approx(a * m, x, k),
        binary64_approx::approx(b * n, y, k),
        m % 2 == 0,
        n % 2 == 0,
        binary64_size::clearly_less(x * (n / 2), y * (m / 2)),
        k <= 0x1000,
    ensures
        a < b,
{
    let p: nat = m / 2;
    let q: nat = n / 2;
    binary64_approx::lemma_approx_scale(a * m, x, k, q);
    binary64_approx::lemma_approx_scale(b * n, y, k, p);
    binary64_approx::lemma_clear((a * m) * q, (b * n) * p, x * q, y * p, k);
    assert(a < b) by (nonlinear_arith)
        requires
            (a * m) * q < (b * n) * p,
            m == 2 * p,
            n == 2 * q,
            p >= 0,
            q >= 0,
    ;
}

// ---- TCP -------------------------------------------------------------------------------

/// Whether a rate of bulk TCP was measured within the last second.
pub open spec fn rate_known(p: Path, now: u64) -> bool {
    &&& p.tcp_rate.sampled_at is Some
    &&& now <= p.tcp_rate.sampled_at->0 || now - p.tcp_rate.sampled_at->0 <= 1000
    &&& binary64_laws::units(p.tcp_delivery_bps) > 0
}

/// The pace of a path for TCP as a fraction: that of the window, or that of the
/// rate measured just now and a quarter more, which is bits by 6400, where that
/// is less.
pub open spec fn tcp_pace(p: Path, now: u64) -> (nat, nat) {
    let one: nat = binary64_laws::one();
    let window: nat = p.congestion_window as nat * (one * one);
    if rate_known(p, now) && binary64_laws::units(p.tcp_delivery_bps) * round_trip(p) < window
        * 6400 {
        (binary64_laws::units(p.tcp_delivery_bps), 6400)
    } else {
        (window, round_trip(p))
    }
}

/// Whether it is clear which of the two paces is less, and the rate is no less
/// than a byte in a millisecond.
pub open spec fn pace_is_clear(p: Path, now: u64) -> bool {
    let one: nat = binary64_laws::one();
    let window: nat = p.congestion_window as nat * (one * one);
    let x: nat = binary64_laws::units(p.tcp_delivery_bps) * round_trip(p);
    &&& binary64_laws::plain(p.tcp_delivery_bps)
    &&& rate_known(p, now) ==> {
        &&& 12_800 * one <= binary64_laws::units(p.tcp_delivery_bps) <= pow2(1174)
        &&& binary64_size::clearly_less(x, window * 6400) || binary64_size::clearly_less(
            window * 6400,
            x,
        )
    }
}

pub proof fn lemma_tcp_pace(p: Path, now: u64)
    requires
        running(p),
        pace_is_clear(p, now),
    ensures
        binary64_approx::sized(p.tcp_bytes_per_ms(now), 1074, 1180),
        binary64_approx::approx(
            binary64_laws::units(p.tcp_bytes_per_ms(now)) * tcp_pace(p, now).1,
            tcp_pace(p, now).0,
            8,
        ),
        tcp_pace(p, now).0 > 0,
{
    reveal(binary64::spec_lt);
    lemma_ones();
    lemma_pace(p);
    let one: nat = binary64_laws::one();
    let oo: nat = one * one;
    let w: nat = p.congestion_window as nat;
    let m: nat = round_trip(p);
    let window: nat = w * oo;
    assert((w * one) * one == w * oo) by (nonlinear_arith)
        requires
            oo == one * one,
    ;
    assert(window > 0) by (nonlinear_arith)
        requires
            window == w * oo,
            oo == one * one,
            w >= 1,
            one > 0,
    ;
    let est: Binary64 = p.estimated_bytes_per_ms();
    let eu: nat = binary64_laws::units(est);
    binary64_approx::lemma_approx_more(eu * m, window, 1, 8);
    link_laws::lemma_unset(p.tcp_delivery_bps);
    if rate_known(p, now) {
        let b: Binary64 = p.tcp_delivery_bps;
        let bu: nat = binary64_laws::units(b);
        binary64_laws::whole_numbers_are_exact(8000);
        binary64_laws::whole_numbers_are_exact(1);
        binary64_laws::whole_numbers_are_exact(4);
        binary64_laws::whole_numbers_are_exact(5);
        lemma2_to64();
        binary64_laws::lemma_scaled(1, 12, 1074);
        binary64_laws::lemma_scaled(1, 13, 1074);
        binary64_laws::lemma_scaled(1, 2, 1074);
        binary64_laws::lemma_scaled(1, 3, 1074);
        binary64_approx::over_step(b, Binary64::whole(8000), 1086, 1174, 1086, 1087);
        let x: Binary64 = b.over(Binary64::whole(8000));
        let xu: nat = binary64_laws::units(x);
        assert(xu * (8000 * one) == (xu * 8000) * one) by (nonlinear_arith);
        binary64_approx::lemma_approx_cancel(xu * 8000, bu, 1, one);
        let r: Binary64 = Binary64::ratio(5, 4);
        let ru: nat = binary64_laws::units(r);
        binary64_approx::over_step(Binary64::whole(5), Binary64::whole(4), 1076, 1077, 1076, 1076);
        assert(ru * (4 * one) == (ru * 4) * one) by (nonlinear_arith);
        binary64_approx::lemma_approx_cancel(ru * 4, 5 * one, 1, one);
        binary64_approx::times_step(x, r, 1072, 1163, 1073, 1076);
        let c: Binary64 = x.times(r);
        let cu: nat = binary64_laws::units(c);
        // c is bits by 6400.
        binary64_approx::lemma_approx_product(xu * 8000, bu, 1, ru * 4, 5 * one, 1);
        binary64_approx::lemma_approx_scale(cu * one, xu * ru, 1, 32_000);
        assert((xu * ru) * 32_000 == (xu * 8000) * (ru * 4)) by (nonlinear_arith);
        binary64_approx::lemma_approx_chain(
            (cu * one) * 32_000,
            (xu * 8000) * (ru * 4),
            bu * (5 * one),
            1,
            3,
        );
        assert((cu * one) * 32_000 == (cu * 6400) * (5 * one)) by (nonlinear_arith);
        binary64_approx::lemma_approx_cancel(cu * 6400, bu, 5, 5 * one);
        binary64_approx::lemma_approx_more(cu * 6400, bu, 5, 8);
        assert(bu * (0x4_0000_0000_0000 - 8) == bu * 0x3_ffff_ffff_fff8);
        assert(cu >= one);
        let single: Binary64 = Binary64::whole(1);
        binary64_laws::units_keep_order(c, single);
        binary64_laws::units_keep_order(est, single);
        binary64_laws::units_keep_order(c, est);
        binary64_laws::units_keep_order(est, c);
        // Which of the two is less.
        binary64_approx::lemma_approx_scale(cu * 6400, bu, 8, m);
        binary64_approx::lemma_approx_scale(eu * m, window, 8, 6400);
        assert((cu * 6400) * m == cu * (6400 * m) && (eu * m) * 6400 == eu * (6400 * m))
            by (nonlinear_arith);
        let k: nat = 6400 * m;
        if bu * m < window * 6400 {
            binary64_approx::lemma_clear(cu * k, eu * k, bu * m, window * 6400, 8);
            assert(cu < eu) by (nonlinear_arith)
                requires
                    cu * k < eu * k,
                    k >= 0,
            ;
        } else {
            binary64_approx::lemma_clear(eu * k, cu * k, window * 6400, bu * m, 8);
            assert(eu < cu) by (nonlinear_arith)
                requires
                    eu * k < cu * k,
                    k >= 0,
            ;
        }
        binary64::lemma_pow2_monotone(1166, 1180);
        assert(p.tcp_bytes_per_ms(now) == if cu < eu {
            c
        } else {
            est
        });
    } else {
        assert(p.tcp_bytes_per_ms(now) == est);
    }
}

/// The time that a TCP packet takes on a path, times twice the numerator of its
/// pace: half the delay, the jitter, and what is in flight and the packet at
/// that pace.
pub open spec fn tcp_time(p: Path, bytes: usize, now: u64) -> nat {
    let one: nat = binary64_laws::one();
    let (n, d) = tcp_pace(p, now);
    n * (target_laws::delay_of(p) + 2 * binary64_laws::units(p.jitter_ms)) + 2 * (((p.in_flight
        + bytes) as nat * (one * one)) * d)
}

proof fn lemma_tcp_cost(p: Path, bytes: usize, now: u64)
    requires
        running(p),
        pace_is_clear(p, now),
        p.in_flight + bytes <= 0x100_0000_0000,
    ensures
        ({
            let c: Binary64 = bond::tcp_cost(p, bytes, now);
            &&& binary64_laws::plain(c)
            &&& binary64_approx::approx(
                binary64_laws::units(c) * (2 * tcp_pace(p, now).0),
                tcp_time(p, bytes, now),
                20,
            )
        }),
{
    lemma_ones();
    let one: nat = binary64_laws::one();
    let oo: nat = one * one;
    let (n, m) = tcp_pace(p, now);
    let d: nat = target_laws::delay_of(p);
    let ju: nat = binary64_laws::units(p.jitter_ms);
    lemma_tcp_pace(p, now);
    lemma_half(p);
    let pace: Binary64 = p.tcp_bytes_per_ms(now);
    lemma_drain(bytes as u64, pace, n, m);
    lemma_drain(p.in_flight as u64, pace, n, m);
    let x: Binary64 = p.rtt_or(30).over(Binary64::whole(2));
    let y: Binary64 = Binary64::whole(bytes as u64).over(pace);
    let z: Binary64 = Binary64::whole(p.in_flight as u64).over(pace);
    let c: Binary64 = bond::tcp_cost(p, bytes, now);
    assert(c == x.plus(p.jitter_ms).plus(y).plus(z));
    lemma2_to64();
    binary64::lemma_pow2_monotone(1115, 1175);
    binary64::lemma_pow2_monotone(1174, 1175);
    binary64_laws::lemma_scaled(1, 1175, 4);
    lemma_pow2_strictly_increases(1179, 2098);
    lemma_pow2_pos(1175);
    binary64_laws::a_sum_is_near(x, p.jitter_ms);
    let s: Binary64 = x.plus(p.jitter_ms);
    binary64_laws::a_sum_is_near(s, y);
    let t: Binary64 = s.plus(y);
    binary64_laws::a_sum_is_near(t, z);
    let cu: nat = binary64_laws::units(c);
    let xu: nat = binary64_laws::units(x);
    let yu: nat = binary64_laws::units(y);
    let zu: nat = binary64_laws::units(z);
    let all: nat = xu + ju + yu + zu;
    assert(binary64_approx::approx(cu, all, 5)) by {
        assert(cu * 0x4_0000_0000_0000 <= all * 0x4_0000_0000_0005);
        assert(all * 0x3_ffff_ffff_fffb <= cu * 0x4_0000_0000_0000);
        assert(all * (0x4_0000_0000_0000 + 5) == all * 0x4_0000_0000_0005);
        assert(all * (0x4_0000_0000_0000 - 5) == all * 0x3_ffff_ffff_fffb);
    }
    let k: nat = 2 * n;
    binary64_approx::lemma_approx_scale(cu, all, 5, k);
    let parts: nat = n * (xu * 2) + n * (2 * ju) + 2 * (yu * n) + 2 * (zu * n);
    assert(all * k == parts) by (nonlinear_arith)
        requires
            k == 2 * n,
            all == xu + ju + yu + zu,
            parts == n * (xu * 2) + n * (2 * ju) + 2 * (yu * n) + 2 * (zu * n),
    ;
    binary64_approx::lemma_approx_scale(xu * 2, d, 1, n);
    binary64_approx::lemma_approx_more(n * (xu * 2), n * d, 1, 12);
    link_choice_laws::lemma_same(n * (2 * ju), 12);
    let b: nat = bytes as nat;
    let f: nat = p.in_flight as nat;
    let by: nat = (b * oo) * m;
    let fy: nat = (f * oo) * m;
    binary64_approx::lemma_approx_scale(yu * n, by, 12, 2);
    binary64_approx::lemma_approx_scale(zu * n, fy, 12, 2);
    path_laws::lemma_approx_sum(n * (xu * 2), n * d, n * (2 * ju), n * (2 * ju), 12);
    path_laws::lemma_approx_sum(
        n * (xu * 2) + n * (2 * ju),
        n * d + n * (2 * ju),
        2 * (yu * n),
        2 * by,
        12,
    );
    path_laws::lemma_approx_sum(
        n * (xu * 2) + n * (2 * ju) + 2 * (yu * n),
        n * d + n * (2 * ju) + 2 * by,
        2 * (zu * n),
        2 * fy,
        12,
    );
    let goal: nat = tcp_time(p, bytes, now);
    assert(n * d + n * (2 * ju) + 2 * by + 2 * fy == goal) by (nonlinear_arith)
        requires
            goal == n * (d + 2 * ju) + 2 * (((f + b) * oo) * m),
            by == (b * oo) * m,
            fy == (f * oo) * m,
    ;
    binary64_approx::lemma_approx_chain(cu * k, parts, goal, 5, 12);
    binary64_approx::lemma_approx_more(cu * k, goal, 18, 20);
}

/// Whether a path has room for a packet of bulk now.
pub open spec fn has_room(v: SchedulerView, x: usize, bytes: usize, now: u64) -> bool {
    v.data_paths(now).contains(x) && v.paths[x as int].send_budget_allows(bytes, false, now)
}

/// A TCP packet goes nowhere while no path has room. When it goes, and not to
/// the nearest path, it goes to a path with room than which no other takes
/// clearly less time for it.
pub proof fn tcp_goes_where_it_is_through_first(
    v: SchedulerView,
    key: u128,
    bytes: usize,
    backlog: usize,
    now: u64,
    k: usize,
)
    requires
        v.paths.len() <= usize::MAX,
        has_room(v, k, bytes, now),
        forall|x: usize|
            has_room(v, x, bytes, now) ==> running(#[trigger] v.paths[x as int]) && pace_is_clear(
                v.paths[x as int],
                now,
            ) && v.paths[x as int].in_flight + bytes <= 0x100_0000_0000,
    ensures
        ({
            let to: Option<usize> = v.tcp_placed(key, bytes, backlog, now).1;
            to is Some ==> {
                let p: Path = v.paths[to->0 as int];
                let q: Path = v.paths[k as int];
                &&& has_room(v, to->0, bytes, now)
                &&& to->0 == v.data_paths(now)[0] || !binary64_size::clearly_less(
                    tcp_time(q, bytes, now) * tcp_pace(p, now).0,
                    tcp_time(p, bytes, now) * tcp_pace(q, now).0,
                )
            }
        }),
{
    reveal(SchedulerView::tcp_placed);
    let all: Seq<usize> = v.data_paths(now);
    target_laws::lemma_data_paths(v, now);
    let flags: Seq<bool> = bond::budget_flags(v.paths, bytes, false, now);
    let open: Seq<usize> = placement::kept(all, flags);
    let n: nat = v.paths.len();
    assert(placement::within(all, n)) by {
        assert forall|i: int| 0 <= i < all.len() implies (#[trigger] all[i]) < n by {
            assert(all.contains(all[i]));
        }
    }
    placement::lemma_kept(all, flags, n);
    let costs: Seq<Binary64> = bond::tcp_costs(v.paths, bytes, now);
    placement::lemma_cheapest(open, costs, n);
    assert(flags[k as int]);
    assert(open.contains(k));
    let c: usize = placement::cheapest(open, costs)->0;
    assert(open.contains(c));
    assert(flags[c as int]);
    assert(has_room(v, c, bytes, now));
    assert(all.contains(all[0])) by {
        let i: int = choose|i: int| 0 <= i < all.len() && all[i] == k;
    }
    let i: int = choose|i: int| 0 <= i < open.len() && open[i] == k;
    assert(costs[c as int].key() <= costs[open[i] as int].key());
    let p: Path = v.paths[c as int];
    let q: Path = v.paths[k as int];
    assert(running(p) && running(q));
    lemma_tcp_cost(p, bytes, now);
    lemma_tcp_cost(q, bytes, now);
    lemma_tcp_pace(p, now);
    lemma_tcp_pace(q, now);
    let a: Binary64 = bond::tcp_cost(q, bytes, now);
    let b: Binary64 = bond::tcp_cost(p, bytes, now);
    if binary64_size::clearly_less(
        tcp_time(q, bytes, now) * tcp_pace(p, now).0,
        tcp_time(p, bytes, now) * tcp_pace(q, now).0,
    ) {
        lemma_less(
            binary64_laws::units(a),
            tcp_time(q, bytes, now),
            2 * tcp_pace(q, now).0,
            binary64_laws::units(b),
            tcp_time(p, bytes, now),
            2 * tcp_pace(p, now).0,
            20,
        );
        binary64_laws::units_keep_order(a, b);
    }
}

// ---- Pacing ----------------------------------------------------------------------------

/// Each packet puts the next one off by the time that its bytes take at the
/// pace of the window, counted from when this one was due or four
/// milliseconds ago, whichever is later.
pub proof fn packets_are_spaced(p: Path, repeated: bool, bulk_tcp: bool, bytes: usize, now: u64) -> (
    gap: nat)
    requires
        running(p),
        bytes <= 0x100_0000_0000,
        now <= 0x10_0000_0000_0000,
        binary64_laws::plain(p.next_send),
        binary64_laws::units(p.next_send) <= pow2(1174),
    ensures
        ({
            let q: Path = p.charged(repeated, bulk_tcp, bytes, now);
            let late: nat = (if now > 4 {
                (now - 4) as nat
            } else {
                0
            }) * binary64_laws::one();
            let due: nat = binary64_laws::units(p.next_send);
            &&& binary64_laws::plain(q.next_send)
            &&& binary64_laws::near(
                binary64_laws::units(q.next_send),
                (if due > late {
                    due
                } else {
                    late
                }) + gap,
            )
            &&& binary64_size::close(
                gap * p.congestion_window as nat,
                bytes as nat * round_trip(p),
            )
        }),
{
    reveal(Path::charged);
    reveal(Path::capacity_noted);
    reveal(Path::tcp_noted);
    reveal(binary64::spec_lt);
    lemma_ones();
    let one: nat = binary64_laws::one();
    let oo: nat = one * one;
    let w: nat = p.congestion_window as nat;
    let m: nat = round_trip(p);
    lemma_pace(p);
    let pace: Binary64 = p.estimated_bytes_per_ms();
    assert((w * one) * one == w * oo) by (nonlinear_arith)
        requires
            oo == one * one,
    ;
    binary64_approx::lemma_approx_more(binary64_laws::units(pace) * m, w * oo, 1, 8);
    lemma_drain(bytes as u64, pace, w * oo, m);
    let y: Binary64 = Binary64::whole(bytes as u64).over(pace);
    let gap: nat = binary64_laws::units(y);
    let b: nat = bytes as nat;
    assert(gap * (w * oo) == (gap * w) * oo && (b * oo) * m == (b * m) * oo) by (nonlinear_arith);
    assert(oo > 0) by (nonlinear_arith)
        requires
            oo == one * one,
            one > 0,
    ;
    binary64_approx::lemma_approx_cancel(gap * w, b * m, 12, oo);
    path_laws::lemma_close(gap * w, b * m, 12);
    let t: u64 = now.saturating_sub(4);
    binary64_laws::whole_numbers_are_exact(t);
    binary64_laws::units_keep_order(p.next_send, Binary64::whole(t));
    let start: Binary64 = p.next_send.max(Binary64::whole(t));
    let q: Path = p.charged(repeated, bulk_tcp, bytes, now);
    assert(q.next_send == start.plus(y));
    binary64::lemma_pow2_values();
    binary64_laws::lemma_scaled(1, 52, 1074);
    assert(t * one <= 0x10_0000_0000_0000 * one) by (nonlinear_arith)
        requires
            t <= 0x10_0000_0000_0000,
            one > 0,
    ;
    lemma2_to64();
    binary64::lemma_pow2_monotone(1126, 1174);
    binary64::lemma_pow2_monotone(1115, 1174);
    binary64_laws::lemma_scaled(1, 1174, 3);
    lemma_pow2_strictly_increases(1177, 2098);
    lemma_pow2_pos(1174);
    binary64_laws::a_sum_is_near(start, y);
    gap
}

} // verus!
