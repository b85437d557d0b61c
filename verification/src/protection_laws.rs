//! Second copies, repairs and waits, in terms of what is measured of the paths.
use crate::binary64;
use crate::binary64::Binary64;
use crate::binary64_approx;
use crate::binary64_laws;
use crate::binary64_size;
use crate::bond;
use crate::bond::{Policy, SchedulerView, TcpFlow};
use crate::flight::PendingView;
use crate::link_choice_laws;
use crate::link_laws;
use crate::packet;
use crate::path::{Path, PathState};
use crate::path_laws;
use crate::placement;
use crate::repair;
use crate::target_laws;
use crate::transfer_laws;
use crate::turn;
use crate::turn::{PlanView, SendingView};
use vstd::arithmetic::power2::*;
use vstd::prelude::*;

verus! {

// ---- Second copies ---------------------------------------------------------------------

/// The delay by which a path could make up for a loss; 100 milliseconds where
/// none was measured.
pub open spec fn detour(p: Path) -> nat {
    match p.rtt_ms {
        Some(ms) => binary64_laws::units(ms),
        None => 100 * binary64_laws::one(),
    }
}

/// The time in which a path could make up for a loss, times its window: three
/// probes, its delay, and what is under way at its pace.
pub open spec fn recovery_time(p: Path, bytes: usize) -> nat {
    p.congestion_window as nat * (60 * binary64_laws::one() + detour(p)) + (p.in_flight
        + bytes) as nat * transfer_laws::round_trip(p)
}

proof fn lemma_recovery(p: Path, bytes: usize)
    requires
        transfer_laws::running(p),
        p.in_flight + bytes <= 0x100_0000_0000,
        p.in_flight + bytes <= usize::MAX,
    ensures
        ({
            let c: Binary64 = turn::recovery_ms(p, bytes);
            &&& binary64_laws::plain(c)
            &&& binary64_approx::approx(
                binary64_laws::units(c) * p.congestion_window as nat,
                recovery_time(p, bytes),
                16,
            )
            &&& detour(p) >= 40 * binary64_laws::one() ==> binary64_laws::units(c) >= 100
                * binary64_laws::one()
        }),
{
    transfer_laws::lemma_ones();
    let one: nat = binary64_laws::one();
    let oo: nat = one * one;
    let w: nat = p.congestion_window as nat;
    let q: u64 = (p.in_flight + bytes) as u64;
    let m: nat = transfer_laws::round_trip(p);
    let d: nat = detour(p);
    lemma2_to64();
    binary64_laws::whole_numbers_are_exact(3);
    binary64_laws::whole_numbers_are_exact(20);
    binary64_laws::whole_numbers_are_exact(60);
    binary64_laws::whole_numbers_are_exact(40);
    binary64_laws::whole_numbers_are_exact(100);
    binary64_laws::a_multiple_is_rounded(3, Binary64::whole(20));
    assert(3 * (20 * one) == 60 * one);
    binary64_laws::values_round_to_themselves(Binary64::whole(60));
    let sixty: Binary64 = Binary64::whole(60);
    assert(Binary64::whole(3).times(Binary64::whole(20)) == sixty);
    let r: Binary64 = p.rtt_or(100);
    assert(binary64_laws::plain(r) && binary64_laws::units(r) == d);
    binary64_laws::lemma_scaled(1, 7, 1074);
    binary64::lemma_pow2_monotone(1081, 1174);
    assert(d <= pow2(1174));
    binary64_laws::lemma_scaled(1, 1174, 4);
    lemma_pow2_strictly_increases(1178, 2098);
    lemma_pow2_pos(1174);
    binary64_laws::a_sum_is_near(sixty, r);
    let s: Binary64 = sixty.plus(r);
    transfer_laws::lemma_pace(p);
    let pace: Binary64 = p.estimated_bytes_per_ms();
    assert((w * one) * one == w * oo) by (nonlinear_arith)
        requires
            oo == one * one,
    ;
    binary64_approx::lemma_approx_more(binary64_laws::units(pace) * m, w * oo, 1, 8);
    transfer_laws::lemma_drain(q, pace, w * oo, m);
    let y: Binary64 = Binary64::whole(q).over(pace);
    binary64::lemma_pow2_monotone(1115, 1174);
    binary64_laws::a_sum_is_near(s, y);
    let c: Binary64 = turn::recovery_ms(p, bytes);
    assert(c == s.plus(y));
    let cu: nat = binary64_laws::units(c);
    let su: nat = binary64_laws::units(s);
    let yu: nat = binary64_laws::units(y);
    let e: nat = 60 * one + d;
    binary64_approx::lemma_approx_near(cu, su + yu);
    binary64_approx::lemma_approx_near(su, e);
    binary64_approx::lemma_approx_scale(cu, su + yu, 1, w);
    assert((su + yu) * w == w * su + yu * w) by (nonlinear_arith);
    binary64_approx::lemma_approx_scale(su, e, 1, w);
    binary64_approx::lemma_approx_more(w * su, w * e, 1, 12);
    let b: nat = q as nat;
    assert(yu * (w * oo) == (yu * w) * oo && (b * oo) * m == (b * m) * oo) by (nonlinear_arith);
    assert(oo > 0) by (nonlinear_arith)
        requires
            oo == one * one,
            one > 0,
    ;
    binary64_approx::lemma_approx_cancel(yu * w, b * m, 12, oo);
    path_laws::lemma_approx_sum(w * su, w * e, yu * w, b * m, 12);
    binary64_approx::lemma_approx_chain(cu * w, w * su + yu * w, w * e + b * m, 1, 12);
    binary64_approx::lemma_approx_more(cu * w, recovery_time(p, bytes), 14, 16);
    if d >= 40 * one {
        let forty: Binary64 = Binary64::whole(40);
        let hundred: Binary64 = Binary64::whole(100);
        let none: Binary64 = Binary64 { bits: 0 };
        binary64_laws::units_keep_order(forty, r);
        binary64_laws::sums_keep_order(sixty, forty, sixty, r);
        binary64_laws::a_sum_is_rounded(sixty, forty);
        assert(60 * one + 40 * one == 100 * one);
        binary64_laws::values_round_to_themselves(hundred);
        assert(hundred.bits <= s.bits);
        binary64_laws::lemma_parts(none);
        binary64_laws::units_keep_order(none, y);
        binary64_laws::sums_keep_order(hundred, none, s, y);
        binary64_laws::a_sum_is_rounded(hundred, none);
        binary64_laws::units_keep_order(hundred, c);
    }
}

/// Where data is not to be saved, an urgent packet that is not bound to a path
/// earns a second copy for continuity, for media, where its path is degraded,
/// and where the other path could not make up for a loss in 100 milliseconds;
/// a delay of 40 milliseconds is always enough for that. It earns none for
/// nothing of this, nor ever where data is to be saved.
pub proof fn urgent_packets_earn_a_copy(
    v: SendingView,
    plan: PlanView,
    primary: usize,
    alternate: usize,
)
    requires
        transfer_laws::running(v.s.paths[alternate as int]),
        v.packet.body.len() <= usize::MAX,
        v.s.paths[alternate as int].in_flight + v.packet.body.len() <= 0x100_0000_0000,
        v.s.paths[alternate as int].in_flight + v.packet.body.len() <= usize::MAX,
    ensures
        ({
            let p: Path = v.s.paths[alternate as int];
            let bytes: usize = v.packet.body.len() as usize;
            let limit: nat = 100 * (p.congestion_window as nat * binary64_laws::one());
            let earns: bool = v.interactive_protected(plan, primary, alternate);
            let urgent: bool = plan.interactive && plan.pinned is None && v.s.policy
                != Policy::DataSaver;
            let known: bool = v.s.policy == Policy::Continuity || packet::spec_realtime_media(
                v.packet.body,
            ) || v.s.paths[primary as int].state == PathState::Degraded;
            &&& !urgent ==> !earns
            &&& urgent && known ==> earns
            &&& urgent && detour(p) >= 40 * binary64_laws::one() ==> earns
            &&& urgent && binary64_size::clearly_less(limit, recovery_time(p, bytes)) ==> earns
            &&& !known && binary64_size::clearly_less(recovery_time(p, bytes), limit) ==> !earns
        }),
{
    reveal(binary64::spec_lt);
    let p: Path = v.s.paths[alternate as int];
    let bytes: usize = v.packet.body.len() as usize;
    let one: nat = binary64_laws::one();
    lemma_pow2_pos(1074);
    lemma_recovery(p, bytes);
    let c: Binary64 = turn::recovery_ms(p, bytes);
    binary64_laws::whole_numbers_are_exact(100);
    let h: Binary64 = Binary64::whole(100);
    binary64_laws::units_keep_order(c, h);
    link_laws::lemma_unset(h);
    let w: nat = p.congestion_window as nat;
    let t: nat = recovery_time(p, bytes);
    let limit: nat = 100 * (w * one);
    let cu: nat = binary64_laws::units(c);
    assert((100 * one) * w == limit) by (nonlinear_arith)
        requires
            limit == 100 * (w * one),
    ;
    link_choice_laws::lemma_same(limit, 16);
    if binary64_size::clearly_less(limit, t) {
        binary64_approx::lemma_clear(limit, cu * w, limit, t, 16);
        assert(cu > 100 * one) by (nonlinear_arith)
            requires
                (100 * one) * w < cu * w,
                w >= 0,
        ;
    }
    if binary64_size::clearly_less(t, limit) {
        binary64_approx::lemma_clear(cu * w, limit, t, limit, 16);
        assert(cu < 100 * one) by (nonlinear_arith)
            requires
                cu * w < (100 * one) * w,
                w >= 0,
        ;
    }
}

// ---- Repairs ---------------------------------------------------------------------------

/// The time in which a repair of TCP is through on a path, times twice the
/// numerator of its pace: half the delay, the jitter, the packet at that pace,
/// and the time that a repair waits where the path carries a repetition.
pub open spec fn repair_time(p: Path, bytes: usize, again: bool, now: u64) -> nat {
    let one: nat = binary64_laws::one();
    let (n, d) = transfer_laws::tcp_pace(p, now);
    n * (target_laws::delay_of(p) + 2 * binary64_laws::units(p.jitter_ms) + 2 * (if again {
        p.repair_ms() as nat * one
    } else {
        0
    })) + 2 * ((bytes as nat * (one * one)) * d)
}

proof fn lemma_repair_cost(paths: Seq<Path>, parcel: PendingView, i: int, now: u64)
    requires
        0 <= i < paths.len(),
        i <= usize::MAX,
        transfer_laws::running(paths[i]),
        transfer_laws::pace_is_clear(paths[i], now),
        parcel.body.len() <= 0x100_0000_0000,
        parcel.body.len() <= usize::MAX,
        paths[i].repair_ms() <= 0x100_0000_0000,
    ensures
        ({
            let p: Path = paths[i];
            let c: Binary64 = repair::repair_cost(paths, parcel, i, now);
            let again: bool = repair::repeated_on(paths, parcel, i as usize);
            &&& binary64_laws::plain(c)
            &&& binary64_approx::approx(
                binary64_laws::units(c) * (2 * transfer_laws::tcp_pace(p, now).0),
                repair_time(p, parcel.body.len() as usize, again, now),
                20,
            )
        }),
{
    transfer_laws::lemma_ones();
    let p: Path = paths[i];
    let bytes: usize = parcel.body.len() as usize;
    let again: bool = repair::repeated_on(paths, parcel, i as usize);
    let one: nat = binary64_laws::one();
    let oo: nat = one * one;
    let (n, m) = transfer_laws::tcp_pace(p, now);
    let d: nat = target_laws::delay_of(p);
    let ju: nat = binary64_laws::units(p.jitter_ms);
    transfer_laws::lemma_tcp_pace(p, now);
    transfer_laws::lemma_half(p);
    let pace: Binary64 = p.tcp_bytes_per_ms(now);
    transfer_laws::lemma_drain(bytes as u64, pace, n, m);
    let x: Binary64 = p.rtt_or(30).over(Binary64::whole(2));
    let y: Binary64 = Binary64::whole(bytes as u64).over(pace);
    let z: Binary64 = if again {
        Binary64::whole(p.repair_ms())
    } else {
        Binary64 { bits: 0 }
    };
    let pen: nat = if again {
        p.repair_ms() as nat * one
    } else {
        0
    };
    binary64_laws::whole_numbers_are_exact(p.repair_ms());
    binary64_laws::lemma_parts(Binary64 { bits: 0 });
    assert(binary64_laws::plain(z) && binary64_laws::units(z) == pen);
    assert(pen <= 0x100_0000_0000 * one) by (nonlinear_arith)
        requires
            pen == 0 || pen == p.repair_ms() as nat * one,
            p.repair_ms() <= 0x100_0000_0000,
            one > 0,
    ;
    let c: Binary64 = repair::repair_cost(paths, parcel, i, now);
    assert(c == x.plus(p.jitter_ms).plus(y).plus(z));
    lemma2_to64();
    binary64::lemma_pow2_monotone(1115, 1175);
    binary64::lemma_pow2_monotone(1114, 1175);
    binary64::lemma_pow2_monotone(1174, 1175);
    binary64_laws::lemma_scaled(1, 1175, 4);
    lemma_pow2_strictly_increases(1179, 2098);
    lemma_pow2_pos(1175);
    binary64_laws::a_sum_is_near(x, p.jitter_ms);
    let s: Binary64 = x.plus(p.jitter_ms);
    binary64_laws::a_sum_is_near(s, y);
    let t: Binary64 = s.plus(y);
    binary64_laws::a_sum_is_near(t, z);
    let cu: nat = binary64_laws::units(c);
    let xu: nat = binary64_laws::units(x);
    let yu: nat = binary64_laws::units(y);
    let all: nat = xu + ju + yu + pen;
    assert(binary64_approx::approx(cu, all, 5)) by {
        assert(cu * 0x4_0000_0000_0000 <= all * 0x4_0000_0000_0005);
        assert(all * 0x3_ffff_ffff_fffb <= cu * 0x4_0000_0000_0000);
        assert(all * (0x4_0000_0000_0000 + 5) == all * 0x4_0000_0000_0005);
        assert(all * (0x4_0000_0000_0000 - 5) == all * 0x3_ffff_ffff_fffb);
    }
    let k: nat = 2 * n;
    binary64_approx::lemma_approx_scale(cu, all, 5, k);
    let rest: nat = n * (2 * ju + 2 * pen);
    let parts: nat = n * (xu * 2) + rest + 2 * (yu * n);
    assert(all * k == parts) by (nonlinear_arith)
        requires
            k == 2 * n,
            all == xu + ju + yu + pen,
            rest == n * (2 * ju + 2 * pen),
            parts == n * (xu * 2) + rest + 2 * (yu * n),
    ;
    binary64_approx::lemma_approx_scale(xu * 2, d, 1, n);
    binary64_approx::lemma_approx_more(n * (xu * 2), n * d, 1, 12);
    link_choice_laws::lemma_same(rest, 12);
    let by: nat = (bytes as nat * oo) * m;
    binary64_approx::lemma_approx_scale(yu * n, by, 12, 2);
    path_laws::lemma_approx_sum(n * (xu * 2), n * d, rest, rest, 12);
    path_laws::lemma_approx_sum(n * (xu * 2) + rest, n * d + rest, 2 * (yu * n), 2 * by, 12);
    let goal: nat = repair_time(p, bytes, again, now);
    assert(n * d + rest + 2 * by == goal) by (nonlinear_arith)
        requires
            goal == n * (d + 2 * ju + 2 * pen) + 2 * by,
            rest == n * (2 * ju + 2 * pen),
    ;
    binary64_approx::lemma_approx_chain(cu * k, parts, goal, 5, 12);
    binary64_approx::lemma_approx_more(cu * k, goal, 18, 20);
}

/// A TCP packet is repaired on one of the candidates, whenever there is one, and
/// on one than which no other would have it through in clearly less time.
pub proof fn tcp_is_repaired_where_it_is_through_first(
    list: Seq<usize>,
    paths: Seq<Path>,
    parcel: PendingView,
    now: u64,
    i: int,
)
    requires
        packet::spec_ipv4_tcp(parcel.body),
        placement::within(list, paths.len()),
        0 <= i < list.len(),
        parcel.body.len() <= 0x100_0000_0000,
        parcel.body.len() <= usize::MAX,
        forall|k: int|
            0 <= k < list.len() ==> {
                let p: Path = paths[(#[trigger] list[k]) as int];
                transfer_laws::running(p) && transfer_laws::pace_is_clear(p, now)
                    && p.repair_ms() <= 0x100_0000_0000
            },
    ensures
        ({
            let to: Option<usize> = repair::repair_target(list, paths, parcel, now);
            let bytes: usize = parcel.body.len() as usize;
            &&& to is Some
            &&& list.contains(to->0)
            &&& {
                let p: Path = paths[to->0 as int];
                let q: Path = paths[list[i] as int];
                let a: bool = repair::repeated_on(paths, parcel, to->0);
                let b: bool = repair::repeated_on(paths, parcel, list[i]);
                !binary64_size::clearly_less(
                    repair_time(q, bytes, b, now) * transfer_laws::tcp_pace(p, now).0,
                    repair_time(p, bytes, a, now) * transfer_laws::tcp_pace(q, now).0,
                )
            }
        }),
{
    let costs: Seq<Binary64> = repair::repair_costs(paths, parcel, now);
    placement::lemma_cheapest(list, costs, paths.len());
    let to: usize = repair::repair_target(list, paths, parcel, now)->0;
    let m: int = choose|m: int| 0 <= m < list.len() && list[m] == to;
    assert(list[m] == to);
    lemma_repair_cost(paths, parcel, list[m] as int, now);
    lemma_repair_cost(paths, parcel, list[i] as int, now);
    let p: Path = paths[to as int];
    let q: Path = paths[list[i] as int];
    let bytes: usize = parcel.body.len() as usize;
    let x: nat = repair_time(q, bytes, repair::repeated_on(paths, parcel, list[i]), now);
    let y: nat = repair_time(p, bytes, repair::repeated_on(paths, parcel, to), now);
    let a: Binary64 = costs[list[i] as int];
    let b: Binary64 = costs[to as int];
    if binary64_size::clearly_less(
        x * transfer_laws::tcp_pace(p, now).0,
        y * transfer_laws::tcp_pace(q, now).0,
    ) {
        transfer_laws::lemma_less(
            binary64_laws::units(a),
            x,
            2 * transfer_laws::tcp_pace(q, now).0,
            binary64_laws::units(b),
            y,
            2 * transfer_laws::tcp_pace(p, now).0,
            20,
        );
        binary64_laws::units_keep_order(a, b);
    }
}

// ---- Waits -----------------------------------------------------------------------------

proof fn lemma_wait_limit(p: Path)
    requires
        p.rtt_ms is Some ==> binary64_laws::plain(p.rtt_ms->0),
    ensures
        2 <= bond::wait_limit(p) <= 20,
{
    let one: nat = binary64_laws::one();
    lemma_pow2_pos(1074);
    binary64_laws::whole_numbers_are_exact(2);
    binary64_laws::whole_numbers_are_exact(20);
    binary64_laws::units_keep_order(Binary64::whole(2), Binary64::whole(20));
    let x: Binary64 = p.rtt_or(20);
    lemma_ceil(x);
    let low: Binary64 = Binary64::whole(2);
    let high: Binary64 = Binary64::whole(20);
    binary64_size::bounds_keep_order(x.ceil(), x.ceil(), low, high);
    let c: Binary64 = x.ceil().clamp(low, high);
    binary64_size::whole_parts_keep_order(low, c);
    binary64_size::whole_parts_keep_order(c, high);
    binary64_size::a_whole_part_is_counted(low);
    binary64_size::a_whole_part_is_counted(high);
    vstd::arithmetic::div_mod::lemma_div_by_multiple(2, one as int);
    vstd::arithmetic::div_mod::lemma_div_by_multiple(20, one as int);
}

proof fn lemma_ceil(x: Binary64)
    requires
        binary64_laws::plain(x),
    ensures
        x.ceil().bits <= binary64::INFINITY_BITS,
{
    reveal(binary64::spec_ceil);
    binary64_laws::lemma_parts(x);
    let n: nat = binary64::whole_part(x);
    binary64_laws::rounding_keeps_order(n, false, n, false, 0);
    binary64_laws::rounding_keeps_order(n + 1, false, n + 1, false, 0);
}

/// A TCP packet that some path has room for goes out at once where the nearest
/// path has room. It waits for the nearest one only while that one has none,
/// and for less than 20 milliseconds in all; and a flow that waits goes on
/// counting from when it began.
pub proof fn tcp_waits_for_the_nearest_only_briefly(
    v: SchedulerView,
    key: u128,
    bytes: usize,
    backlog: usize,
    now: u64,
    k: usize,
)
    requires
        v.paths.len() <= usize::MAX,
        transfer_laws::has_room(v, k, bytes, now),
        v.paths[v.data_paths(now)[0] as int].rtt_ms is Some ==> binary64_laws::plain(
            v.paths[v.data_paths(now)[0] as int].rtt_ms->0,
        ),
    ensures
        ({
            let nearest: usize = v.data_paths(now)[0];
            let (after, to) = v.tcp_placed(key, bytes, backlog, now);
            &&& transfer_laws::has_room(v, nearest, bytes, now) ==> to is Some
            &&& to is None ==> {
                let since: Option<u64> = v.flow_state(key).waiting_since;
                &&& since is Some ==> now < since->0 + 20
                &&& after.flow_state(key).waiting_since == Some(since.unwrap_or(now))
            }
            &&& to is Some ==> transfer_laws::has_room(v, to->0, bytes, now)
        }),
{
    reveal(SchedulerView::tcp_placed);
    let all: Seq<usize> = v.data_paths(now);
    target_laws::lemma_data_paths(v, now);
    let flags: Seq<bool> = bond::budget_flags(v.paths, bytes, false, now);
    let open: Seq<usize> = placement::kept(all, flags);
    let n: nat = v.paths.len();
    assert(placement::within(all, n)) by {
        assert forall|i: int| 0 <= i < all.len() implies (#[trigger] all[i]) < n by {
            assert(all.contains(all[i]));
        }
    }
    placement::lemma_kept(all, flags, n);
    let costs: Seq<Binary64> = bond::tcp_costs(v.paths, bytes, now);
    placement::lemma_cheapest(open, costs, n);
    assert(flags[k as int]);
    assert(open.contains(k));
    let c: usize = placement::cheapest(open, costs)->0;
    assert(open.contains(c));
    assert(flags[c as int]);
    let i: int = choose|i: int| 0 <= i < all.len() && all[i] == k;
    assert(all.contains(all[0]));
    lemma_wait_limit(v.paths[all[0] as int]);
}

/// A time of at most some number of units, all of them small enough to be added.
pub open spec fn timely(x: Binary64, most: nat) -> bool {
    binary64_laws::plain(x) && binary64_laws::units(x) <= most && most <= pow2(1200)
}

proof fn lemma_latest(a: Binary64, b: Binary64)
    requires
        binary64_laws::plain(a),
        timely(b, pow2(1200)),
    ensures
        binary64_laws::plain(a.max(b)),
        a.max(b) == a || a.max(b) == b,
{
    reveal(binary64::spec_lt);
}

/// A number is the same number to within any part of it.
proof fn lemma_same(x: nat)
    ensures
        binary64_approx::approx(x * 1, x, 8),
{
    assert(x * 1 == x);
    assert(x * (0x4_0000_0000_0000 + 8) == x * 0x4_0000_0000_0008);
    assert(x * (0x4_0000_0000_0000 - 8) == x * 0x3_ffff_ffff_fff8);
}

/// The backlog of a flow is sent at the rate of the path: it is through no
/// sooner than its bytes take.
proof fn lemma_backlog(
    v: SchedulerView,
    fast: usize,
    flow: TcpFlow,
    bytes: usize,
    backlog: usize,
    now: u64,
)
    requires
        now < 0x10_0000_0000_0000,
        bytes <= backlog,
        backlog - bytes <= 0x100_0000_0000,
        binary64_approx::sized(v.paths[fast as int].tcp_bytes_per_ms(now), 1074, 1180),
        timely(v.paths[fast as int].tcp_send_wait_ms(bytes, now), pow2(1200)),
        timely(v.paths[fast as int].tcp_forward_ms(now, bytes), pow2(1200)),
        timely(flow.last_arrival, pow2(1200)),
    ensures
        ({
            let one: nat = binary64_laws::one();
            let rate: nat = binary64_laws::units(v.paths[fast as int].tcp_bytes_per_ms(now));
            let end: Binary64 = v.fast_finish(fast, flow, bytes, backlog, now).plus(
                Binary64::ratio(1, 4),
            );
            &&& binary64_laws::plain(end)
            &&& ((backlog - bytes) as nat * (one * one)) * 10_000_000 <= (binary64_laws::units(end)
                * rate) * 10_000_001
        }),
{
    let p: Path = v.paths[fast as int];
    let one: nat = binary64_laws::one();
    let rate: Binary64 = p.tcp_bytes_per_ms(now);
    let r: nat = binary64_laws::units(rate);
    let left: u64 = (backlog - bytes) as u64;
    let wait: Binary64 = p.tcp_send_wait_ms(bytes, now);
    let forward: Binary64 = p.tcp_forward_ms(now, bytes);
    transfer_laws::lemma_ones();
    lemma2_to64();
    binary64_laws::whole_numbers_are_exact(now);
    binary64_laws::whole_numbers_are_exact(4);
    binary64_laws::lemma_scaled(1, 64, 1074);
    binary64_laws::lemma_scaled(1, 2, 1074);
    binary64::lemma_pow2_monotone(1138, 1200);
    binary64::lemma_pow2_monotone(1074, 1076);
    binary64::lemma_pow2_monotone(1076, 1180);
    binary64::lemma_pow2_monotone(1115, 1200);
    binary64_laws::lemma_scaled(1, 1200, 8);
    binary64::lemma_pow2_monotone(1208, 2098);
    assert(pow2(64) == 0x1_0000_0000_0000_0000);
    assert(now * one <= pow2(64) * one) by (nonlinear_arith)
        requires
            now < pow2(64),
    ;
    let e: Binary64 = Binary64::whole(now);
    binary64_laws::a_sum_is_near(e, wait);
    binary64_laws::a_sum_is_near(e.plus(wait), forward);
    let a: Binary64 = e.plus(wait).plus(forward);
    lemma_latest(a, flow.last_arrival);
    let m: Binary64 = a.max(flow.last_arrival);
    lemma_same(r);
    transfer_laws::lemma_drain(left, rate, r, 1);
    let y: Binary64 = Binary64::whole(left).over(rate);
    let four: Binary64 = Binary64::whole(4);
    let f: nat = binary64_laws::units(four);
    lemma_same(f);
    transfer_laws::lemma_drain(1, four, f, 1);
    let q: Binary64 = Binary64::ratio(1, 4);
    binary64_laws::a_sum_is_near(m, y);
    let s: Binary64 = m.plus(y);
    assert(s == v.fast_finish(fast, flow, bytes, backlog, now));
    binary64_laws::a_sum_is_near(s, q);
    let end: Binary64 = s.plus(q);
    let x: nat = binary64_laws::units(end);
    let u: nat = binary64_laws::units(y);
    assert(u * 100_000_000 <= x * 100_000_001);
    let need: nat = left as nat * (one * one);
    assert(need * 1 == need);
    assert((need * 1) * 100_000_000 <= (u * r) * 100_000_001);
    assert((u * r) * 100_000_000 <= (x * r) * 100_000_001) by (nonlinear_arith)
        requires
            u * 100_000_000 <= x * 100_000_001,
    ;
}

/// A flow does not wait for the nearest path where its backlog alone, at the
/// rate of that path, takes as long as a packet takes on every other: the packet
/// goes out.
pub proof fn a_long_backlog_does_not_wait(
    v: SchedulerView,
    key: u128,
    bytes: usize,
    backlog: usize,
    now: u64,
    k: usize,
    most: nat,
)
    requires
        v.paths.len() <= usize::MAX,
        transfer_laws::has_room(v, k, bytes, now),
        now < 0x10_0000_0000_0000,
        bytes <= backlog,
        backlog - bytes <= 0x100_0000_0000,
        timely(v.flow_state(key).last_arrival, most),
        forall|x: usize| #[trigger]
            v.data_paths(now).contains(x) ==> timely(
                Binary64::whole(now).plus(v.paths[x as int].tcp_forward_ms(now, bytes)),
                most,
            ),
        ({
            let p: Path = v.paths[v.data_paths(now)[0] as int];
            let one: nat = binary64_laws::one();
            &&& timely(p.tcp_send_wait_ms(bytes, now), pow2(1200))
            &&& timely(p.tcp_forward_ms(now, bytes), pow2(1200))
            &&& binary64_approx::sized(p.tcp_bytes_per_ms(now), 1074, 1180)
            &&& (most * binary64_laws::units(p.tcp_bytes_per_ms(now))) * 1_000_001 <= ((backlog
                - bytes) as nat * (one * one)) * 1_000_000
        }),
    ensures
        v.tcp_placed(key, bytes, backlog, now).1 is Some,
{
    reveal(SchedulerView::tcp_placed);
    let all: Seq<usize> = v.data_paths(now);
    target_laws::lemma_data_paths(v, now);
    let flags: Seq<bool> = bond::budget_flags(v.paths, bytes, false, now);
    let open: Seq<usize> = placement::kept(all, flags);
    let n: nat = v.paths.len();
    assert(placement::within(all, n)) by {
        assert forall|i: int| 0 <= i < all.len() implies (#[trigger] all[i]) < n by {
            assert(all.contains(all[i]));
        }
    }
    placement::lemma_kept(all, flags, n);
    let costs: Seq<Binary64> = bond::tcp_costs(v.paths, bytes, now);
    placement::lemma_cheapest(open, costs, n);
    assert(flags[k as int]);
    assert(open.contains(k));
    let c: usize = placement::cheapest(open, costs)->0;
    assert(open.contains(c));
    assert(all.contains(c));
    let flow: TcpFlow = TcpFlow { touched: now, ..v.flow_state(key) };
    lemma_backlog(v, all[0], flow, bytes, backlog, now);
    let end: Binary64 = v.fast_finish(all[0], flow, bytes, backlog, now).plus(
        Binary64::ratio(1, 4),
    );
    let slow: Binary64 = v.slow_arrival(c, flow, bytes, now);
    let there: Binary64 = Binary64::whole(now).plus(v.paths[c as int].tcp_forward_ms(now, bytes));
    lemma_latest(there, flow.last_arrival);
    assert(timely(slow, most));
    let x: nat = binary64_laws::units(end);
    let r: nat = binary64_laws::units(v.paths[all[0] as int].tcp_bytes_per_ms(now));
    lemma_pow2_pos(1074);
    assert(x >= most) by (nonlinear_arith)
        requires
            (most * r) * 1_000_001 * 10 <= (x * r) * 10_000_001,
            r > 0,
    ;
    binary64_laws::units_keep_order(end, slow);
    assert(!end.lt(slow)) by {
        reveal(binary64::spec_lt);
    }
}

} // verus!
