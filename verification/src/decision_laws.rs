//! What advice, age and budget lead to, in terms of what was told and counted.
use crate::binary64;
use crate::binary64::Binary64;
use crate::binary64_laws;
use crate::binary64_size;
use crate::bond;
use crate::bond::SchedulerView;
use crate::brain::AdviceView;
use crate::direct::Intent;
use crate::flight;
use crate::flight::{Attempt, PendingView};
use crate::link::Link;
use crate::link_laws;
use crate::packet;
use crate::path::Path;
use crate::placement;
use crate::plan;
use crate::plan::{Scene, Source};
use crate::plan_laws;
use crate::repair;
use crate::runtime::RuntimeView;
use crate::target_laws;
use crate::timing_laws;
use crate::udp_lane;
use vstd::arithmetic::power2::*;
use vstd::prelude::*;

verus! {

// ---- Advice ----------------------------------------------------------------------------

/// Remote advice counts from when it came, for as long as it is valid but never
/// for five seconds or longer, and only where something was learned. While it
/// counts it goes before local advice, and local advice goes before none.
pub proof fn fresh_remote_advice_goes_first(s: RuntimeView, now: u64)
    ensures
        s.brain_advice is Some && s.brain_advice->0.advice.learned_paths > 0 && now
            < s.brain_advice->0.at + s.brain_advice->0.valid_for_ms && now < s.brain_advice->0.at
            + 5_000 && s.brain_advice->0.valid_for_ms > 0 ==> s.source(now) == Source::Cloud
            && s.advice(now) == Some(s.brain_advice->0.advice),
        s.brain_advice is None || s.brain_advice->0.advice.learned_paths == 0 || now
            >= s.brain_advice->0.at + s.brain_advice->0.valid_for_ms || now
            >= s.brain_advice->0.at + 5_000 ==> s.source(now) != Source::Cloud && s.advice(now)
            == s.local_advice,
{
}

/// A flow that is no conversation relies on the champion that advice names for
/// its direction, whenever that uplink may be tried and is not held.
pub proof fn flows_rely_on_the_champion_of_their_direction(
    s: RuntimeView,
    advice: AdviceView,
    intent: Intent,
    now: u64,
    c: usize,
)
    requires
        s.advice(now) == Some(advice),
        intent != Intent::Realtime,
        !s.scene(intent, now).conversational(),
        plan_laws::may_be_tried(s.scene(intent, now), c),
        !s.paths[c as int].link.upload_held(now),
        intent == Intent::Download ==> advice.download_champion == Some(s.paths[c as int].name),
        intent == Intent::Upload ==> advice.upload_champion == Some(s.paths[c as int].name),
        intent == Intent::Balanced ==> advice.balanced_champion == Some(s.paths[c as int].name),
    ensures
        ({
            let d: plan::Decision = s.scene(intent, now).decided();
            &&& d.primary is Some
            &&& s.paths[d.primary->0 as int].name == s.paths[c as int].name
            &&& !s.paths[d.primary->0 as int].link.upload_held(now)
        }),
{
    plan_laws::a_free_champion_is_relied_on(s.scene(intent, now), c);
}

/// The weight of an uplink in a plan is the one that advice gives it for the
/// direction of the flow; without advice it has none.
pub proof fn weights_are_those_of_the_direction(
    s: RuntimeView,
    intent: Intent,
    now: u64,
    i: int,
)
    ensures
        ({
            let scene: Scene = s.scene(intent, now);
            &&& s.advice(now) is None ==> scene.weight(i) is None && scene.champion is None
            &&& s.advice(now) is Some ==> {
                let a: AdviceView = s.advice(now)->0;
                &&& intent == Intent::Realtime ==> scene.weights == a.realtime_weights
                    && scene.champion is None
                &&& intent == Intent::Download ==> scene.weights == a.download_weights
                    && scene.champion == a.download_champion
                &&& intent == Intent::Upload ==> scene.weights == a.upload_weights
                    && scene.champion == a.upload_champion
                &&& intent == Intent::Balanced ==> scene.weights == a.weights && scene.champion
                    == a.balanced_champion
            }
        }),
{
}

/// While every uplink that may be tried is held, flows that are no conversation
/// take turns: each relies on the next uplink in order.
pub proof fn held_uplinks_take_turns(s: RuntimeView, intent: Intent, now: u64)
    requires
        s.paths.len() > 0,
        !s.scene(intent, now).conversational(),
        forall|i: usize|
            plan_laws::may_be_tried(s.scene(intent, now), i) ==> (
            #[trigger] s.paths[i as int]).link.upload_held(now),
    ensures
        ({
            let scene: Scene = s.scene(intent, now);
            let n: int = scene.eligible().len() as int;
            &&& n > 0
            &&& scene.decided().primary == Some(scene.eligible()[s.cursor as int % n])
            &&& s.cursor < usize::MAX ==> s.planned(intent, now).cursor == s.cursor + 1
        }),
{
    let scene: Scene = s.scene(intent, now);
    plan::lemma_some_eligible(scene);
    let list: Seq<usize> = scene.eligible();
    let o: int = scene.cursor as int % list.len() as int;
    let turned: Seq<usize> = scene.rotated();
    plan_laws::lemma_first_flagged(turned, scene.champion_flags(), 0);
    plan_laws::lemma_rotated(scene, 0);
    assert forall|x: usize| #[trigger] turned.contains(x) implies !scene.free(x as int) by {
        plan_laws::lemma_rotated(scene, x);
        plan_laws::who_may_be_tried(scene, x);
        assert(s.paths[x as int].link.upload_held(now));
    }
    if plan::first_flagged(turned, scene.champion_flags(), 0) is Some {
        let c: usize = plan::first_flagged(turned, scene.champion_flags(), 0)->0;
        assert(turned.contains(c));
        assert(c < scene.n()) by {
            let k: int = choose|k: int| 0 <= k < turned.len() && turned[k] == c;
            assert(turned[k] < scene.n());
        }
        assert(scene.champion_flags()[c as int]);
    }
    let free: Seq<usize> = placement::kept(turned, scene.free_flags());
    placement::lemma_kept(turned, scene.free_flags(), scene.n());
    if free.len() > 0 {
        let x: usize = free[0];
        assert(free.contains(x));
        assert(turned.contains(x));
        assert(x < scene.n());
        assert(scene.free_flags()[x as int]);
    }
    assert(turned[0] == list[o]);
}

// ---- Repairs ---------------------------------------------------------------------------

/// A packet is not repaired while a copy of it, on a path that carries data and
/// has not come back since, is younger than 70 milliseconds, nor while it is
/// younger than the delay, four times the jitter and 20 milliseconds of its
/// path by more than the millisecond and a small part.
pub proof fn young_copies_are_waited_for(
    s: SchedulerView,
    data: Seq<usize>,
    parcel: PendingView,
    now: u64,
    i: int,
)
    requires
        0 <= i < parcel.attempts.len(),
        ({
            let a: Attempt = parcel.attempts[i];
            let p: Path = s.paths[a.path as int];
            let age: nat = (if now > a.stamp {
                (now - a.stamp) as nat
            } else {
                0
            });
            &&& flight::is_current(s.paths, a)
            &&& data.contains(a.path)
            &&& target_laws::timed(p)
            &&& target_laws::span(p) < 0x1000_0000 * binary64_laws::one()
            &&& age < 70 || (age + 1) * binary64_laws::one() * 1_000_001 < (target_laws::span(p)
                + 20 * binary64_laws::one()) * 1_000_000
        }),
    ensures
        !s.repair_due(data, parcel, now),
{
    let a: Attempt = parcel.attempts[i];
    let p: Path = s.paths[a.path as int];
    timing_laws::repairs_wait_for_delay_and_pause(p);
    let one: nat = binary64_laws::one();
    lemma_pow2_pos(1074);
    let age: nat = now.saturating_sub(a.stamp) as nat;
    let ms: nat = p.repair_ms() as nat;
    if age >= ms {
        assert((ms + 1) * one <= (age + 1) * one) by (nonlinear_arith)
            requires
                ms <= age,
                one > 0,
        ;
    }
    assert(!repair::overdue(s.paths, data, a, now));
}

/// A packet is due for a repair two milliseconds after the last, once each of
/// its copies was sent before its path came back, or is on a path that carries
/// no data, or is older than 300 milliseconds and clearly older than its
/// path's delay, four times its jitter and 21 milliseconds.
pub proof fn old_copies_are_given_up(
    s: SchedulerView,
    data: Seq<usize>,
    parcel: PendingView,
    now: u64,
)
    requires
        now >= parcel.last_repair + 2,
        forall|i: int|
            0 <= i < parcel.attempts.len() ==> {
                let a: Attempt = #[trigger] parcel.attempts[i];
                let p: Path = s.paths[a.path as int];
                ||| !flight::is_current(s.paths, a)
                ||| !data.contains(a.path)
                ||| {
                    &&& target_laws::timed(p)
                    &&& target_laws::span(p) < 0x1000_0000 * binary64_laws::one()
                    &&& now >= a.stamp + 300
                    &&& (target_laws::span(p) + 20 * binary64_laws::one()) * 1_000_001 < (now
                        - a.stamp) * binary64_laws::one() * 1_000_000
                }
            },
    ensures
        s.repair_due(data, parcel, now),
{
    let one: nat = binary64_laws::one();
    lemma_pow2_pos(1074);
    assert forall|i: int| 0 <= i < parcel.attempts.len() implies repair::overdue(
        s.paths,
        data,
        #[trigger] parcel.attempts[i],
        now,
    ) by {
        let a: Attempt = parcel.attempts[i];
        let p: Path = s.paths[a.path as int];
        if flight::is_current(s.paths, a) && data.contains(a.path) {
            timing_laws::repairs_wait_for_delay_and_pause(p);
            let age: nat = (now - a.stamp) as nat;
            let ms: nat = p.repair_ms() as nat;
            if age < ms {
                assert(age * one < ms * one) by (nonlinear_arith)
                    requires
                        age < ms,
                        one > 0,
                ;
            }
        }
    }
}

/// What is no TCP is repaired on a candidate that does not carry it yet, the
/// first there is; only where all do may the first candidate carry it again.
pub proof fn other_traffic_is_repaired_on_a_fresh_path(
    list: Seq<usize>,
    paths: Seq<Path>,
    parcel: PendingView,
    now: u64,
    i: int,
)
    requires
        !packet::spec_ipv4_tcp(parcel.body),
        0 <= i < list.len(),
        !flight::current_on(paths, parcel.attempts, list[i]),
    ensures
        ({
            let to: Option<usize> = repair::repair_target(list, paths, parcel, now);
            &&& to is Some
            &&& !flight::current_on(paths, parcel.attempts, to->0)
            &&& exists|k: int|
                0 <= k <= i && (#[trigger] list[k]) == to->0 && forall|m: int|
                    0 <= m < k ==> flight::current_on(paths, parcel.attempts, #[trigger] list[m])
        }),
{
    lemma_first_unused(list, paths, parcel.attempts, 0, i);
}

proof fn lemma_first_unused(
    list: Seq<usize>,
    paths: Seq<Path>,
    attempts: Seq<Attempt>,
    j: int,
    i: int,
)
    requires
        0 <= j <= i < list.len(),
        !flight::current_on(paths, attempts, list[i]),
        forall|m: int| 0 <= m < j ==> flight::current_on(paths, attempts, #[trigger] list[m]),
    ensures
        ({
            let to: Option<usize> = repair::first_unused(list, paths, attempts, j);
            &&& to is Some
            &&& !flight::current_on(paths, attempts, to->0)
            &&& exists|k: int|
                0 <= k <= i && (#[trigger] list[k]) == to->0 && forall|m: int|
                    0 <= m < k ==> flight::current_on(paths, attempts, #[trigger] list[m])
        }),
    decreases i - j,
{
    if flight::current_on(paths, attempts, list[j]) {
        lemma_first_unused(list, paths, attempts, j + 1, i);
    } else {
        assert(list[j] == repair::first_unused(list, paths, attempts, j)->0);
    }
}

// ---- Budget ----------------------------------------------------------------------------

/// Copies for continuity are paid from what was saved: 256 bytes for every
/// millisecond, up to 80 KiB. A copy is granted exactly when that covers it, and
/// then it is spent.
pub proof fn copies_are_paid_from_savings(s: SchedulerView, bytes: usize, now: u64)
    requires
        s.refill_at <= now,
        s.tokens <= 81_920,
    ensures
        ({
            let earned: int = s.tokens + 256 * (now - s.refill_at);
            let have: int = if earned < 81_920 {
                earned
            } else {
                81_920
            };
            let (after, granted) = s.reserved(bytes, now);
            &&& granted <==> bytes <= have
            &&& granted ==> after.tokens == have - bytes
            &&& !granted ==> after.tokens == have
            &&& after.refill_at == now
            &&& after.paths == s.paths && after.pending == s.pending
        }),
{
    reveal(SchedulerView::reserved);
    assert(s.refilled(now) == if s.tokens + 256 * (now - s.refill_at) < 81_920 {
        s.tokens + 256 * (now - s.refill_at)
    } else {
        81_920
    });
}

// ---- The lane --------------------------------------------------------------------------

/// The lane takes paths by delay and jitter alone: of two measured paths the one
/// of clearly less delay, jitter and base together, counting jitter again by
/// twenties, has the greater quality.
pub proof fn the_lane_goes_by_delay_and_jitter(p: Path, q: Path, base: Binary64, now: u64)
    requires
        p.rtt_ms is Some && link_laws::quantity(p.rtt_ms->0),
        q.rtt_ms is Some && link_laws::quantity(q.rtt_ms->0),
        link_laws::quantity(p.jitter_ms),
        link_laws::quantity(q.jitter_ms),
        link_laws::quantity(base),
        ({
            let one: nat = binary64_laws::one();
            let b: nat = if binary64_laws::units(base) == 0 {
                one
            } else {
                binary64_laws::units(base)
            };
            let i: nat = binary64_laws::units(p.jitter_ms);
            let j: nat = binary64_laws::units(q.jitter_ms);
            binary64_size::clearly_less(
                (binary64_laws::units(p.rtt_ms->0) + i + b) * (20 * one + i),
                (binary64_laws::units(q.rtt_ms->0) + j + b) * (20 * one + j),
            )
        }),
    ensures
        udp_lane::link_of(q, now).spec_quality(base).lt(
            udp_lane::link_of(p, now).spec_quality(base),
        ),
        udp_lane::link_of(p, now).healthy() <==> p.enabled && p.ready(now),
{
    let one: nat = binary64_laws::one();
    lemma_pow2_pos(1074);
    lemma2_to64();
    binary64_laws::whole_numbers_are_exact(0);
    binary64_laws::whole_numbers_are_exact(1);
    assert(0 * one == 0 && 1 * one == one);
    binary64::lemma_pow2_monotone(974, 1074);
    binary64::lemma_pow2_monotone(1074, 1174);
    let a: Link = udp_lane::link_of(p, now);
    let b: Link = udp_lane::link_of(q, now);
    assert(link_laws::gauged(a) && link_laws::gauged(b));
    link_laws::lemma_quality(a, base);
    link_laws::lemma_quality(b, base);
    let w: nat = link_laws::worth(a);
    assert(link_laws::worth(b) == w);
    let f: nat = 50 * one;
    let x: nat = link_laws::wait_of(a, base);
    let y: nat = link_laws::wait_of(b, base);
    let u: nat = 20 * one + binary64_laws::units(p.jitter_ms);
    let v: nat = 20 * one + binary64_laws::units(q.jitter_ms);
    assert(link_laws::unrest(a) == (f + 0) * u && link_laws::unrest(b) == (f + 0) * v);
    assert(w * (y * (f * v)) > 0 && (w * (x * (f * u))) * 1_000_001 <= (w * (y * (f * v)))
        * 1_000_000) by (nonlinear_arith)
        requires
            (x * u) * 1_000_001 <= (y * v) * 1_000_000,
            y * v > 0,
            w > 0,
            f > 0,
    ;
    link_laws::better_links_have_more_quality(a, b, base);
}

// ---- Evidence --------------------------------------------------------------------------

/// A copy is taken for lost on its path after two acknowledgements of later
/// packets there, or after one that was sent long enough after it, and not
/// before.
pub proof fn two_later_acknowledgements_tell_a_loss(
    parcel: PendingView,
    index: usize,
    stamp: u64,
    next: u64,
)
    requires
        parcel.fast_repair_path is None,
        flight::attempt_on(parcel.attempts, index) is Some,
        flight::attempt_on(parcel.attempts, index)->0.evidence == 0,
    ensures
        ({
            let sent: u64 = flight::attempt_on(parcel.attempts, index)->0.stamp;
            let once: PendingView = bond::evidence_noted(parcel, index, stamp);
            let twice: PendingView = bond::evidence_noted(once, index, next);
            &&& once.fast_repair_path is Some <==> stamp >= sent + 10
            &&& once.fast_repair_path is Some ==> once.fast_repair_path == Some(index)
            &&& twice.fast_repair_path == Some(index)
            &&& once.attempts.len() == parcel.attempts.len()
        }),
{
    let i: int = flight::attempt_slot(parcel.attempts, index, 0);
    lemma_slot(parcel.attempts, index, 0);
    let once: PendingView = bond::evidence_noted(parcel, index, stamp);
    lemma_same_slot(parcel.attempts, once.attempts, index, 0);
}

proof fn lemma_slot(attempts: Seq<Attempt>, index: usize, i: int)
    requires
        0 <= i <= attempts.len(),
    ensures
        i <= flight::attempt_slot(attempts, index, i) <= attempts.len(),
    decreases attempts.len() - i,
{
    if i < attempts.len() && attempts[i].path != index {
        lemma_slot(attempts, index, i + 1);
    }
}

proof fn lemma_same_slot(a: Seq<Attempt>, b: Seq<Attempt>, index: usize, i: int)
    requires
        0 <= i <= a.len(),
        a.len() == b.len(),
        forall|k: int| 0 <= k < a.len() ==> (#[trigger] a[k]).path == b[k].path,
    ensures
        flight::attempt_slot(a, index, i) == flight::attempt_slot(b, index, i),
    decreases a.len() - i,
{
    if i < a.len() {
        assert(a[i].path == b[i].path);
        if a[i].path != index {
            lemma_same_slot(a, b, index, i + 1);
        }
    }
}

/// A path fails for silence after two seconds at the latest, and never within a
/// quarter of a second of an answer; one that never answered does not fail so.
pub proof fn silence_fails_a_path(p: Path, now: u64)
    requires
        binary64_laws::plain(p.jitter_ms),
        binary64_laws::units(p.jitter_ms) < pow2(2000),
    ensures
        p.last_response is Some && now > p.last_response->0 + 2_000 ==> repair::silent(p, now),
        p.last_response is Some && now <= p.last_response->0 + 250 ==> !repair::silent(p, now),
        p.last_response is None ==> !repair::silent(p, now),
        p.ready(now) ==> !repair::silent(p, now),
{
    timing_laws::silence_is_judged_by_jitter(p);
}

} // verus!
