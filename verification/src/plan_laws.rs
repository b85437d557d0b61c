//! What a plan for a new flow comes to, in terms of what is measured.
use crate::binary64;
use crate::binary64::{Binary64, INFINITY_BITS};
use crate::binary64_approx;
use crate::binary64_laws;
use crate::binary64_size;
use crate::bond::Policy;
use crate::direct;
use crate::direct::Uplink;
use crate::link;
use crate::link_choice_laws;
use crate::link_laws;
use crate::placement;
use crate::plan;
use crate::plan::Scene;
use vstd::arithmetic::power2::*;
use vstd::prelude::*;

verus! {

/// Reading two texts from one place on: of two texts exactly one comes first
/// unless they agree, and what comes no later than what comes no later comes
/// no later.
proof fn lemma_text(a: Seq<u8>, b: Seq<u8>, c: Seq<u8>, i: int)
    requires
        0 <= i <= a.len(),
        i <= b.len(),
        i <= c.len(),
        !direct::text_before(b, a, i),
        !direct::text_before(c, b, i),
    ensures
        !direct::text_before(c, a, i),
    decreases a.len() - i,
{
    if i < a.len() && i < c.len() && i < b.len() {
        if a[i] == b[i] && b[i] == c[i] {
            lemma_text(a, b, c, i + 1);
        }
    }
}

/// Names come in one order.
proof fn lemma_names(a: Seq<char>, b: Seq<char>, c: Seq<char>)
    requires
        !direct::name_before(b, a),
        !direct::name_before(c, b),
    ensures
        !direct::name_before(c, a),
{
    lemma_text(
        vstd::utf8::encode_utf8(a),
        vstd::utf8::encode_utf8(b),
        vstd::utf8::encode_utf8(c),
        0,
    );
}

proof fn lemma_not_before(a: Seq<u8>, b: Seq<u8>, i: int)
    requires
        0 <= i <= a.len(),
        i <= b.len(),
        direct::text_before(a, b, i),
    ensures
        !direct::text_before(b, a, i),
    decreases b.len() - i,
{
    if i < a.len() && i < b.len() && a[i] == b[i] {
        lemma_not_before(a, b, i + 1);
    }
}

/// How far away an uplink is taken to be: by its delay, or farthest while that
/// is not known.
pub open spec fn far(u: Uplink) -> int {
    if u.rtt_us > 0 {
        u.rtt_us as int
    } else {
        u64::MAX as int
    }
}

/// Whether one uplink stands no worse than another: it is proven where the
/// other is, and then it is no farther away, and then its name comes no later.
pub open spec fn stands_no_worse(s: Scene, p: int, q: int) -> bool {
    let a: Uplink = s.paths[p].link;
    let b: Uplink = s.paths[q].link;
    &&& s.unproven(p) ==> s.unproven(q)
    &&& s.unproven(p) == s.unproven(q) ==> {
        &&& far(a) <= far(b)
        &&& far(a) == far(b) ==> !direct::name_before(s.paths[q].name, s.paths[p].name)
    }
}

proof fn lemma_safest(s: Scene, list: Seq<usize>)
    ensures
        list.len() > 0 ==> s.safest(list) is Some,
        match s.safest(list) {
            Some(p) => list.contains(p) && forall|i: int|
                0 <= i < list.len() ==> #[trigger] stands_no_worse(
                    s,
                    p as int,
                    list[i] as int,
                ),
            None => list.len() == 0,
        },
    decreases list.len(),
{
    if list.len() > 0 {
        let rest: Seq<usize> = list.drop_last();
        let x: usize = list.last();
        lemma_safest(s, rest);
        let p: usize = s.safest(list)->0;
        assert(list[list.len() - 1] == x);
        if rest.len() > 0 {
            let best: usize = s.safest(rest)->0;
            let k: int = choose|k: int| 0 <= k < rest.len() && rest[k] == best;
            assert(list[k] == best);
            lemma_self(vstd::utf8::encode_utf8(s.paths[x as int].name), 0);
            if s.rather(x as int, best as int) && direct::name_before(
                s.paths[x as int].name,
                s.paths[best as int].name,
            ) {
                lemma_not_before(
                    vstd::utf8::encode_utf8(s.paths[x as int].name),
                    vstd::utf8::encode_utf8(s.paths[best as int].name),
                    0,
                );
            }
        } else {
            lemma_self(vstd::utf8::encode_utf8(s.paths[x as int].name), 0);
        }
        assert forall|i: int| 0 <= i < list.len() implies #[trigger] stands_no_worse(
            s,
            p as int,
            list[i] as int,
        ) by {
            if i < list.len() - 1 {
                let best: usize = s.safest(rest)->0;
                assert(rest[i] == list[i]);
                assert(stands_no_worse(s, best as int, rest[i] as int));
                if p == x && s.rather(x as int, best as int) {
                    if !direct::name_before(
                        s.paths[list[i] as int].name,
                        s.paths[best as int].name,
                    ) && !direct::name_before(s.paths[best as int].name, s.paths[x as int].name) {
                        lemma_names(
                            s.paths[x as int].name,
                            s.paths[best as int].name,
                            s.paths[list[i] as int].name,
                        );
                    }
                }
            }
        }
    }
}

proof fn lemma_self(a: Seq<u8>, i: int)
    requires
        0 <= i <= a.len(),
    ensures
        !direct::text_before(a, a, i),
    decreases a.len() - i,
{
    if i < a.len() {
        lemma_self(a, i + 1);
    }
}

/// What may be tried: a healthy uplink, or any while none is healthy; and to
/// save data no metered one while an unmetered one of those is there.
pub proof fn who_may_be_tried(s: Scene, i: usize)
    ensures
        s.eligible().contains(i) <==> may_be_tried(s, i),
{
    let n: nat = s.n();
    let all: Seq<usize> = placement::up_to(n);
    if n > 0 {
        plan::lemma_some_eligible(s);
    }
    let flags: Seq<bool> = Seq::new(n, |i: int| s.link(i).healthy);
    placement::lemma_kept(all, flags, n);
    placement::lemma_kept(s.healthy_list(), s.unmetered_flags(), n);
    let good: Seq<usize> = placement::kept(all, flags);
    let list: Seq<usize> = s.healthy_list();
    assert forall|x: usize| all.contains(x) <==> x < n by {
        if x < n {
            assert(all[x as int] == x);
        }
        if all.contains(x) {
            let k: int = choose|k: int| 0 <= k < all.len() && all[k] == x;
            assert(all[k] < n);
        }
    }
    assert forall|x: usize| good.contains(x) <==> x < n && s.paths[x as int].link.healthy by {
        if x < n {
            assert(flags[x as int] == s.link(x as int).healthy);
        }
    }
    if good.len() > 0 {
        assert(good.contains(good[0]));
    }
    assert forall|x: usize| list.contains(x) <==> #[trigger] well_enough(s, x) by {
        if x < n && s.paths[x as int].link.healthy {
            assert(good.contains(x));
        }
        if good.len() == 0 && x < n {
            assert forall|j: usize| (j as nat) < s.n() implies !(
            #[trigger] s.paths[j as int]).link.healthy by {
                assert(!good.contains(j));
            }
        }
        if good.len() > 0 {
            assert(s.paths[good[0] as int].link.healthy);
        }
    }
    let unmetered: Seq<usize> = placement::kept(list, s.unmetered_flags());
    assert forall|x: usize|
        unmetered.contains(x) <==> well_enough(s, x) && !s.paths[x as int].link.metered by {
        if x < n {
            assert(s.unmetered_flags()[x as int] == !s.link(x as int).metered);
        }
        assert(list.contains(x) <==> well_enough(s, x));
    }
    if unmetered.len() > 0 {
        assert(unmetered.contains(unmetered[0]));
    }
    if well_enough(s, i) && !s.paths[i as int].link.metered {
        assert(unmetered.contains(i));
    }
    if unmetered.len() == 0 {
        assert forall|j: usize| well_enough(s, j) implies (
        #[trigger] s.paths[j as int]).link.metered by {
            assert(!unmetered.contains(j));
        }
    } else {
        assert(well_enough(s, unmetered[0]) && !s.paths[unmetered[0] as int].link.metered);
    }
    assert(list.contains(i) <==> well_enough(s, i));
    assert(unmetered.contains(i) <==> well_enough(s, i) && !s.paths[i as int].link.metered);
}

/// Healthy, or there with none that is.
pub open spec fn well_enough(s: Scene, i: usize) -> bool {
    &&& i < s.paths.len()
    &&& s.paths[i as int].link.healthy || forall|j: usize|
        j < s.paths.len() ==> !(#[trigger] s.paths[j as int]).link.healthy
}

pub open spec fn may_be_tried(s: Scene, i: usize) -> bool {
    &&& well_enough(s, i)
    &&& s.policy == Policy::DataSaver && s.paths[i as int].link.metered ==> forall|j: usize|
        well_enough(s, j) ==> (#[trigger] s.paths[j as int]).link.metered
}

pub proof fn lemma_rotated(s: Scene, i: usize)
    requires
        s.n() > 0,
    ensures
        placement::within(s.rotated(), s.n()),
        s.rotated().len() == s.eligible().len(),
        s.rotated().contains(i) <==> s.eligible().contains(i),
{
    plan::lemma_some_eligible(s);
    let list: Seq<usize> = s.eligible();
    let o: int = s.cursor as int % list.len() as int;
    let turned: Seq<usize> = s.rotated();
    if list.contains(i) {
        let k: int = choose|k: int| 0 <= k < list.len() && list[k] == i;
        if k < o {
            assert(turned[k + list.len() - o] == i);
        } else {
            assert(turned[k - o] == i);
        }
    }
    if turned.contains(i) {
        let k: int = choose|k: int| 0 <= k < turned.len() && turned[k] == i;
        if k < list.len() - o {
            assert(list[k + o] == i);
        } else {
            assert(list[k + o - list.len()] == i);
        }
    }
}

pub proof fn lemma_first_flagged(list: Seq<usize>, flags: Seq<bool>, i: int)
    requires
        0 <= i <= list.len(),
    ensures
        match plan::first_flagged(list, flags, i) {
            Some(x) => list.contains(x) && flags[x as int],
            None => forall|k: int| i <= k < list.len() ==> !flags[(#[trigger] list[k]) as int],
        },
    decreases list.len() - i,
{
    if i < list.len() && !flags[list[i] as int] {
        lemma_first_flagged(list, flags, i + 1);
    }
}

/// A flow that is no conversation relies on the advised champion whenever that
/// one may be tried and is not held.
pub proof fn a_free_champion_is_relied_on(s: Scene, c: usize)
    requires
        !s.conversational(),
        may_be_tried(s, c),
        s.champion == Some(s.paths[c as int].name),
        !s.paths[c as int].link.upload_held(s.now),
    ensures
        s.decided().primary is Some,
        may_be_tried(s, s.decided().primary->0),
        s.paths[s.decided().primary->0 as int].name == s.paths[c as int].name,
        !s.paths[s.decided().primary->0 as int].link.upload_held(s.now),
{
    who_may_be_tried(s, c);
    lemma_rotated(s, c);
    lemma_first_flagged(s.rotated(), s.champion_flags(), 0);
    let k: int = choose|k: int| 0 <= k < s.rotated().len() && s.rotated()[k] == c;
    assert(s.champion_flags()[c as int]);
    assert(s.rotated()[k] == c);
    let p: usize = s.decided().primary->0;
    lemma_rotated(s, p);
    who_may_be_tried(s, p);
    assert(s.champion_flags()[p as int]);
}

/// While no advised champion is free, the uplink that a flow which is no
/// conversation relies on is one that may be tried and is not held, such that
/// no other of these stands better: a proven one goes before one that is not,
/// and among those of one standing the one of the least delay goes first, a
/// delay that is not known counting as the largest, and then the name.
pub proof fn the_primary_is_the_nearest(s: Scene, some: usize)
    requires
        !s.conversational(),
        may_be_tried(s, some),
        !s.paths[some as int].link.upload_held(s.now),
        forall|i: usize|
            may_be_tried(s, i) && s.champion == Some((#[trigger] s.paths[i as int]).name)
                ==> s.paths[i as int].link.upload_held(s.now),
    ensures
        s.decided().primary is Some,
        may_be_tried(s, s.decided().primary->0),
        !s.paths[s.decided().primary->0 as int].link.upload_held(s.now),
        forall|i: usize|
            may_be_tried(s, i) && !(#[trigger] s.paths[i as int]).link.upload_held(s.now)
                ==> stands_no_worse(s, s.decided().primary->0 as int, i as int),
{
    who_may_be_tried(s, some);
    lemma_rotated(s, some);
    let turned: Seq<usize> = s.rotated();
    lemma_first_flagged(turned, s.champion_flags(), 0);
    if plan::first_flagged(turned, s.champion_flags(), 0) is Some {
        let c: usize = plan::first_flagged(turned, s.champion_flags(), 0)->0;
        lemma_rotated(s, c);
        who_may_be_tried(s, c);
        assert(s.champion_flags()[c as int]);
        assert(s.champion == Some(s.paths[c as int].name));
    }
    let free: Seq<usize> = placement::kept(turned, s.free_flags());
    placement::lemma_kept(turned, s.free_flags(), s.n());
    assert(s.free_flags()[some as int]);
    assert(free.contains(some));
    lemma_safest(s, free);
    let p: usize = s.decided().primary->0;
    assert(s.safest(free) == Some(p));
    assert(free.contains(p));
    lemma_rotated(s, p);
    who_may_be_tried(s, p);
    assert(s.free_flags()[p as int]);
    assert forall|i: usize|
        may_be_tried(s, i) && !(#[trigger] s.paths[i as int]).link.upload_held(
            s.now,
        ) implies stands_no_worse(s, p as int, i as int) by {
        who_may_be_tried(s, i);
        lemma_rotated(s, i);
        assert(s.free_flags()[i as int]);
        assert(free.contains(i));
        let k: int = choose|k: int| 0 <= k < free.len() && free[k] == i;
        assert(stands_no_worse(s, p as int, free[k] as int));
    }
}

/// An uplink is proven by 64 KiB in either direction. Any hold puts it in doubt
/// until it is lifted, and so does advice for another uplink that gives it no
/// weight above the least.
pub proof fn delivery_proves(s: Scene, i: int)
    requires
        0 <= i < s.n(),
    ensures
        s.paths[i].link.upload_hold_until_ms > 0 ==> s.unproven(i),
        s.paths[i].link.acknowledged < 65_536 && s.paths[i].link.received < 65_536
            ==> s.unproven(i),
        s.paths[i].link.upload_hold_until_ms == 0 && (s.paths[i].link.acknowledged >= 65_536
            || s.paths[i].link.received >= 65_536) ==> {
            &&& s.champion is None ==> !s.unproven(i)
            &&& s.champion == Some(s.paths[i].name) ==> !s.unproven(i)
            &&& s.weight(i) is Some && s.weight(i)->0 > 1 ==> !s.unproven(i)
            &&& s.unproven(i) ==> s.champion is Some && (s.weight(i) is None || s.weight(i)->0
                <= 1)
        },
        s.champion is Some && s.champion != Some(s.paths[i].name) && (s.weight(i) is None
            || s.weight(i)->0 <= 1) ==> s.unproven(i),
{
}

// ---- Orders by cost --------------------------------------------------------------------

spec fn any() -> spec_fn(usize, usize) -> bool {
    |x: usize, y: usize| true
}

proof fn lemma_any(list: Seq<usize>)
    ensures
        placement::pairwise(list, any()),
{
    assert forall|i: int, j: int| #![trigger list[i], list[j]] 0 <= i < j < list.len() implies any()(
        list[i],
        list[j],
    ) by {
    }
}

/// How far an uplink is from a conversation, in microseconds: its delay, four
/// times its jitter, and half a second if all probes fail.
pub open spec fn call_burden(u: Uplink) -> nat {
    (u.rtt_us + 4 * u.jitter_us + u.probe_failure_ppm / 2) as nat
}

/// Whether the delay is known, and all of it is less than twelve days.
pub open spec fn callable(u: Uplink) -> bool {
    &&& u.rtt_us > 0
    &&& call_burden(u) <= 0x100_0000_0000
}

/// Whether an uplink is put off for conversations: it is beyond the cutoff, and
/// another that may be tried is within it.
pub open spec fn put_off(s: Scene, i: int) -> bool {
    &&& s.paths[i].link.rtt_us >= s.cutoff_us
    &&& exists|k: usize|
        may_be_tried(s, k) && 0 < (#[trigger] s.paths[k as int]).link.rtt_us < s.cutoff_us
}

proof fn lemma_put_off(s: Scene, i: int)
    requires
        s.n() > 0,
        0 <= i < s.n(),
    ensures
        s.delayed(i) == put_off(s, i),
{
    plan::lemma_some_eligible(s);
    let fast: Seq<usize> = placement::kept(s.eligible(), s.fast_flags());
    placement::lemma_kept(s.eligible(), s.fast_flags(), s.n());
    if fast.len() > 0 {
        let k: usize = fast[0];
        assert(fast.contains(k));
        assert(s.fast_flags()[k as int]);
        who_may_be_tried(s, k);
        assert(0 < s.paths[k as int].link.rtt_us < s.cutoff_us);
    }
    if exists|k: usize|
        may_be_tried(s, k) && 0 < (#[trigger] s.paths[k as int]).link.rtt_us < s.cutoff_us {
        let k: usize = choose|k: usize|
            may_be_tried(s, k) && 0 < (#[trigger] s.paths[k as int]).link.rtt_us < s.cutoff_us;
        who_may_be_tried(s, k);
        assert(s.fast_flags()[k as int]);
        assert(fast.contains(k));
    }
}

/// What advice divides the cost of a conversation by is the root of the weight.
spec fn divisor(weight: u32) -> Binary64 {
    Binary64::whole(weight as u64).sqrt()
}

proof fn lemma_divisor(a: u32, b: u32)
    requires
        1 <= a <= b <= 64,
    ensures
        binary64_laws::plain(divisor(a)),
        binary64_laws::plain(divisor(b)),
        binary64_laws::one() <= binary64_laws::units(divisor(a)) <= binary64_laws::units(
            divisor(b),
        ) <= 8 * binary64_laws::one(),
{
    let one: nat = binary64_laws::one();
    lemma_pow2_pos(1074);
    binary64_laws::whole_numbers_are_exact(1);
    binary64_laws::whole_numbers_are_exact(a as u64);
    binary64_laws::whole_numbers_are_exact(b as u64);
    binary64_laws::whole_numbers_are_exact(64);
    let x: Binary64 = Binary64::whole(a as u64);
    let y: Binary64 = Binary64::whole(b as u64);
    assert(1 * one <= a * one <= b * one <= 64 * one) by (nonlinear_arith)
        requires
            1 <= a <= b <= 64,
            one > 0,
    ;
    binary64_laws::units_keep_order(Binary64::whole(1), x);
    binary64_laws::units_keep_order(x, y);
    binary64_laws::units_keep_order(y, Binary64::whole(64));
    binary64_size::roots_keep_order(Binary64::whole(1), x);
    binary64_size::roots_keep_order(x, y);
    binary64_size::roots_keep_order(y, Binary64::whole(64));
    lemma_square(1);
    lemma_square(8);
    binary64_laws::units_keep_order(Binary64::whole(1).sqrt(), divisor(a));
    binary64_laws::units_keep_order(divisor(a), divisor(b));
    binary64_laws::units_keep_order(divisor(b), Binary64::whole(64).sqrt());
}

proof fn lemma_square(r: u64)
    requires
        1 <= r <= 8,
    ensures
        binary64_laws::plain(Binary64::whole((r * r) as u64).sqrt()),
        binary64_laws::units(Binary64::whole((r * r) as u64).sqrt()) == r * binary64_laws::one(),
{
    let one: nat = binary64_laws::one();
    lemma_pow2_pos(1074);
    assert(1 <= r * r <= 64) by (nonlinear_arith)
        requires
            1 <= r <= 8,
    ;
    let w: u64 = (r * r) as u64;
    binary64_laws::whole_numbers_are_exact(w);
    let k: nat = r as nat;
    assert((w * one) * one == (k * one) * (k * one)) by (nonlinear_arith)
        requires
            w == k * k,
    ;
    assert(w * one > 0) by (nonlinear_arith)
        requires
            w >= 1,
            one > 0,
    ;
    let x: Binary64 = Binary64::whole(w);
    if x.bits == 0 {
        binary64_laws::lemma_parts(x);
    }
    lemma2_to64();
    binary64_laws::lemma_scaled(1, 3, 1074);
    lemma_pow2_strictly_increases(1077, 2098);
    assert(k * one <= 8 * one) by (nonlinear_arith)
        requires
            k <= 8,
            one > 0,
    ;
    binary64_size::short_roots_are_exact(x, k, 1074);
}

proof fn lemma_call_cost(s: Scene, i: int, j: int)
    requires
        0 <= i < s.n(),
        0 <= j < s.n(),
        callable(s.paths[i].link),
        callable(s.paths[j].link),
    ensures
        ({
            let x: nat = call_burden(s.paths[i].link);
            let y: nat = call_burden(s.paths[j].link);
            let v: u32 = direct::within_range(s.weight(i), 16);
            let w: u32 = direct::within_range(s.weight(j), 16);
            let f: nat = binary64_laws::units(divisor(v));
            let g: nat = binary64_laws::units(divisor(w));
            &&& s.call_cost(i).bits < INFINITY_BITS && s.call_cost(j).bits < INFINITY_BITS
            &&& 1 <= v <= 64 && 1 <= w <= 64
            &&& x * g <= y * f ==> s.call_cost(i).bits <= s.call_cost(j).bits
            &&& (x * g) * 0x4000_0000_0001 <= (y * f) * 0x4000_0000_0000 ==> s.call_cost(i).bits
                < s.call_cost(j).bits
        }),
{
    let a: Uplink = s.paths[i].link;
    let b: Uplink = s.paths[j].link;
    let x: nat = call_burden(a);
    let y: nat = call_burden(b);
    assert(s.call_delay(i) == x && s.call_delay(j) == y);
    let v: u32 = direct::within_range(s.weight(i), 16);
    let w: u32 = direct::within_range(s.weight(j), 16);
    if v <= w {
        lemma_divisor(v, w);
    } else {
        lemma_divisor(w, v);
    }
    let one: nat = binary64_laws::one();
    lemma_pow2_pos(1074);
    binary64_laws::whole_numbers_are_exact(x as u64);
    binary64_laws::whole_numbers_are_exact(y as u64);
    let p: Binary64 = Binary64::whole(x as u64);
    let q: Binary64 = Binary64::whole(y as u64);
    let d: Binary64 = divisor(v);
    let e: Binary64 = divisor(w);
    let f: nat = binary64_laws::units(d);
    let g: nat = binary64_laws::units(e);
    lemma_call_range(x, f);
    lemma_call_range(y, g);
    binary64_laws::a_quotient_is_near(p, d);
    binary64_laws::a_quotient_is_near(q, e);
    assert((x * one) * g == (x * g) * one && (y * one) * f == (y * f) * one) by (nonlinear_arith);
    let m: nat = x * g;
    let n: nat = y * f;
    if m <= n {
        assert(m * one <= n * one) by (nonlinear_arith)
            requires
                m <= n,
                one > 0,
        ;
        binary64_laws::quotients_keep_order(p, d, q, e);
    }
    if m * 0x4000_0000_0001 <= n * 0x4000_0000_0000 {
        assert((m * one) * 0x4000_0000_0001 <= (n * one) * 0x4000_0000_0000) by (nonlinear_arith)
            requires
                m * 0x4000_0000_0001 <= n * 0x4000_0000_0000,
                one > 0,
        ;
        binary64_size::clear_quotients_differ(p, d, q, e);
    }
}

proof fn lemma_call_range(x: nat, f: nat)
    requires
        1 <= x <= 0x100_0000_0000,
        binary64_laws::one() <= f <= 8 * binary64_laws::one(),
    ensures
        f <= (x * binary64_laws::one()) * pow2(1022),
        x * binary64_laws::one() < f * pow2(1000),
        f > 0,
{
    let one: nat = binary64_laws::one();
    lemma_pow2_pos(1074);
    binary64::lemma_pow2_values();
    binary64::lemma_pow2_monotone(64, 1022);
    binary64::lemma_pow2_monotone(64, 1000);
    assert(f <= (x * one) * pow2(1022)) by (nonlinear_arith)
        requires
            f <= 8 * one,
            x >= 1,
            pow2(1022) >= 8,
            one > 0,
    ;
    assert(x * one < f * pow2(1000)) by (nonlinear_arith)
        requires
            f >= one,
            x <= 0x100_0000_0000,
            pow2(1000) >= 0x1_0000_0000_0000_0000,
            one > 0,
    ;
}

/// Of two uplinks that a conversation tries, both put off or neither, the one
/// of less cost comes first.
proof fn lemma_call_order(s: Scene, i: int, j: int)
    requires
        s.n() > 0,
        s.conversational(),
        0 <= i < s.decided().order.len(),
        0 <= j < s.decided().order.len(),
        s.decided().order[i] < s.n(),
        s.decided().order[j] < s.n(),
        put_off(s, s.decided().order[i] as int) == put_off(s, s.decided().order[j] as int),
        s.call_cost(s.decided().order[i] as int).key() < s.call_cost(
            s.decided().order[j] as int,
        ).key(),
    ensures
        i < j,
{
    let order: Seq<usize> = s.decided().order;
    plan::lemma_some_eligible(s);
    placement::lemma_ordered_within(s.eligible(), s.call_costs(), s.n());
    let sorted: Seq<usize> = placement::ordered(s.eligible(), s.call_costs());
    lemma_any(s.eligible());
    placement::lemma_ordered_pairwise(s.eligible(), s.call_costs(), any());
    let a: Seq<bool> = Seq::new(s.n(), |i: int| !s.delayed(i));
    let b: Seq<bool> = Seq::new(s.n(), |i: int| s.delayed(i));
    let rule: spec_fn(usize, usize) -> bool = placement::cheaper(s.call_costs(), any());
    placement::lemma_kept_pairwise(sorted, a, rule);
    placement::lemma_kept_pairwise(sorted, b, rule);
    let near: Seq<usize> = placement::kept(sorted, a);
    let far: Seq<usize> = placement::kept(sorted, b);
    assert(order == near + far);
    lemma_put_off(s, order[i] as int);
    lemma_put_off(s, order[j] as int);
    if i < near.len() {
        assert(near.contains(near[i]));
        assert(a[order[i] as int]);
    } else {
        assert(far.contains(far[i - near.len()]));
        assert(b[order[i] as int]);
    }
    if j < near.len() {
        assert(near.contains(near[j]));
        assert(a[order[j] as int]);
    } else {
        assert(far.contains(far[j - near.len()]));
        assert(b[order[j] as int]);
    }
    if j < i {
        if i < near.len() {
            assert(near[j] == order[j] && near[i] == order[i]);
            assert(rule(near[j], near[i]));
        } else {
            assert(far[j - near.len()] == order[j] && far[i - near.len()] == order[i]);
            assert(rule(far[j - near.len()], far[i - near.len()]));
        }
    }
}

/// Of two uplinks that a conversation tries with the same weight, both put off
/// or neither, the one with the smaller delay comes first, four times the
/// jitter and half the failure share in parts per million counting.
pub proof fn conversations_try_the_lighter_first(s: Scene, i: int, j: int)
    requires
        s.n() > 0,
        s.conversational(),
        0 <= i < s.decided().order.len(),
        0 <= j < s.decided().order.len(),
        s.decided().order[i] < s.n(),
        s.decided().order[j] < s.n(),
        ({
            let x: int = s.decided().order[i] as int;
            let y: int = s.decided().order[j] as int;
            &&& put_off(s, x) == put_off(s, y)
            &&& callable(s.paths[x].link)
            &&& callable(s.paths[y].link)
            &&& s.weight(x) == s.weight(y)
            &&& call_burden(s.paths[x].link) < call_burden(s.paths[y].link)
        }),
    ensures
        i < j,
{
    let x: int = s.decided().order[i] as int;
    let y: int = s.decided().order[j] as int;
    let w: u32 = direct::within_range(s.weight(x), 16);
    lemma_divisor(w, w);
    lemma_pow2_pos(1074);
    lemma_call_cost(s, x, y);
    let f: nat = binary64_laws::units(divisor(w));
    let a: nat = call_burden(s.paths[x].link);
    let b: nat = call_burden(s.paths[y].link);
    assert((a * f) * 0x4000_0000_0001 <= (b * f) * 0x4000_0000_0000) by (nonlinear_arith)
        requires
            a + 1 <= b,
            a <= 0x100_0000_0000,
            f >= 0,
    ;
    lemma_call_order(s, i, j);
}

/// Advice moves uplinks of a conversation by the root of the weight: one of a
/// weight of 64 may be eight times as far as one of a weight of 1. Weights count
/// from 1 to 64, and as 16 where none is given.
pub proof fn weight_counts_by_its_root(s: Scene, i: int, j: int, r: u64, t: u64)
    requires
        s.n() > 0,
        s.conversational(),
        0 <= i < s.decided().order.len(),
        0 <= j < s.decided().order.len(),
        s.decided().order[i] < s.n(),
        s.decided().order[j] < s.n(),
        1 <= r <= 8,
        1 <= t <= 8,
        ({
            let x: int = s.decided().order[i] as int;
            let y: int = s.decided().order[j] as int;
            &&& put_off(s, x) == put_off(s, y)
            &&& callable(s.paths[x].link)
            &&& callable(s.paths[y].link)
            &&& r * r == match s.weight(x) {
                Some(w) => if w < 1 {
                    1
                } else if w > 64 {
                    64
                } else {
                    w as int
                },
                None => 16,
            }
            &&& t * t == match s.weight(y) {
                Some(w) => if w < 1 {
                    1
                } else if w > 64 {
                    64
                } else {
                    w as int
                },
                None => 16,
            }
            &&& call_burden(s.paths[x].link) * t < call_burden(s.paths[y].link) * r
        }),
    ensures
        i < j,
{
    let x: int = s.decided().order[i] as int;
    let y: int = s.decided().order[j] as int;
    lemma_square(r);
    lemma_square(t);
    lemma_call_cost(s, x, y);
    let one: nat = binary64_laws::one();
    lemma_pow2_pos(1074);
    let f: nat = binary64_laws::units(divisor(direct::within_range(s.weight(x), 16)));
    let g: nat = binary64_laws::units(divisor(direct::within_range(s.weight(y), 16)));
    assert(f == r * one && g == t * one);
    let a: nat = call_burden(s.paths[x].link);
    let b: nat = call_burden(s.paths[y].link);
    let c: int = a * t;
    let d: int = b * r;
    assert(c <= 8 * 0x100_0000_0000) by (nonlinear_arith)
        requires
            c == a * t,
            a <= 0x100_0000_0000,
            t <= 8,
            a >= 0,
    ;
    assert((a * g) * 0x4000_0000_0001 <= (b * f) * 0x4000_0000_0000) by (nonlinear_arith)
        requires
            c == a * t,
            d == b * r,
            c + 1 <= d,
            c <= 8 * 0x100_0000_0000,
            f == r * one,
            g == t * one,
            one > 0,
    ;
    lemma_call_order(s, i, j);
}

/// An uplink whose delay is not known comes after all whose is, for a
/// conversation.
pub proof fn conversations_try_the_unknown_last(s: Scene, i: int, j: int)
    requires
        s.n() > 0,
        s.conversational(),
        0 <= i < s.decided().order.len(),
        0 <= j < s.decided().order.len(),
        s.decided().order[i] < s.n(),
        s.decided().order[j] < s.n(),
        ({
            let x: int = s.decided().order[i] as int;
            let y: int = s.decided().order[j] as int;
            &&& put_off(s, x) == put_off(s, y)
            &&& callable(s.paths[x].link)
            &&& s.paths[y].link.rtt_us == 0
        }),
    ensures
        i < j,
{
    let x: int = s.decided().order[i] as int;
    let y: int = s.decided().order[j] as int;
    lemma_call_cost(s, x, x);
    let v: u32 = direct::within_range(s.weight(x), 16);
    let w: u32 = direct::within_range(s.weight(y), 16);
    if v <= w {
        lemma_divisor(v, w);
    } else {
        lemma_divisor(w, v);
    }
    let one: nat = binary64_laws::one();
    lemma_pow2_pos(1074);
    let a: nat = call_burden(s.paths[x].link);
    // Far below what stands for an unknown delay.
    let half: u64 = 0x10_0000_0000_0000;
    binary64_laws::whole_numbers_are_exact(a as u64);
    binary64_laws::whole_numbers_are_exact(half);
    let p: Binary64 = Binary64::whole(a as u64);
    let h: Binary64 = Binary64::whole(half);
    let q: Binary64 = Binary64::whole((u64::MAX - 1) as u64);
    assert(h.bits <= q.bits && q.bits < INFINITY_BITS) by {
        reveal(binary64::spec_whole);
        binary64_laws::rounding_keeps_order(
            half as nat,
            false,
            (u64::MAX - 1) as nat,
            false,
            0,
        );
        binary64_laws::rounding_ignores_zeros((u64::MAX - 1) as nat, 0, 1074);
        binary64_laws::rounding_ignores_zeros(0x1_0000_0000_0000_0000, 0, 1074);
        binary64::lemma_pow2_values();
        binary64_laws::lemma_scaled(1, 64, 1074);
        lemma_pow2_strictly_increases(1138, 2098);
        assert(1 * pow2(1138) == pow2(1138));
        binary64_laws::short_numbers_are_exact(1, 1138);
        binary64_laws::rounding_keeps_order(
            (u64::MAX - 1) as nat,
            false,
            0x1_0000_0000_0000_0000,
            false,
            0,
        );
    }
    let d: Binary64 = divisor(v);
    let e: Binary64 = divisor(w);
    lemma_call_range(a, binary64_laws::units(d));
    assert(binary64_size::in_range(p, d));
    let f: nat = binary64_laws::units(d);
    let g: nat = binary64_laws::units(e);
    let uh: nat = binary64_laws::units(h);
    assert(uh == half * one);
    assert(binary64_size::in_range(h, e)) by {
        binary64::lemma_pow2_values();
        binary64::lemma_pow2_monotone(64, 1022);
        binary64::lemma_pow2_monotone(64, 1000);
        assert(g <= uh * pow2(1022)) by (nonlinear_arith)
            requires
                g <= 8 * one,
                uh == half * one,
                half == 0x10_0000_0000_0000,
                pow2(1022) >= 8,
                one > 0,
        ;
        assert(uh < g * pow2(1000)) by (nonlinear_arith)
            requires
                g >= one,
                uh == half * one,
                half == 0x10_0000_0000_0000,
                pow2(1000) >= 0x1_0000_0000_0000_0000,
                one > 0,
        ;
    }
    let up: nat = binary64_laws::units(p);
    assert((up * g) * 0x4000_0000_0001 <= (uh * f) * 0x4000_0000_0000) by (nonlinear_arith)
        requires
            up == a * one,
            a <= 0x100_0000_0000,
            g <= 8 * one,
            f >= one,
            uh == half * one,
            half == 0x10_0000_0000_0000,
            one > 0,
    ;
    binary64_size::clear_quotients_differ(p, d, h, e);
    binary64_laws::units_keep_order(h, q);
    let uq: nat = binary64_laws::units(q);
    assert(uh * g <= uq * g) by (nonlinear_arith)
        requires
            uh <= uq,
            g >= 0,
    ;
    binary64_laws::quotients_keep_order(h, e, q, e);
    assert(s.call_delay(y) == u64::MAX - 1);
    assert(s.call_delay(x) == a);
    lemma_call_order(s, i, j);
}

// ---- Shares ------------------------------------------------------------------------------

/// By how much more delay than the nearest has counts against an uplink, in
/// parts of a hundred thousand: nothing within 50 milliseconds, as much again
/// for every 100 milliseconds more, up to sixteen times; and nothing where a
/// delay is not known.
pub open spec fn lag(rtt_us: u64, best_us: u64) -> nat {
    if rtt_us == 0 || best_us == 0 || rtt_us <= best_us + 50_000 {
        100_000
    } else if rtt_us >= best_us + 1_550_000 {
        1_600_000
    } else {
        (50_000 + rtt_us - best_us) as nat
    }
}

proof fn lemma_excess(e: u64)
    requires
        e <= 0x20_0000_0000_0000,
    ensures
        ({
            let x: Binary64 = Binary64::whole(e).over(Binary64::whole(100_000));
            let u: nat = binary64_laws::units(x);
            &&& binary64_laws::plain(x)
            &&& u <= pow2(1130)
            &&& e == 0 ==> x.bits == 0
            &&& binary64_approx::approx(u * 100_000, e as nat * binary64_laws::one(), 1)
        }),
{
    let one: nat = binary64_laws::one();
    lemma_pow2_pos(1074);
    lemma_pow2_pos(1130);
    lemma2_to64();
    binary64::lemma_pow2_values();
    lemma_whole_size(100_000, 16, 17);
    let x: Binary64 = Binary64::whole(e).over(Binary64::whole(100_000));
    let u: nat = binary64_laws::units(x);
    binary64_laws::whole_numbers_are_exact(100_000);
    if e == 0 {
        reveal(binary64::spec_over);
        binary64_laws::whole_numbers_are_exact(0);
        assert(0 * one == 0);
        link_laws::lemma_unset(Binary64::whole(0));
        link_laws::lemma_unset(Binary64::whole(100_000));
        binary64_laws::lemma_parts(x);
    } else {
        lemma_whole_size(e, 0, 53);
        binary64_laws::lemma_scaled(1, 53, 1074);
        lemma_whole_units(e);
        binary64_approx::over_step(
            Binary64::whole(e),
            Binary64::whole(100_000),
            1074,
            1127,
            1090,
            1091,
        );
        binary64::lemma_pow2_monotone(1112, 1130);
        assert(u * (100_000 * one) == (u * 100_000) * one) by (nonlinear_arith);
        binary64_approx::lemma_approx_cancel(u * 100_000, e as nat * one, 1, one);
    }
}

proof fn lemma_whole_units(n: u64)
    requires
        n <= 0x20_0000_0000_0000,
    ensures
        binary64_laws::plain(Binary64::whole(n)),
        binary64_laws::units(Binary64::whole(n)) == n * binary64_laws::one(),
{
    if n < 0x20_0000_0000_0000 {
        binary64_laws::whole_numbers_are_exact(n);
    } else {
        reveal(binary64::spec_whole);
        binary64_laws::rounding_ignores_zeros(n as nat, 0, 1074);
        binary64::lemma_pow2_values();
        binary64_laws::lemma_scaled(1, 53, 1074);
        lemma_pow2_strictly_increases(1127, 2098);
        assert(1 * pow2(1127) == pow2(1127));
        binary64_laws::short_numbers_are_exact(1, 1127);
    }
}

proof fn lemma_whole_size(n: u64, a: nat, b: nat)
    requires
        n <= 0x20_0000_0000_0000,
        pow2(a) <= n <= pow2(b),
    ensures
        binary64_approx::sized(Binary64::whole(n), a + 1074, b + 1074),
{
    lemma_whole_units(n);
    binary64_laws::lemma_scaled(1, a, 1074);
    binary64_laws::lemma_scaled(1, b, 1074);
    let one: nat = binary64_laws::one();
    assert(pow2(a) * one <= n * one <= pow2(b) * one) by (nonlinear_arith)
        requires
            pow2(a) <= n <= pow2(b),
            one >= 0,
    ;
}

proof fn lemma_lag(rtt_us: u64, best_us: u64)
    requires
        rtt_us < 0x20_0000_0000_0000,
        best_us < 0x20_0000_0000_0000,
    ensures
        ({
            let f: Binary64 = direct::latency_factor(rtt_us, best_us);
            let one: nat = binary64_laws::one();
            let p: nat = lag(rtt_us, best_us);
            &&& binary64_laws::plain(f)
            &&& one <= binary64_laws::units(f) <= 16 * one
            &&& binary64_approx::approx(binary64_laws::units(f) * 100_000, p * one, 5)
            &&& p == 100_000 ==> f == Binary64::whole(1)
            &&& p <= 200_000 <==> Binary64::whole(2).ge(f)
        }),
{
    reveal(binary64::spec_lt);
    let one: nat = binary64_laws::one();
    lemma_pow2_pos(1074);
    lemma_whole_units(1);
    lemma_whole_units(2);
    lemma_whole_units(15);
    lemma_whole_units(16);
    lemma2_to64();
    let single: Binary64 = Binary64::whole(1);
    let f: Binary64 = direct::latency_factor(rtt_us, best_us);
    binary64_laws::units_keep_order(single, Binary64::whole(2));
    if rtt_us == 0 || best_us == 0 {
        assert((1 * one) * 100_000 == 100_000 * one);
        link_choice_laws::lemma_same(100_000 * one, 5);
    } else {
        let e: u64 = rtt_us.saturating_sub(best_us).saturating_sub(50_000);
        lemma_excess(e);
        let x: Binary64 = Binary64::whole(e).over(Binary64::whole(100_000));
        let u: nat = binary64_laws::units(x);
        let en: nat = e as nat * one;
        binary64::lemma_pow2_monotone(1074, 1130);
        binary64_laws::lemma_scaled(1, 1130, 3);
        lemma_pow2_strictly_increases(1133, 2098);
        binary64_laws::a_sum_is_near(single, x);
        let y: Binary64 = single.plus(x);
        let w: nat = binary64_laws::units(y);
        let p: nat = 100_000 + e as nat;
        let pn: nat = p * one;
        assert(pn == 100_000 * one + en) by (nonlinear_arith)
            requires
                pn == p * one,
                p == 100_000 + e as nat,
                en == e as nat * one,
        ;
        assert(en * (0x4_0000_0000_0000 + 1) == en * 0x4_0000_0000_0001);
        assert(en * (0x4_0000_0000_0000 - 1) == en * 0x3_ffff_ffff_ffff);
        assert(w * 100_000 * 0x4_0000_0000_0000 <= pn * 0x4_0000_0000_0003);
        assert(pn * 0x3_ffff_ffff_fffd <= w * 100_000 * 0x4_0000_0000_0000);
        assert(pn * (0x4_0000_0000_0000 + 5) == pn * 0x4_0000_0000_0005);
        assert(pn * (0x4_0000_0000_0000 - 5) == pn * 0x3_ffff_ffff_fffb);
        // No less than one, and sixteen from fifteen on.
        binary64_laws::lemma_parts(link::zero());
        binary64_laws::units_keep_order(link::zero(), x);
        binary64_laws::sums_keep_order(single, link::zero(), single, x);
        binary64_laws::a_sum_is_rounded(single, link::zero());
        binary64_laws::values_round_to_themselves(single);
        binary64_laws::units_keep_order(single, y);
        if e == 0 {
            assert(y == single);
        }
        let top: Binary64 = Binary64::whole(16);
        lemma_fifteen(e, x, y);
        binary64_laws::units_keep_order(y, top);
        binary64_laws::units_keep_order(top, y);
        binary64_laws::units_keep_order(Binary64::whole(2), y);
        if e <= 1_500_000 {
            assert(f == y || f == top && y.bits == top.bits);
        } else {
            assert(f == top || f == y && y.bits == top.bits);
            let tn: nat = 1_600_000 * one;
            assert((16 * one) * 100_000 == tn);
            link_choice_laws::lemma_same(tn, 5);
        }
        lemma_two(e, x, y);
        assert(p > 200_000 ==> w > 2 * one) by {
            if p > 200_000 {
                assert(pn >= 200_001 * one) by (nonlinear_arith)
                    requires
                        pn == p * one,
                        p >= 200_001,
                        one > 0,
                ;
            }
        }
        binary64_laws::units_keep_order(Binary64::whole(2), top);
    }
}

/// The factor reaches sixteen at an excess of fifteen hundred thousand.
proof fn lemma_fifteen(e: u64, x: Binary64, y: Binary64)
    requires
        e <= 0x20_0000_0000_0000,
        x == Binary64::whole(e).over(Binary64::whole(100_000)),
        binary64_laws::plain(x),
        y == Binary64::whole(1).plus(x),
        binary64_laws::plain(y),
    ensures
        e <= 1_500_000 ==> y.bits <= Binary64::whole(16).bits,
        e >= 1_500_000 ==> y.bits >= Binary64::whole(16).bits,
{
    lemma_excess_at(e, x, y, 15);
}

proof fn lemma_two(e: u64, x: Binary64, y: Binary64)
    requires
        e <= 0x20_0000_0000_0000,
        x == Binary64::whole(e).over(Binary64::whole(100_000)),
        binary64_laws::plain(x),
        y == Binary64::whole(1).plus(x),
        binary64_laws::plain(y),
    ensures
        e <= 100_000 ==> y.bits <= Binary64::whole(2).bits,
{
    lemma_excess_at(e, x, y, 1);
}

proof fn lemma_excess_at(e: u64, x: Binary64, y: Binary64, k: u64)
    requires
        e <= 0x20_0000_0000_0000,
        1 <= k <= 15,
        x == Binary64::whole(e).over(Binary64::whole(100_000)),
        binary64_laws::plain(x),
        y == Binary64::whole(1).plus(x),
        binary64_laws::plain(y),
    ensures
        e <= 100_000 * k ==> y.bits <= Binary64::whole((k + 1) as u64).bits,
        e >= 100_000 * k ==> y.bits >= Binary64::whole((k + 1) as u64).bits,
{
    let one: nat = binary64_laws::one();
    lemma_pow2_pos(1074);
    let m: u64 = (100_000 * k) as u64;
    lemma_whole_units(e);
    lemma_whole_units(m);
    lemma_whole_units(k);
    lemma_whole_units(1);
    lemma_whole_units((k + 1) as u64);
    lemma_whole_units(100_000);
    let c: Binary64 = Binary64::whole(100_000);
    let z: Binary64 = Binary64::whole(m).over(c);
    assert(z == Binary64::whole(k)) by {
        binary64::lemma_pow2_values();
        lemma2_to64();
        binary64_laws::lemma_scaled(1, 4, 1074);
        lemma_pow2_strictly_increases(1078, 2098);
        assert(k as nat * one <= 16 * one) by (nonlinear_arith)
            requires
                k <= 15,
                one > 0,
        ;
        assert((m * one) * one == (k as nat * one) * (100_000 * one)) by (nonlinear_arith)
            requires
                m == 100_000 * k,
        ;
        binary64_size::short_quotients_are_exact(Binary64::whole(m), c, k as nat, 1074);
        binary64_laws::units_keep_order(z, Binary64::whole(k));
    }
    let single: Binary64 = Binary64::whole(1);
    let next: Binary64 = Binary64::whole((k + 1) as u64);
    assert(single.plus(z) == next) by {
        binary64_laws::a_sum_is_rounded(single, z);
        assert(1 * one + k * one == (k + 1) * one) by (nonlinear_arith);
        binary64_laws::values_round_to_themselves(next);
    }
    let u: nat = 100_000 * one;
    if e <= m {
        assert((e * one) * u <= (m * one) * u) by (nonlinear_arith)
            requires
                e <= m,
                one > 0,
                u >= 0,
        ;
        binary64_laws::quotients_keep_order(Binary64::whole(e), c, Binary64::whole(m), c);
        binary64_laws::sums_keep_order(single, x, single, z);
    }
    if e >= m {
        assert((m * one) * u <= (e * one) * u) by (nonlinear_arith)
            requires
                m <= e,
                one > 0,
                u >= 0,
        ;
        binary64_laws::quotients_keep_order(Binary64::whole(m), c, Binary64::whole(e), c);
        binary64_laws::sums_keep_order(single, z, single, x);
    }
}

/// Whether a number is the least delay that is known of an uplink that may be
/// tried, or zero where none is known.
pub open spec fn is_least_delay(s: Scene, best: u64) -> bool {
    &&& forall|i: usize|
        may_be_tried(s, i) && (#[trigger] s.paths[i as int]).link.rtt_us > 0 ==> 0 < best
            <= s.paths[i as int].link.rtt_us
    &&& best > 0 ==> exists|i: usize|
        may_be_tried(s, i) && (#[trigger] s.paths[i as int]).link.rtt_us == best
}

proof fn lemma_least(s: Scene, best: u64, list: Seq<usize>)
    requires
        s.n() > 0,
        forall|k: int| 0 <= k < list.len() ==> may_be_tried(s, #[trigger] list[k]),
    ensures
        ({
            let least: u64 = plan::least_delay(s.paths, list);
            &&& forall|k: int|
                0 <= k < list.len() && s.paths[(#[trigger] list[k]) as int].link.rtt_us > 0
                    ==> 0 < least <= s.paths[list[k] as int].link.rtt_us
            &&& least > 0 ==> exists|k: int|
                0 <= k < list.len() && s.paths[(#[trigger] list[k]) as int].link.rtt_us == least
        }),
    decreases list.len(),
{
    if list.len() > 0 {
        let rest: Seq<usize> = list.drop_last();
        assert forall|k: int| 0 <= k < rest.len() implies may_be_tried(s, #[trigger] rest[k]) by {
            assert(rest[k] == list[k]);
        }
        lemma_least(s, best, rest);
        let least: u64 = plan::least_delay(s.paths, list);
        let before: u64 = plan::least_delay(s.paths, rest);
        assert(list[list.len() - 1] == list.last());
        assert forall|k: int|
            0 <= k < list.len() && s.paths[(#[trigger] list[k]) as int].link.rtt_us
                > 0 implies 0 < least <= s.paths[list[k] as int].link.rtt_us by {
            if k < list.len() - 1 {
                assert(rest[k] == list[k]);
            }
        }
        if least > 0 && least == before {
            let k: int = choose|k: int|
                0 <= k < rest.len() && s.paths[(#[trigger] rest[k]) as int].link.rtt_us == before;
            assert(list[k] == rest[k]);
        }
    }
}

proof fn lemma_best(s: Scene, best: u64)
    requires
        s.n() > 0,
        is_least_delay(s, best),
    ensures
        plan::least_delay(s.paths, s.eligible()) == best,
{
    let list: Seq<usize> = s.eligible();
    assert forall|k: int| 0 <= k < list.len() implies may_be_tried(s, #[trigger] list[k]) by {
        assert(list.contains(list[k]));
        who_may_be_tried(s, list[k]);
    }
    lemma_least(s, best, list);
    let least: u64 = plan::least_delay(s.paths, list);
    if best > 0 {
        let i: usize = choose|i: usize|
            may_be_tried(s, i) && (#[trigger] s.paths[i as int]).link.rtt_us == best;
        who_may_be_tried(s, i);
        let k: int = choose|k: int| 0 <= k < list.len() && list[k] == i;
        assert(s.paths[list[k] as int].link.rtt_us == best);
    }
    if least > 0 {
        let k: int = choose|k: int|
            0 <= k < list.len() && s.paths[(#[trigger] list[k]) as int].link.rtt_us == least;
        assert(may_be_tried(s, list[k]));
        assert(s.paths[list[k] as int].link.rtt_us > 0);
    }
}

/// The flows of an uplink, the next one among them.
pub open spec fn flows_with_next(u: Uplink) -> nat {
    u.busy as nat + u.connecting as nat + 1
}

/// Whether flows and delay are such as there are.
pub open spec fn loadable(u: Uplink) -> bool {
    &&& flows_with_next(u) <= 0x100_0000_0000
    &&& u.rtt_us < 0x20_0000_0000_0000
}

/// The weight of an uplink for shares: within 1 and 64, and 4 where none is
/// given.
pub open spec fn share_weight(s: Scene, i: int) -> nat {
    match s.weight(i) {
        Some(w) => if w < 1 {
            1
        } else if w > 64 {
            64
        } else {
            w as nat
        },
        None => 4,
    }
}

/// What an uplink's next flow costs, exactly to within a small part: flows over
/// weight, times the lag.
proof fn lemma_share_cost(s: Scene, i: int, best: u64)
    requires
        s.n() > 0,
        0 <= i < s.n(),
        is_least_delay(s, best),
        best < 0x20_0000_0000_0000,
        loadable(s.paths[i].link),
    ensures
        ({
            let c: Binary64 = s.share_cost(i);
            let one: nat = binary64_laws::one();
            let n: nat = flows_with_next(s.paths[i].link);
            let w: nat = share_weight(s, i);
            let p: nat = lag(s.paths[i].link.rtt_us, best);
            &&& binary64_laws::plain(c)
            &&& 1 <= w <= 64
            &&& binary64_approx::approx(
                binary64_laws::units(c) * (w * 100_000),
                (n * p) * one,
                10,
            )
            &&& p == 100_000 ==> c == Binary64::whole(n as u64).over(Binary64::whole(w as u64))
            &&& binary64_size::in_range(
                Binary64::whole(n as u64),
                Binary64::whole(w as u64),
            )
        }),
{
    let one: nat = binary64_laws::one();
    lemma_pow2_pos(1074);
    lemma_best(s, best);
    let u: Uplink = s.paths[i].link;
    let n: nat = flows_with_next(u);
    let w: nat = share_weight(s, i);
    let p: nat = lag(u.rtt_us, best);
    assert(u.load().wrapping_add(1) == n);
    assert(direct::within_range(s.weight(i), 4) == w);
    let f: Binary64 = s.penalty(i);
    lemma_lag(u.rtt_us, best);
    lemma2_to64();
    lemma2_to64_rest();
    lemma_whole_size(n as u64, 0, 40);
    lemma_whole_size(w as u64, 0, 6);
    lemma_whole_units(n as u64);
    lemma_whole_units(w as u64);
    let q: Binary64 = Binary64::whole(n as u64).over(Binary64::whole(w as u64));
    binary64_approx::over_step(
        Binary64::whole(n as u64),
        Binary64::whole(w as u64),
        1074,
        1114,
        1074,
        1080,
    );
    let c: Binary64 = s.share_cost(i);
    assert(c == q.times(f));
    binary64_laws::lemma_scaled(1, 4, 1074);
    binary64_approx::times_step(q, f, 1067, 1115, 1074, 1078);
    let cu: nat = binary64_laws::units(c);
    let qu: nat = binary64_laws::units(q);
    let fu: nat = binary64_laws::units(f);
    assert(qu * (w * one) == (qu * w) * one) by (nonlinear_arith);
    binary64_approx::lemma_approx_cancel(qu * w, n * one, 1, one);
    binary64_approx::lemma_approx_product(qu * w, n * one, 1, fu * 100_000, p * one, 5);
    binary64_approx::lemma_approx_scale(cu * one, qu * fu, 1, w * 100_000);
    assert((qu * fu) * (w * 100_000) == (qu * w) * (fu * 100_000)) by (nonlinear_arith);
    binary64_approx::lemma_approx_chain(
        (cu * one) * (w * 100_000),
        (qu * w) * (fu * 100_000),
        (n * one) * (p * one),
        1,
        7,
    );
    let y: nat = cu * (w * 100_000);
    let z: nat = (n * p) * one;
    assert((cu * one) * (w * 100_000) == y * one && (n * one) * (p * one) == z * one)
        by (nonlinear_arith)
        requires
            y == cu * (w * 100_000),
            z == (n * p) * one,
    ;
    binary64_approx::lemma_approx_cancel(y, z, 9, one);
    binary64_approx::lemma_approx_more(y, z, 9, 10);
    if p == 100_000 {
        lemma_times_one(q);
    }
    let un: nat = n * one;
    let uw: nat = w * one;
    binary64::lemma_pow2_values();
    binary64::lemma_pow2_monotone(64, 1022);
    binary64::lemma_pow2_monotone(64, 1000);
    assert(uw <= un * pow2(1022)) by (nonlinear_arith)
        requires
            uw == w * one,
            un == n * one,
            w <= 64,
            n >= 1,
            pow2(1022) >= 64,
            one > 0,
    ;
    assert(un < uw * pow2(1000)) by (nonlinear_arith)
        requires
            uw == w * one,
            un == n * one,
            w >= 1,
            n <= 0x100_0000_0000,
            pow2(1000) >= 0x1_0000_0000_0000_0000,
            one > 0,
    ;
    assert(uw > 0) by (nonlinear_arith)
        requires
            uw == w * one,
            w >= 1,
            one > 0,
    ;
}

proof fn lemma_times_one(q: Binary64)
    requires
        binary64_laws::plain(q),
    ensures
        q.times(Binary64::whole(1)) == q,
{
    lemma_whole_units(1);
    binary64_laws::a_product_is_rounded(q, Binary64::whole(1));
    let one: nat = binary64_laws::one();
    assert(1 * one == one);
    binary64_laws::rounding_ignores_zeros(binary64_laws::units(q), -1074, 1074);
    binary64_laws::values_round_to_themselves(q);
}

/// Of two uplinks of one rank, the one whose next flow costs less comes first.
proof fn lemma_share_order(s: Scene, i: int, j: int)
    requires
        s.n() > 0,
        !s.conversational(),
        0 <= i < s.decided().order.len(),
        0 <= j < s.decided().order.len(),
        s.rank(s.decided().order[i] as int) == s.rank(s.decided().order[j] as int),
        s.decided().order[i] < s.n(),
        s.decided().order[j] < s.n(),
        s.share_cost(s.decided().order[i] as int).key() < s.share_cost(
            s.decided().order[j] as int,
        ).key(),
    ensures
        i < j,
{
    plan::lemma_some_eligible(s);
    lemma_rotated(s, 0);
    placement::lemma_ordered_within(s.rotated(), s.share_costs(), s.n());
    let sorted: Seq<usize> = placement::ordered(s.rotated(), s.share_costs());
    lemma_any(s.rotated());
    placement::lemma_ordered_pairwise(s.rotated(), s.share_costs(), any());
    let rule: spec_fn(usize, usize) -> bool = placement::cheaper(s.share_costs(), any());
    placement::lemma_kept_pairwise(sorted, s.rank_flags(0), rule);
    placement::lemma_kept_pairwise(sorted, s.rank_flags(1), rule);
    placement::lemma_kept_pairwise(sorted, s.rank_flags(2), rule);
    placement::lemma_kept_pairwise(sorted, s.rank_flags(3), rule);
    let order: Seq<usize> = s.decided().order;
    plan::lemma_rank_at(s, sorted, i);
    plan::lemma_rank_at(s, sorted, j);
    let a: Seq<usize> = placement::kept(sorted, s.rank_flags(0));
    let b: Seq<usize> = placement::kept(sorted, s.rank_flags(1));
    let c: Seq<usize> = placement::kept(sorted, s.rank_flags(2));
    let d: Seq<usize> = placement::kept(sorted, s.rank_flags(3));
    assert(order == a + b + c + d);
    if j < i {
        if i < a.len() {
            assert(a[j] == order[j] && a[i] == order[i]);
            assert(rule(a[j], a[i]));
        } else if i < a.len() + b.len() {
            assert(b[j - a.len()] == order[j] && b[i - a.len()] == order[i]);
            assert(rule(b[j - a.len()], b[i - a.len()]));
        } else if i < a.len() + b.len() + c.len() {
            let k: int = a.len() + b.len() as int;
            assert(c[j - k] == order[j] && c[i - k] == order[i]);
            assert(rule(c[j - k], c[i - k]));
        } else {
            let k: int = a.len() + b.len() + c.len() as int;
            assert(d[j - k] == order[j] && d[i - k] == order[i]);
            assert(rule(d[j - k], d[i - k]));
        }
    }
}

/// Of two uplinks of one standing, neither of which lags, the one with fewer
/// flows for its weight comes first, the next flow counted.
pub proof fn flows_are_shared_by_weight(s: Scene, i: int, j: int, best: u64)
    requires
        s.n() > 0,
        !s.conversational(),
        is_least_delay(s, best),
        best < 0x20_0000_0000_0000,
        0 <= i < s.decided().order.len(),
        0 <= j < s.decided().order.len(),
        s.decided().order[i] < s.n(),
        s.decided().order[j] < s.n(),
        s.rank(s.decided().order[i] as int) == s.rank(s.decided().order[j] as int),
        ({
            let x: int = s.decided().order[i] as int;
            let y: int = s.decided().order[j] as int;
            &&& loadable(s.paths[x].link)
            &&& loadable(s.paths[y].link)
            &&& lag(s.paths[x].link.rtt_us, best) == 100_000
            &&& lag(s.paths[y].link.rtt_us, best) == 100_000
            &&& flows_with_next(s.paths[x].link) * share_weight(s, y) < flows_with_next(
                s.paths[y].link,
            ) * share_weight(s, x)
        }),
    ensures
        i < j,
{
    let x: int = s.decided().order[i] as int;
    let y: int = s.decided().order[j] as int;
    lemma_share_cost(s, x, best);
    lemma_share_cost(s, y, best);
    let one: nat = binary64_laws::one();
    lemma_pow2_pos(1074);
    let m: nat = flows_with_next(s.paths[x].link);
    let n: nat = flows_with_next(s.paths[y].link);
    let v: nat = share_weight(s, x);
    let w: nat = share_weight(s, y);
    lemma_whole_units(m as u64);
    lemma_whole_units(n as u64);
    lemma_whole_units(v as u64);
    lemma_whole_units(w as u64);
    let c: nat = m * w;
    let d: nat = n * v;
    assert(c <= 64 * 0x100_0000_0000) by (nonlinear_arith)
        requires
            c == m * w,
            m <= 0x100_0000_0000,
            w <= 64,
    ;
    assert((m * one) * (w * one) * 0x4000_0000_0001 <= (n * one) * (v * one) * 0x4000_0000_0000)
        by (nonlinear_arith)
        requires
            c == m * w,
            d == n * v,
            c + 1 <= d,
            c <= 64 * 0x100_0000_0000,
            one > 0,
    ;
    binary64_size::clear_quotients_differ(
        Binary64::whole(m as u64),
        Binary64::whole(v as u64),
        Binary64::whole(n as u64),
        Binary64::whole(w as u64),
    );
    lemma_share_order(s, i, j);
}

/// Of two uplinks of one standing, the one with clearly fewer flows for its
/// weight comes first, the next flow counted and each multiplied by its lag.
pub proof fn lag_counts_as_flows(s: Scene, i: int, j: int, best: u64)
    requires
        s.n() > 0,
        !s.conversational(),
        is_least_delay(s, best),
        best < 0x20_0000_0000_0000,
        0 <= i < s.decided().order.len(),
        0 <= j < s.decided().order.len(),
        s.decided().order[i] < s.n(),
        s.decided().order[j] < s.n(),
        s.rank(s.decided().order[i] as int) == s.rank(s.decided().order[j] as int),
        ({
            let x: int = s.decided().order[i] as int;
            let y: int = s.decided().order[j] as int;
            &&& loadable(s.paths[x].link)
            &&& loadable(s.paths[y].link)
            &&& binary64_size::clearly_less(
                (flows_with_next(s.paths[x].link) * lag(s.paths[x].link.rtt_us, best))
                    * share_weight(s, y),
                (flows_with_next(s.paths[y].link) * lag(s.paths[y].link.rtt_us, best))
                    * share_weight(s, x),
            )
        }),
    ensures
        i < j,
{
    let x: int = s.decided().order[i] as int;
    let y: int = s.decided().order[j] as int;
    lemma_share_cost(s, x, best);
    lemma_share_cost(s, y, best);
    let one: nat = binary64_laws::one();
    lemma_pow2_pos(1074);
    let a: nat = binary64_laws::units(s.share_cost(x));
    let b: nat = binary64_laws::units(s.share_cost(y));
    let m: nat = flows_with_next(s.paths[x].link) * lag(s.paths[x].link.rtt_us, best);
    let n: nat = flows_with_next(s.paths[y].link) * lag(s.paths[y].link.rtt_us, best);
    let v: nat = share_weight(s, x);
    let w: nat = share_weight(s, y);
    binary64_approx::lemma_approx_scale(a * (v * 100_000), m * one, 10, w);
    binary64_approx::lemma_approx_scale(b * (w * 100_000), n * one, 10, v);
    let c: nat = (v * w) * 100_000;
    assert((a * (v * 100_000)) * w == a * c && (b * (w * 100_000)) * v == b * c)
        by (nonlinear_arith)
        requires
            c == (v * w) * 100_000,
    ;
    let p: nat = (m * one) * w;
    let q: nat = (n * one) * v;
    assert(q > 0 && p * 1_000_001 <= q * 1_000_000) by (nonlinear_arith)
        requires
            p == (m * one) * w,
            q == (n * one) * v,
            (m * w) * 1_000_001 <= (n * v) * 1_000_000,
            n * v > 0,
            one > 0,
    ;
    binary64_approx::lemma_clear(a * c, b * c, p, q, 10);
    assert(a < b) by (nonlinear_arith)
        requires
            a * c < b * c,
            c >= 0,
    ;
    binary64_laws::units_keep_order(s.share_cost(x), s.share_cost(y));
    lemma_share_order(s, i, j);
}

/// Of uplinks that a flow which is no conversation tries: the one on trial comes
/// first; one that is held comes after all that are not; and one that has shown
/// nothing comes after the one relied on and those that are proven.
pub proof fn standing_comes_before_share(s: Scene, i: int, j: int)
    requires
        s.n() > 0,
        !s.conversational(),
        0 <= i < s.decided().order.len(),
        0 <= j < s.decided().order.len(),
        ({
            let x: int = s.decided().order[i] as int;
            let y: int = s.decided().order[j] as int;
            let trial: bool = s.decided().trial is Some
                && s.paths[s.decided().trial->0 as int].name == s.paths[y].name;
            let first: bool = s.decided().trial is Some
                && s.paths[s.decided().trial->0 as int].name == s.paths[x].name;
            let relied: bool = s.decided().primary is Some
                && s.paths[s.decided().primary->0 as int].name == s.paths[x].name;
            let other: bool = s.decided().primary is Some
                && s.paths[s.decided().primary->0 as int].name == s.paths[y].name;
            !trial && (first || !s.paths[x].link.upload_held(s.now) && (
            s.paths[y].link.upload_held(s.now) || !other && s.unproven(y) && (relied
                || !s.unproven(x))))
        }),
    ensures
        i < j,
{
    if j < i {
        plan::doubtful_uplinks_come_later(s, j, i);
    }
}

// ---- Trials ------------------------------------------------------------------------------

/// Whether an uplink may have the next flow on trial: it has shown nothing, is
/// not held, carries nothing, had its last trial five seconds ago or longer,
/// and lags by no more than 150 milliseconds unless the one relied on carries
/// eight flows or more.
pub open spec fn may_be_on_trial(s: Scene, i: usize, primary: usize, best: u64) -> bool {
    let u: Uplink = s.paths[i as int].link;
    let p: Uplink = s.paths[primary as int].link;
    &&& may_be_tried(s, i)
    &&& i != primary
    &&& s.unproven(i as int)
    &&& !u.upload_held(s.now)
    &&& u.busy + u.connecting == 0
    &&& s.now >= u.created_ms && s.now - u.created_ms >= u.last_trial_ms + 5_000
    &&& p.busy + p.connecting >= 8 || u.rtt_us == 0 || best == 0 || u.rtt_us <= best + 150_000
}

/// Something is on trial exactly when the one relied on carries a flow and some
/// uplink may be on trial, and then it is such an uplink.
pub proof fn trials_are_given(s: Scene, best: u64, i: usize)
    requires
        s.n() > 0,
        !s.conversational(),
        is_least_delay(s, best),
        best < 0x20_0000_0000_0000,
        forall|k: int| 0 <= k < s.n() ==> loadable((#[trigger] s.paths[k]).link)
            && s.paths[k].link.last_trial_ms <= u64::MAX - 5_000,
        forall|k: int, m: int| #![trigger s.paths[k], s.paths[m]]
            0 <= k < m < s.n() ==> s.paths[k].name != s.paths[m].name,
    ensures
        s.decided().primary is Some,
        may_be_tried(s, s.decided().primary->0),
        ({
            let p: usize = s.decided().primary->0;
            let busy: int = s.paths[p as int].link.busy + s.paths[p as int].link.connecting;
            &&& s.decided().trial is Some ==> busy > 0 && may_be_on_trial(
                s,
                s.decided().trial->0,
                p,
                best,
            )
            &&& busy > 0 && may_be_on_trial(s, i, p, best) ==> s.decided().trial is Some
        }),
{
    lemma_rotated(s, i);
    let turned: Seq<usize> = s.rotated();
    plan::lemma_some_eligible(s);
    lemma_first_flagged(turned, s.champion_flags(), 0);
    let free: Seq<usize> = placement::kept(turned, s.free_flags());
    placement::lemma_kept(turned, s.free_flags(), s.n());
    lemma_safest(s, free);
    assert(turned.contains(turned[0]));
    let p: usize = s.decided().primary->0;
    assert(s.primary() is Some && turned.contains(p)) by {
        if plan::first_flagged(turned, s.champion_flags(), 0) is None && free.len() > 0 {
            assert(free.contains(p));
        }
    }
    lemma_rotated(s, p);
    who_may_be_tried(s, p);
    lemma_first_flagged(turned, s.named_flags(Some(p)), 0);
    let k: int = choose|k: int| 0 <= k < turned.len() && turned[k] == p;
    assert(s.named_flags(Some(p))[p as int]);
    assert(!(!s.named_flags(Some(p))[turned[k] as int]));
    let f: usize = plan::first_flagged(turned, s.named_flags(Some(p)), 0)->0;
    assert(s.named_flags(Some(p))[f as int]);
    assert(turned.contains(f));
    lemma_rotated(s, f);
    who_may_be_tried(s, f);
    assert(s.paths[f as int].name == s.paths[p as int].name);
    assert(f == p) by {
        if f < p {
            assert(s.paths[f as int].name != s.paths[p as int].name);
        } else if p < f {
            assert(s.paths[p as int].name != s.paths[f as int].name);
        }
    }
    assert(loadable(s.paths[p as int].link));
    assert(s.primary_load() == s.paths[p as int].link.busy + s.paths[p as int].link.connecting);
    let flags: Seq<bool> = Seq::new(s.n(), |i: int| s.on_trial(i));
    lemma_first_flagged(turned, flags, 0);
    if s.decided().trial is Some {
        let t: usize = s.decided().trial->0;
        assert(turned.contains(t) && flags[t as int]);
        lemma_on_trial(s, best, t, p);
    }
    if may_be_on_trial(s, i, p, best) && s.primary_load() > 0 {
        lemma_on_trial(s, best, i, p);
        who_may_be_tried(s, i);
        let m: int = choose|m: int| 0 <= m < turned.len() && turned[m] == i;
        assert(flags[turned[m] as int]);
    }
}

proof fn lemma_on_trial(s: Scene, best: u64, i: usize, p: usize)
    requires
        s.n() > 0,
        is_least_delay(s, best),
        best < 0x20_0000_0000_0000,
        i < s.n(),
        p < s.n(),
        s.primary() == Some(p),
        loadable(s.paths[i as int].link),
        loadable(s.paths[p as int].link),
        s.paths[i as int].link.last_trial_ms <= u64::MAX - 5_000,
        s.primary_load() == s.paths[p as int].link.busy + s.paths[p as int].link.connecting,
        forall|k: int, m: int| #![trigger s.paths[k], s.paths[m]]
            0 <= k < m < s.n() ==> s.paths[k].name != s.paths[m].name,
    ensures
        s.rotated().contains(i) && s.on_trial(i as int) <==> may_be_on_trial(s, i, p, best),
{
    lemma_rotated(s, i);
    who_may_be_tried(s, i);
    lemma_best(s, best);
    let u: Uplink = s.paths[i as int].link;
    lemma_lag(u.rtt_us, best);
    assert((i == p) == (s.paths[i as int].name == s.paths[p as int].name)) by {
        if i < p {
            assert(s.paths[i as int].name != s.paths[p as int].name);
        } else if p < i {
            assert(s.paths[p as int].name != s.paths[i as int].name);
        }
    }
}

} // verus!
