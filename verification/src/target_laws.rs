//! Where a packet goes: the order of its paths, in terms of what is measured of
//! them and of the advice at hand.
use crate::binary64;
use crate::binary64::{Binary64, INFINITY_BITS};
use crate::binary64_laws;
use crate::binary64_size;
use crate::bond;
use crate::bond::SchedulerView;
use crate::path;
use crate::path::Path;
use crate::placement;
use vstd::arithmetic::power2::*;
use vstd::prelude::*;

verus! {

// ---- Delay and jitter of a path ---------------------------------------------------

/// The delay of a path as an exact number. One that was never measured counts
/// as 30 milliseconds.
pub open spec fn delay_of(p: Path) -> nat {
    match p.rtt_ms {
        Some(ms) => binary64_laws::units(ms),
        None => 30 * binary64_laws::one(),
    }
}

/// The delay of a path and four times its jitter.
pub open spec fn span(p: Path) -> nat {
    delay_of(p) + 4 * binary64_laws::units(p.jitter_ms)
}

/// Whether delay and jitter are times that a machine can measure: not
/// negative, and together not out of range.
pub open spec fn timed(p: Path) -> bool {
    &&& p.rtt_ms is Some ==> binary64_laws::plain(p.rtt_ms->0)
    &&& binary64_laws::plain(p.jitter_ms)
    &&& span(p) < pow2(2000)
}

/// Whether, besides, they are no shorter than any clock tells.
pub open spec fn tangible(p: Path) -> bool {
    timed(p) && span(p) >= pow2(100)
}

pub open spec fn paced_delay(p: Path) -> Binary64 {
    p.rtt_or(30).plus(Binary64::whole(4).times(p.jitter_ms))
}

pub proof fn lemma_span(p: Path)
    requires
        timed(p),
    ensures
        binary64_laws::plain(p.rtt_or(30)),
        binary64_laws::units(p.rtt_or(30)) == delay_of(p),
        binary64_laws::plain(paced_delay(p)),
        paced_delay(p) == binary64::rounded(false, span(p), -1074, false),
        binary64_laws::near(binary64_laws::units(paced_delay(p)), span(p)),
{
    binary64_laws::whole_numbers_are_exact(30);
    binary64_laws::lemma_scaled(1, 2000, 2);
    lemma2_to64();
    binary64::lemma_pow2_monotone(2002, 2098);
    binary64_laws::four_times_is_exact(p.jitter_ms);
    binary64_laws::a_sum_is_rounded(p.rtt_or(30), Binary64::whole(4).times(p.jitter_ms));
    binary64_laws::a_sum_is_near(p.rtt_or(30), Binary64::whole(4).times(p.jitter_ms));
}

// ---- Advice -----------------------------------------------------------------------

/// What advice of a weight divides the cost of a path by.
spec fn factor(weight: u32) -> Binary64 {
    Binary64::whole(weight as u64).over(Binary64::whole(16)).sqrt().clamp(
        Binary64::ratio(1, 2),
        Binary64::whole(2),
    )
}

proof fn lemma_sixteenth(weight: u32)
    requires
        1 <= weight <= 64,
    ensures
        ({
            let x: Binary64 = Binary64::whole(weight as u64).over(Binary64::whole(16));
            binary64_laws::plain(x) && x.bits > 0 && binary64_laws::units(x) == weight as nat
                * pow2(1070)
        }),
{
    let w: u64 = weight as u64;
    binary64_laws::whole_numbers_are_exact(w);
    binary64_laws::whole_numbers_are_exact(16);
    lemma2_to64();
    lemma_pow2_pos(1074);
    lemma_pow2_pos(1070);
    binary64_laws::lemma_scaled(1, 1070, 4);
    let one: nat = binary64_laws::one();
    let s: nat = pow2(1070);
    assert(one == s * 16);
    assert((w * one) * one == (w as nat * s) * (16 * one)) by (nonlinear_arith)
        requires
            one == s * 16,
    ;
    binary64_laws::lemma_scaled(1, 6, 1070);
    lemma_pow2_strictly_increases(1076, 2098);
    assert(w as nat * s <= 64 * s) by (nonlinear_arith)
        requires
            w <= 64,
            s > 0,
    ;
    binary64_size::short_quotients_are_exact(
        Binary64::whole(w),
        Binary64::whole(16),
        w as nat,
        1070,
    );
    let x: Binary64 = Binary64::whole(w).over(Binary64::whole(16));
    assert(w as nat * s > 0) by (nonlinear_arith)
        requires
            w >= 1,
            s > 0,
    ;
    if x.bits == 0 {
        binary64_laws::lemma_parts(x);
    }
}

/// The factor lies between one half and two, and grows with the weight. It is
/// one half up to a weight of 4, one at 16 and two at 64.
proof fn lemma_factor(a: u32, b: u32)
    requires
        1 <= a <= b <= 64,
    ensures
        binary64_laws::plain(factor(a)),
        binary64_laws::plain(factor(b)),
        pow2(1073) <= binary64_laws::units(factor(a)) <= binary64_laws::units(factor(b)) <= pow2(
            1075,
        ),
        a <= 4 ==> binary64_laws::units(factor(a)) == pow2(1073),
        a == 16 ==> binary64_laws::units(factor(a)) == pow2(1074),
        a == 64 ==> binary64_laws::units(factor(a)) == pow2(1075),
        b <= 4 ==> binary64_laws::units(factor(b)) == pow2(1073),
        b == 16 ==> binary64_laws::units(factor(b)) == pow2(1074),
        b == 64 ==> binary64_laws::units(factor(b)) == pow2(1075),
{
    binary64_size::a_half_is_exact();
    binary64_laws::whole_numbers_are_exact(2);
    lemma2_to64();
    binary64_laws::lemma_scaled(1, 1, 1074);
    let low: Binary64 = Binary64::ratio(1, 2);
    let high: Binary64 = Binary64::whole(2);
    assert(binary64_laws::units(high) == pow2(1075));
    lemma_pow2_strictly_increases(1073, 1075);
    binary64_laws::units_keep_order(low, high);
    lemma_sixteenth(a);
    lemma_sixteenth(b);
    lemma_sixteenth(4);
    lemma_sixteenth(16);
    lemma_sixteenth(64);
    let x: Binary64 = Binary64::whole(a as u64).over(Binary64::whole(16));
    let y: Binary64 = Binary64::whole(b as u64).over(Binary64::whole(16));
    assert(a as nat * pow2(1070) <= b as nat * pow2(1070)) by (nonlinear_arith)
        requires
            a <= b,
            pow2(1070) >= 0,
    ;
    binary64_laws::units_keep_order(x, y);
    binary64_size::roots_keep_order(x, y);
    binary64_size::bounds_keep_order(x.sqrt(), y.sqrt(), low, high);
    binary64_laws::units_keep_order(low, factor(a));
    binary64_laws::units_keep_order(factor(a), factor(b));
    binary64_laws::units_keep_order(factor(b), high);
    lemma_exact_factor(4, 1073);
    lemma_exact_factor(16, 1074);
    lemma_exact_factor(64, 1075);
    let four: Binary64 = Binary64::whole(4u32 as u64).over(Binary64::whole(16));
    if a <= 4 {
        assert(a as nat * pow2(1070) <= 4 * pow2(1070)) by (nonlinear_arith)
            requires
                a <= 4,
                pow2(1070) >= 0,
        ;
        binary64_laws::units_keep_order(x, four);
        binary64_size::roots_keep_order(x, four);
        binary64_laws::units_keep_order(four.sqrt(), low);
        binary64_size::bounds_keep_order(x.sqrt(), four.sqrt(), low, high);
    }
    if b <= 4 {
        assert(b as nat * pow2(1070) <= 4 * pow2(1070)) by (nonlinear_arith)
            requires
                b <= 4,
                pow2(1070) >= 0,
        ;
        binary64_laws::units_keep_order(y, four);
        binary64_size::roots_keep_order(y, four);
        binary64_laws::units_keep_order(four.sqrt(), low);
        binary64_size::bounds_keep_order(y.sqrt(), four.sqrt(), low, high);
    }
}

proof fn lemma_exact_factor(weight: u32, e: nat)
    requires
        weight == 4 && e == 1073 || weight == 16 && e == 1074 || weight == 64 && e == 1075,
    ensures
        ({
            let x: Binary64 = Binary64::whole(weight as u64).over(Binary64::whole(16));
            binary64_laws::plain(x.sqrt()) && binary64_laws::units(x.sqrt()) == pow2(e)
        }),
        binary64_laws::plain(factor(weight)),
        binary64_laws::units(factor(weight)) == pow2(e),
{
    lemma_sixteenth(weight);
    lemma2_to64();
    let x: Binary64 = Binary64::whole(weight as u64).over(Binary64::whole(16));
    let bits: nat = (2 * (e - 1072)) as nat;
    assert(weight as nat == pow2(bits));
    binary64_laws::lemma_scaled(1, bits, 1070);
    binary64_laws::lemma_scaled(1, bits + 1070, 1074);
    binary64_laws::lemma_scaled(1, e, e);
    assert(1 * pow2(e) == pow2(e));
    lemma_pow2_strictly_increases(e, 2098);
    binary64_size::short_roots_are_exact(x, 1, e);
    binary64_size::a_half_is_exact();
    binary64_laws::whole_numbers_are_exact(2);
    binary64_laws::lemma_scaled(1, 1, 1074);
    let low: Binary64 = Binary64::ratio(1, 2);
    let high: Binary64 = Binary64::whole(2);
    binary64::lemma_pow2_monotone(1073, e);
    binary64::lemma_pow2_monotone(e, 1075);
    binary64_laws::units_keep_order(low, x.sqrt());
    binary64_laws::units_keep_order(x.sqrt(), high);
    binary64_size::bounds_keep_order(x.sqrt(), x.sqrt(), low, high);
}

proof fn lemma_advised_weight(advice: Seq<(Seq<char>, u32)>, name: Seq<char>, i: int)
    ensures
        1 <= bond::advised_weight(advice, name, i) <= 64,
    decreases advice.len() - i,
{
    if i < advice.len() && advice[i].0 != name {
        lemma_advised_weight(advice, name, i + 1);
    }
}

/// With one weight, more delay and jitter never costs less, and clearly more
/// costs more. The same holds of delay and jitter over the factors of two
/// weights.
proof fn lemma_advised_cost(p: Path, q: Path, v: u32, w: u32)
    requires
        timed(p),
        timed(q),
        1 <= v <= 64,
        1 <= w <= 64,
    ensures
        ({
            let a: Binary64 = bond::advised_cost(p, v);
            let b: Binary64 = bond::advised_cost(q, w);
            let x: nat = span(p) * binary64_laws::units(factor(w));
            let y: nat = span(q) * binary64_laws::units(factor(v));
            &&& a.bits <= INFINITY_BITS && b.bits <= INFINITY_BITS
            &&& v >= w && span(p) <= span(q) ==> a.bits <= b.bits
            &&& tangible(p) && tangible(q) && binary64_size::clearly_less(x, y) ==> a.bits
                < b.bits
        }),
{
    lemma_span(p);
    lemma_span(q);
    if v <= w {
        lemma_factor(v, w);
    } else {
        lemma_factor(w, v);
    }
    lemma_pow2_pos(1073);
    let f: Binary64 = factor(v);
    let g: Binary64 = factor(w);
    let c: Binary64 = paced_delay(p);
    let d: Binary64 = paced_delay(q);
    assert(bond::advised_cost(p, v) == c.over(f));
    assert(bond::advised_cost(q, w) == d.over(g));
    binary64_laws::quotients_keep_order(c, f, c, f);
    binary64_laws::quotients_keep_order(d, g, d, g);
    let uc: nat = binary64_laws::units(c);
    let ud: nat = binary64_laws::units(d);
    let uf: nat = binary64_laws::units(f);
    let ug: nat = binary64_laws::units(g);
    if v >= w && span(p) <= span(q) {
        binary64_laws::rounding_keeps_order(span(p), false, span(q), false, -1074);
        binary64_laws::units_keep_order(c, d);
        assert(uc * ug <= ud * uf) by (nonlinear_arith)
            requires
                uc <= ud,
                ug <= uf,
        ;
        binary64_laws::quotients_keep_order(c, f, d, g);
    }
    let x: nat = span(p) * ug;
    let y: nat = span(q) * uf;
    if tangible(p) && tangible(q) && binary64_size::clearly_less(x, y) {
        lemma_in_range(p, f);
        lemma_in_range(q, g);
        binary64_size::lemma_near_scaled(uc, span(p), ug);
        binary64_size::lemma_near_scaled(ud, span(q), uf);
        let m: nat = uc * ug;
        let n: nat = ud * uf;
        assert(m * 0x4000_0000_0001 <= n * 0x4000_0000_0000);
        binary64_size::clear_quotients_differ(c, f, d, g);
    }
}

proof fn lemma_in_range(p: Path, f: Binary64)
    requires
        tangible(p),
        binary64_laws::plain(f),
        pow2(1073) <= binary64_laws::units(f) <= pow2(1075),
    ensures
        binary64_size::in_range(paced_delay(p), f),
{
    lemma_span(p);
    let u: nat = binary64_laws::units(paced_delay(p));
    let v: nat = binary64_laws::units(f);
    lemma_pow2_pos(1073);
    lemma_pow2_pos(100);
    lemma2_to64();
    binary64_laws::lemma_scaled(1, 99, 1);
    binary64_laws::lemma_scaled(1, 2000, 1);
    assert(u >= pow2(99));
    assert(u <= pow2(2001));
    binary64_laws::lemma_scaled(1, 99, 1022);
    binary64::lemma_pow2_monotone(1075, 1121);
    assert(v <= u * pow2(1022)) by (nonlinear_arith)
        requires
            v <= pow2(99) * pow2(1022),
            u >= pow2(99),
            pow2(1022) >= 0,
    ;
    binary64_laws::lemma_scaled(1, 1073, 1000);
    lemma_pow2_strictly_increases(2001, 2073);
    assert(u < v * pow2(1000)) by (nonlinear_arith)
        requires
            u < pow2(1073) * pow2(1000),
            v >= pow2(1073),
            pow2(1000) >= 0,
    ;
}

// ---- The order ----------------------------------------------------------------------

pub open spec fn rising() -> spec_fn(usize, usize) -> bool {
    |x: usize, y: usize| x < y
}

proof fn lemma_up_to(n: nat)
    requires
        n <= usize::MAX,
    ensures
        placement::pairwise(placement::up_to(n), rising()),
        forall|x: usize| #[trigger] placement::up_to(n).contains(x) ==> x < n,
{
    let all: Seq<usize> = placement::up_to(n);
    assert forall|i: int, j: int| #![trigger all[i], all[j]] 0 <= i < j < all.len() implies rising()(
        all[i],
        all[j],
    ) by {
        assert(all[i] == i && all[j] == j);
    }
}

pub open spec fn nearer(v: SchedulerView) -> spec_fn(usize, usize) -> bool {
    placement::cheaper(bond::delay_costs(v.paths), rising())
}

proof fn lemma_preferred(
    list: Seq<usize>,
    flags: Seq<bool>,
    before: spec_fn(usize, usize) -> bool,
)
    requires
        placement::pairwise(list, before),
    ensures
        placement::pairwise(bond::preferred(list, flags), before),
        forall|x: usize| #[trigger] bond::preferred(list, flags).contains(x) ==> list.contains(x),
{
    placement::lemma_kept_pairwise(list, flags, before);
}

/// Data goes by delay, and then by the number of the path. All of it goes on
/// paths that are ready.
pub proof fn lemma_data_paths(v: SchedulerView, now: u64)
    requires
        v.paths.len() <= usize::MAX,
    ensures
        placement::pairwise(v.data_paths(now), nearer(v)),
        forall|x: usize| #[trigger] v.data_paths(now).contains(x) ==> x < v.paths.len()
            && v.paths[x as int].ready(now),
{
    reveal(SchedulerView::data_paths);
    lemma_up_to(v.n());
    let flags: Seq<bool> = bond::ready_flags(v.paths, now);
    let ready: Seq<usize> = placement::kept(placement::up_to(v.n()), flags);
    placement::lemma_kept_pairwise(placement::up_to(v.n()), flags, rising());
    lemma_preferred(ready, bond::fresh_flags(v.paths, now), rising());
    let fresh: Seq<usize> = bond::preferred(ready, bond::fresh_flags(v.paths, now));
    placement::lemma_ordered_pairwise(fresh, bond::delay_costs(v.paths), rising());
    let near: Seq<usize> = placement::ordered(fresh, bond::delay_costs(v.paths));
    lemma_preferred(near, bond::unmetered_flags(v.paths), nearer(v));
    assert forall|x: usize| #[trigger] v.data_paths(now).contains(x) implies x < v.paths.len()
        && v.paths[x as int].ready(now) by {
        assert(near.contains(x));
        assert(fresh.contains(x));
        assert(ready.contains(x));
        assert(flags[x as int]);
        assert(placement::up_to(v.n()).contains(x));
    }
}

proof fn lemma_placement_paths(v: SchedulerView, interactive: bool, now: u64)
    requires
        v.paths.len() <= usize::MAX,
    ensures
        placement::pairwise(v.placement_paths(interactive, now), nearer(v)),
        forall|x: usize| #[trigger] v.placement_paths(interactive, now).contains(x) ==> x
            < v.paths.len() && v.paths[x as int].ready(now),
{
    reveal(SchedulerView::placement_paths);
    lemma_data_paths(v, now);
    let ready: Seq<usize> = v.data_paths(now);
    placement::lemma_kept_pairwise(ready, bond::low_delay_flags(v.paths), nearer(v));
    let chosen: Seq<usize> = v.placement_paths(interactive, now);
    assert forall|x: usize| #[trigger] chosen.contains(x) implies ready.contains(x) by {
        if interactive && chosen.len() == 1 && chosen =~= ready.take(1) {
            assert(ready[0] == x);
        }
    }
}

pub open spec fn open_paths(v: SchedulerView, bytes: usize, interactive: bool, now: u64) -> Seq<usize> {
    placement::kept(
        v.placement_paths(interactive, now),
        bond::budget_flags(v.paths, bytes, interactive, now),
    )
}

pub proof fn lemma_open_paths(v: SchedulerView, bytes: usize, interactive: bool, now: u64)
    requires
        v.paths.len() <= usize::MAX,
    ensures
        placement::pairwise(open_paths(v, bytes, interactive, now), nearer(v)),
        forall|x: usize| #[trigger] open_paths(v, bytes, interactive, now).contains(x) ==> x
            < v.paths.len() && v.paths[x as int].ready(now),
{
    lemma_placement_paths(v, interactive, now);
    placement::lemma_kept_pairwise(
        v.placement_paths(interactive, now),
        bond::budget_flags(v.paths, bytes, interactive, now),
        nearer(v),
    );
}

/// The weight that advice gives a path.
pub open spec fn weight_of(v: SchedulerView, x: usize) -> u32 {
    bond::advised_weight(v.advice, v.names[x as int], 0)
}

proof fn lemma_advised_order(v: SchedulerView, bytes: usize, now: u64)
    requires
        v.paths.len() <= usize::MAX,
        now < v.advice_until,
    ensures
        placement::pairwise(
            v.targets(bytes, true, now),
            placement::cheaper(
                bond::advised_costs(v.paths, v.names, v.advice),
                nearer(v),
            ),
        ),
        forall|x: usize| #[trigger] v.targets(bytes, true, now).contains(x) ==> x < v.paths.len(),
{
    reveal(SchedulerView::targets);
    lemma_open_paths(v, bytes, true, now);
    placement::lemma_ordered_pairwise(
        open_paths(v, bytes, true, now),
        bond::advised_costs(v.paths, v.names, v.advice),
        nearer(v),
    );
}

/// While advice is valid and gives two paths the same weight, an interactive
/// packet's targets list the path with clearly less delay and jitter first,
/// four times the jitter counting.
pub proof fn steadier_paths_go_first(
    v: SchedulerView,
    bytes: usize,
    now: u64,
    i: int,
    j: int,
)
    requires
        v.paths.len() <= usize::MAX,
        now < v.advice_until,
        0 <= i < v.targets(bytes, true, now).len(),
        0 <= j < v.targets(bytes, true, now).len(),
        ({
            let x: usize = v.targets(bytes, true, now)[i];
            let y: usize = v.targets(bytes, true, now)[j];
            &&& weight_of(v, x) == weight_of(v, y)
            &&& tangible(v.paths[x as int])
            &&& tangible(v.paths[y as int])
            &&& binary64_size::clearly_less(span(v.paths[x as int]), span(v.paths[y as int]))
        }),
    ensures
        i < j,
{
    let list: Seq<usize> = v.targets(bytes, true, now);
    let x: usize = list[i];
    let y: usize = list[j];
    lemma_advised_order(v, bytes, now);
    assert(list.contains(x) && list.contains(y));
    let w: u32 = weight_of(v, x);
    lemma_advised_weight(v.advice, v.names[x as int], 0);
    let f: nat = binary64_laws::units(factor(w));
    lemma_factor(w, w);
    lemma_pow2_pos(1073);
    let s: nat = span(v.paths[x as int]);
    let t: nat = span(v.paths[y as int]);
    assert(t * f > 0 && (s * f) * 1_000_001 <= (t * f) * 1_000_000) by (nonlinear_arith)
        requires
            s * 1_000_001 <= t * 1_000_000,
            t > 0,
            f > 0,
    ;
    lemma_advised_cost(v.paths[x as int], v.paths[y as int], w, w);
    if j < i {
        assert(list[j] == y && list[i] == x);
    }
}

/// How far away a path of a weight counts: at a weight of 16 it counts as it
/// is, at 64 as half as far, and at 4 or less as twice as far.
pub open spec fn counts_as(p: Path, weight: u32) -> nat {
    if weight <= 4 {
        4 * span(p)
    } else if weight == 16 {
        2 * span(p)
    } else {
        span(p)
    }
}

/// Advice moves paths: a path advised at 64 goes before one advised at 16 that
/// is not clearly less than half as far, and so on.
pub proof fn advice_moves_paths(v: SchedulerView, bytes: usize, now: u64, i: int, j: int)
    requires
        v.paths.len() <= usize::MAX,
        now < v.advice_until,
        0 <= i < v.targets(bytes, true, now).len(),
        0 <= j < v.targets(bytes, true, now).len(),
        ({
            let x: usize = v.targets(bytes, true, now)[i];
            let y: usize = v.targets(bytes, true, now)[j];
            &&& weight_of(v, x) <= 4 || weight_of(v, x) == 16 || weight_of(v, x) == 64
            &&& weight_of(v, y) <= 4 || weight_of(v, y) == 16 || weight_of(v, y) == 64
            &&& tangible(v.paths[x as int])
            &&& tangible(v.paths[y as int])
            &&& binary64_size::clearly_less(
                counts_as(v.paths[x as int], weight_of(v, x)),
                counts_as(v.paths[y as int], weight_of(v, y)),
            )
        }),
    ensures
        i < j,
{
    let list: Seq<usize> = v.targets(bytes, true, now);
    let x: usize = list[i];
    let y: usize = list[j];
    lemma_advised_order(v, bytes, now);
    assert(list.contains(x) && list.contains(y));
    let a: u32 = weight_of(v, x);
    let b: u32 = weight_of(v, y);
    lemma_advised_weight(v.advice, v.names[x as int], 0);
    lemma_advised_weight(v.advice, v.names[y as int], 0);
    if a <= b {
        lemma_factor(a, b);
    } else {
        lemma_factor(b, a);
    }
    lemma2_to64();
    lemma_pow2_pos(1073);
    binary64_laws::lemma_scaled(1, 1073, 1);
    binary64_laws::lemma_scaled(1, 1073, 2);
    let h: nat = pow2(1073);
    let s: nat = span(v.paths[x as int]);
    let t: nat = span(v.paths[y as int]);
    let f: nat = binary64_laws::units(factor(a));
    let g: nat = binary64_laws::units(factor(b));
    let k: nat = if a <= 4 {
        1
    } else if a == 16 {
        2
    } else {
        4
    };
    let m: nat = if b <= 4 {
        1
    } else if b == 16 {
        2
    } else {
        4
    };
    assert(f == k * h && g == m * h);
    assert(counts_as(v.paths[x as int], a) * k == 4 * s);
    assert(counts_as(v.paths[y as int], b) * m == 4 * t);
    let c: nat = counts_as(v.paths[x as int], a);
    let d: nat = counts_as(v.paths[y as int], b);
    assert(t * f > 0 && (s * g) * 1_000_001 <= (t * f) * 1_000_000) by (nonlinear_arith)
        requires
            c * 1_000_001 <= d * 1_000_000,
            d > 0,
            c * k == 4 * s,
            d * m == 4 * t,
            f == k * h,
            g == m * h,
            h > 0,
            1 <= k <= 4,
            1 <= m <= 4,
    ;
    lemma_advised_cost(v.paths[x as int], v.paths[y as int], a, b);
    if j < i {
        assert(list[j] == y && list[i] == x);
    }
}

/// With all else equal, more jitter never moves a path forward, nor does more
/// delay or less weight: a path that goes before it goes before it still.
pub proof fn jitter_moves_no_path_forward(
    v: SchedulerView,
    w: SchedulerView,
    bytes: usize,
    now: u64,
    i: int,
    j: int,
    k: int,
    m: int,
)
    requires
        v.paths.len() <= usize::MAX,
        w.paths.len() <= usize::MAX,
        now < v.advice_until,
        now < w.advice_until,
        0 <= i < j < v.targets(bytes, true, now).len(),
        0 <= k < w.targets(bytes, true, now).len(),
        0 <= m < w.targets(bytes, true, now).len(),
        ({
            let y: usize = v.targets(bytes, true, now)[i];
            let x: usize = v.targets(bytes, true, now)[j];
            let p: Path = v.paths[x as int];
            let q: Path = w.paths[x as int];
            &&& w.targets(bytes, true, now)[k] == y
            &&& w.targets(bytes, true, now)[m] == x
            &&& w.paths[y as int] == v.paths[y as int]
            &&& weight_of(w, y) == weight_of(v, y)
            &&& weight_of(w, x) <= weight_of(v, x)
            &&& timed(p)
            &&& timed(q)
            &&& p.rtt_ms == q.rtt_ms
            &&& binary64_laws::units(p.jitter_ms) <= binary64_laws::units(q.jitter_ms)
        }),
    ensures
        k < m,
{
    let before: Seq<usize> = v.targets(bytes, true, now);
    let after: Seq<usize> = w.targets(bytes, true, now);
    let y: usize = before[i];
    let x: usize = before[j];
    lemma_advised_order(v, bytes, now);
    lemma_advised_order(w, bytes, now);
    assert(before.contains(x) && before.contains(y) && after.contains(x) && after.contains(y));
    lemma_advised_weight(v.advice, v.names[x as int], 0);
    lemma_advised_weight(w.advice, w.names[x as int], 0);
    lemma_advised_cost(v.paths[x as int], w.paths[x as int], weight_of(v, x), weight_of(w, x));
    assert(nearer(v)(y, x) == nearer(w)(y, x));
    assert(placement::cheaper(bond::advised_costs(v.paths, v.names, v.advice), nearer(v))(y, x));
    if m < k {
        assert(after[m] == x && after[k] == y);
        assert(placement::cheaper(bond::advised_costs(w.paths, w.names, w.advice), nearer(w))(
            x,
            y,
        ));
    } else if m == k {
        assert(x == y);
    }
}

/// Without advice an interactive packet goes by delay alone, one that was never
/// measured last.
pub proof fn nearer_paths_go_first(v: SchedulerView, bytes: usize, now: u64, i: int, j: int)
    requires
        v.paths.len() <= usize::MAX,
        now >= v.advice_until,
        0 <= i < j < v.targets(bytes, true, now).len(),
        ({
            let p: Path = v.paths[v.targets(bytes, true, now)[i] as int];
            let q: Path = v.paths[v.targets(bytes, true, now)[j] as int];
            &&& p.rtt_ms is Some ==> binary64_laws::plain(p.rtt_ms->0)
            &&& q.rtt_ms is Some ==> binary64_laws::plain(q.rtt_ms->0)
        }),
    ensures
        ({
            let p: Path = v.paths[v.targets(bytes, true, now)[i] as int];
            let q: Path = v.paths[v.targets(bytes, true, now)[j] as int];
            q.rtt_ms is Some && binary64_laws::units(q.rtt_ms->0) < binary64_laws::units(
                path::unknown_delay(),
            ) ==> p.rtt_ms is Some && binary64_laws::units(p.rtt_ms->0) <= binary64_laws::units(
                q.rtt_ms->0,
            )
        }),
{
    reveal(SchedulerView::targets);
    lemma_open_paths(v, bytes, true, now);
    let list: Seq<usize> = v.targets(bytes, true, now);
    let x: usize = list[i];
    let y: usize = list[j];
    assert(list.contains(x) && list.contains(y));
    assert(nearer(v)(x, y));
    let p: Path = v.paths[x as int];
    let q: Path = v.paths[y as int];
    binary64_laws::units_keep_order(
        p.rtt_ms.unwrap_or(path::unknown_delay()),
        q.rtt_ms.unwrap_or(path::unknown_delay()),
    );
    if q.rtt_ms is Some {
        binary64_laws::units_keep_order(q.rtt_ms->0, path::unknown_delay());
    }
}

} // verus!
