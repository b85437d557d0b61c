//! What counts as the rate of a path, as proof of it, and as sharing that does
//! not pay.
use crate::binary64;
use crate::binary64::Binary64;
use crate::binary64_approx;
use crate::binary64_laws;
use crate::binary64_size;
use crate::brain;
use crate::brain::{Direction, Observation};
use crate::link_choice_laws;
use crate::link_laws;
use crate::path_laws;
use crate::placement;
use vstd::arithmetic::power2::*;
use vstd::prelude::*;

verus! {

/// Whether all rates of an observation are plain.
pub open spec fn rates_are_plain(o: Observation) -> bool {
    &&& binary64_laws::plain(o.upload_bps)
    &&& binary64_laws::plain(o.download_bps)
    &&& binary64_laws::plain(o.upload_peak_bps)
    &&& binary64_laws::plain(o.download_peak_bps)
}

/// The rate learned in a direction: none without a sample.
pub open spec fn learned_in(o: Observation, upload: bool) -> nat {
    if upload {
        if o.upload_samples == 0 {
            0
        } else {
            binary64_laws::units(o.upload_bps)
        }
    } else if o.download_samples == 0 {
        0
    } else {
        binary64_laws::units(o.download_bps)
    }
}

/// The greater of the learned rate and the peak in a direction.
pub open spec fn best_in(o: Observation, upload: bool) -> nat {
    let peak: nat = if upload {
        binary64_laws::units(o.upload_peak_bps)
    } else {
        binary64_laws::units(o.download_peak_bps)
    };
    if learned_in(o, upload) > peak {
        learned_in(o, upload)
    } else {
        peak
    }
}

/// Two directions together: the weaker one where both are known, else the one
/// that is.
pub open spec fn both_ways(up: nat, down: nat) -> nat {
    if up == 0 {
        down
    } else if down == 0 {
        up
    } else if up < down {
        up
    } else {
        down
    }
}

proof fn lemma_two_way(up: Binary64, down: Binary64)
    requires
        binary64_laws::plain(up),
        binary64_laws::plain(down),
    ensures
        binary64_laws::plain(brain::two_way(up, down)),
        binary64_laws::units(brain::two_way(up, down)) == both_ways(
            binary64_laws::units(up),
            binary64_laws::units(down),
        ),
{
    reveal(binary64::spec_lt);
    let one: nat = binary64_laws::one();
    binary64_laws::whole_numbers_are_exact(0);
    assert(0 * one == 0);
    binary64_laws::units_keep_order(Binary64::whole(0), up);
    binary64_laws::units_keep_order(Binary64::whole(0), down);
    binary64_laws::units_keep_order(up, down);
    link_laws::lemma_unset(Binary64::whole(0));
}

/// Champions are chosen by the greater of the learned rate and the peak; shares
/// go by the learned rate alone. For both directions the weaker one counts
/// where both are known.
pub proof fn rates_count_as_they_were_learned(o: Observation, direction: Direction)
    requires
        rates_are_plain(o),
    ensures
        binary64_laws::plain(brain::score(o, direction)),
        binary64_laws::plain(brain::share_rate(o, direction)),
        binary64_laws::units(brain::score(o, direction)) == match direction {
            Direction::Download => best_in(o, false),
            Direction::Upload => best_in(o, true),
            Direction::Balanced => both_ways(best_in(o, true), best_in(o, false)),
        },
        binary64_laws::units(brain::share_rate(o, direction)) == match direction {
            Direction::Download => learned_in(o, false),
            Direction::Upload => learned_in(o, true),
            Direction::Balanced => both_ways(learned_in(o, true), learned_in(o, false)),
        },
{
    reveal(binary64::spec_lt);
    let one: nat = binary64_laws::one();
    binary64_laws::whole_numbers_are_exact(0);
    assert(0 * one == 0);
    let up: Binary64 = o.learned_rate(true);
    let down: Binary64 = o.learned_rate(false);
    binary64_laws::units_keep_order(up, o.upload_peak_bps);
    binary64_laws::units_keep_order(down, o.download_peak_bps);
    lemma_two_way(up, down);
    lemma_two_way(o.champion_rate(true), o.champion_rate(false));
}

/// A path is proven in a direction exactly when its rate is 64 kilobits or more
/// and it has three samples there, or eight mebibytes learned; for both
/// directions either will do.
pub proof fn proof_takes_samples_or_bytes(o: Observation, direction: Direction)
    requires
        rates_are_plain(o),
    ensures
        ({
            let up: bool = o.upload_samples >= 3 || o.upload_learned >= 8_388_608;
            let down: bool = o.download_samples >= 3 || o.download_learned >= 8_388_608;
            let shown: bool = match direction {
                Direction::Download => down,
                Direction::Upload => up,
                Direction::Balanced => up || down,
            };
            brain::is_proven(o, direction) <==> shown && binary64_laws::units(
                brain::score(o, direction),
            ) >= 64_000 * binary64_laws::one()
        }),
{
    reveal(binary64::spec_lt);
    rates_count_as_they_were_learned(o, direction);
    let one: nat = binary64_laws::one();
    lemma_pow2_pos(1074);
    binary64_laws::whole_numbers_are_exact(64_000);
    let s: Binary64 = brain::score(o, direction);
    binary64_laws::units_keep_order(s, Binary64::whole(64_000));
    link_laws::lemma_unset(s);
    link_laws::lemma_unset(Binary64::whole(64_000));
}

// ---- The guard -------------------------------------------------------------------------

/// The present rate of a path in a direction.
pub open spec fn present(o: Observation, upload: bool) -> nat {
    binary64_laws::units(brain::current_rate(o, upload))
}

/// The present rates of some paths together.
pub open spec fn together(list: Seq<usize>, seen: Seq<Observation>, upload: bool) -> nat
    decreases list.len(),
{
    if list.len() == 0 {
        0
    } else {
        together(list.drop_last(), seen, upload) + present(seen[list.last() as int], upload)
    }
}

/// How many of some paths deliver 64 kilobits or more.
pub open spec fn delivering(list: Seq<usize>, seen: Seq<Observation>, upload: bool) -> nat
    decreases list.len(),
{
    if list.len() == 0 {
        0
    } else {
        delivering(list.drop_last(), seen, upload) + (if present(seen[list.last() as int], upload)
            >= 64_000 * binary64_laws::one() {
            1nat
        } else {
            0nat
        })
    }
}

proof fn lemma_total(list: Seq<usize>, seen: Seq<Observation>, upload: bool)
    requires
        list.len() <= 256,
        placement::within(list, seen.len()),
        forall|i: int|
            0 <= i < seen.len() ==> link_laws::quantity(
                brain::current_rate(#[trigger] seen[i], upload),
            ),
    ensures
        binary64_laws::plain(brain::total_rate(list, seen, upload)),
        binary64_approx::approx(
            binary64_laws::units(brain::total_rate(list, seen, upload)),
            together(list, seen, upload),
            2 * list.len(),
        ),
        together(list, seen, upload) <= list.len() * pow2(1174),
        brain::active_count(list, seen, upload) == delivering(list, seen, upload),
    decreases list.len(),
{
    reveal(binary64::spec_lt);
    let one: nat = binary64_laws::one();
    lemma_pow2_pos(1074);
    lemma_pow2_pos(1174);
    if list.len() == 0 {
        binary64_laws::whole_numbers_are_exact(0);
        assert(0 * one == 0);
        assert(0 * pow2(1174) == 0);
    } else {
        let rest: Seq<usize> = list.drop_last();
        let k: nat = rest.len();
        assert(placement::within(rest, seen.len())) by {
            assert forall|i: int| 0 <= i < rest.len() implies (#[trigger] rest[i]) < seen.len() by {
                assert(rest[i] == list[i]);
            }
        }
        lemma_total(rest, seen, upload);
        assert(list[list.len() - 1] < seen.len());
        let o: Observation = seen[list.last() as int];
        let x: Binary64 = brain::current_rate(o, upload);
        assert(link_laws::quantity(x));
        let s: Binary64 = brain::total_rate(rest, seen, upload);
        let su: nat = binary64_laws::units(s);
        let e: nat = together(rest, seen, upload);
        let u: nat = binary64_laws::units(x);
        let n: nat = list.len();
        assert(n * pow2(1174) == k * pow2(1174) + pow2(1174)) by (nonlinear_arith)
            requires
                n == k + 1,
        ;
        lemma2_to64();
        binary64_laws::lemma_scaled(1, 1174, 12);
        lemma_pow2_strictly_increases(1186, 2098);
        assert(k * pow2(1174) <= 256 * pow2(1174)) by (nonlinear_arith)
            requires
                k <= 256,
                pow2(1174) > 0,
        ;
        binary64_approx::lemma_approx_more(su, e, 2 * k, 512);
        assert(e * (0x4_0000_0000_0000 + 512) == e * 0x4_0000_0000_0200);
        assert(su <= 2 * e);
        binary64_laws::a_sum_is_near(s, x);
        let t: nat = binary64_laws::units(s.plus(x));
        binary64_approx::lemma_approx_near(t, su + u);
        link_choice_laws::lemma_same(u, 2 * k);
        path_laws::lemma_approx_sum(su, e, u, u, 2 * k);
        binary64_approx::lemma_approx_chain(t, su + u, e + u, 1, 2 * k);
        assert(binary64_approx::approx(t, e + u, 2 * n));
        binary64_laws::whole_numbers_are_exact(64_000);
        binary64_laws::units_keep_order(x, Binary64::whole(64_000));
        link_laws::lemma_unset(x);
        link_laws::lemma_unset(Binary64::whole(64_000));
    }
}

proof fn lemma_most_of(c: Binary64)
    requires
        binary64_laws::plain(c),
        1_000_000 * binary64_laws::one() <= binary64_laws::units(c) <= pow2(1174),
    ensures
        ({
            let x: Binary64 = c.times(Binary64::ratio(95, 100));
            &&& binary64_laws::plain(x)
            &&& binary64_approx::approx(
                binary64_laws::units(x) * 100,
                95 * binary64_laws::units(c),
                4,
            )
        }),
{
    let one: nat = binary64_laws::one();
    lemma_pow2_pos(1074);
    lemma2_to64();
    let r: Binary64 = Binary64::ratio(95, 100);
    binary64_laws::whole_numbers_are_exact(95);
    binary64_laws::whole_numbers_are_exact(100);
    binary64_laws::lemma_scaled(1, 6, 1074);
    binary64_laws::lemma_scaled(1, 7, 1074);
    binary64_approx::over_step(
        Binary64::whole(95),
        Binary64::whole(100),
        1080,
        1081,
        1080,
        1081,
    );
    let ru: nat = binary64_laws::units(r);
    assert(ru * (100 * one) == (ru * 100) * one) by (nonlinear_arith);
    binary64_approx::lemma_approx_cancel(ru * 100, 95 * one, 1, one);
    let u: nat = binary64_laws::units(c);
    binary64_approx::times_step(c, r, 1074, 1174, 1072, 1076);
    let x: nat = binary64_laws::units(c.times(r));
    binary64_approx::lemma_approx_scale(x * one, u * ru, 1, 100);
    binary64_approx::lemma_approx_scale(ru * 100, 95 * one, 1, u);
    assert((u * ru) * 100 == u * (ru * 100)) by (nonlinear_arith);
    binary64_approx::lemma_approx_chain((x * one) * 100, u * (ru * 100), u * (95 * one), 1, 1);
    assert((x * one) * 100 == (x * 100) * one && u * (95 * one) == (95 * u) * one)
        by (nonlinear_arith);
    binary64_approx::lemma_approx_cancel(x * 100, 95 * u, 3, one);
    binary64_approx::lemma_approx_more(x * 100, 95 * u, 3, 4);
}

/// New work contracts to the champion only where more than one path delivers,
/// the champion alone was good for a megabit, and all together deliver a megabit
/// but clearly less than 95 percent of that; and then it does.
pub proof fn sharing_that_does_not_pay_ends(
    list: Seq<usize>,
    seen: Seq<Observation>,
    upload: bool,
    champion_rate: Binary64,
)
    requires
        list.len() <= 256,
        placement::within(list, seen.len()),
        forall|i: int|
            0 <= i < seen.len() ==> link_laws::quantity(
                brain::current_rate(#[trigger] seen[i], upload),
            ),
        link_laws::quantity(champion_rate),
    ensures
        ({
            let one: nat = binary64_laws::one();
            let all: nat = together(list, seen, upload);
            let alone: nat = binary64_laws::units(champion_rate);
            let off: bool = brain::guarded(list, seen, upload, champion_rate);
            &&& delivering(list, seen, upload) <= 1 || alone < 1_000_000 * one ==> !off
            &&& binary64_size::clearly_less(all, 1_000_000 * one) ==> !off
            &&& binary64_size::clearly_less(95 * alone, 100 * all) ==> !off
            &&& delivering(list, seen, upload) > 1 && alone >= 1_000_000 * one
                && binary64_size::clearly_less(1_000_000 * one, all)
                && binary64_size::clearly_less(100 * all, 95 * alone) ==> off
        }),
{
    reveal(binary64::spec_lt);
    let one: nat = binary64_laws::one();
    lemma_pow2_pos(1074);
    lemma_total(list, seen, upload);
    let t: Binary64 = brain::total_rate(list, seen, upload);
    let tu: nat = binary64_laws::units(t);
    let all: nat = together(list, seen, upload);
    let alone: nat = binary64_laws::units(champion_rate);
    binary64_laws::whole_numbers_are_exact(1_000_000);
    let mega: Binary64 = Binary64::whole(1_000_000);
    let million: nat = 1_000_000 * one;
    binary64_laws::units_keep_order(champion_rate, mega);
    binary64_laws::units_keep_order(t, mega);
    link_laws::lemma_unset(champion_rate);
    link_laws::lemma_unset(mega);
    link_laws::lemma_unset(t);
    binary64_approx::lemma_approx_more(tu, all, 2 * list.len(), 512);
    link_choice_laws::lemma_same(million, 512);
    if binary64_size::clearly_less(all, million) {
        binary64_approx::lemma_clear(tu, million, all, million, 512);
    }
    if binary64_size::clearly_less(million, all) {
        binary64_approx::lemma_clear(million, tu, million, all, 512);
    }
    if alone >= million {
        lemma_most_of(champion_rate);
        let x: Binary64 = champion_rate.times(Binary64::ratio(95, 100));
        let xu: nat = binary64_laws::units(x);
        binary64_laws::units_keep_order(t, x);
        link_laws::lemma_unset(x);
        binary64_approx::lemma_approx_scale(tu, all, 512, 100);
        binary64_approx::lemma_approx_more(xu * 100, 95 * alone, 4, 512);
        if binary64_size::clearly_less(95 * alone, 100 * all) {
            binary64_approx::lemma_clear(xu * 100, 100 * tu, 95 * alone, 100 * all, 512);
        }
        if binary64_size::clearly_less(100 * all, 95 * alone) {
            binary64_approx::lemma_clear(100 * tu, xu * 100, 100 * all, 95 * alone, 512);
        }
    }
}

} // verus!
