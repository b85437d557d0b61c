//! Which link a packet takes, in terms of what is measured of the links.
use crate::binary64;
use crate::binary64::Binary64;
use crate::binary64_approx;
use crate::binary64_laws;
use crate::binary64_size;
use crate::link;
use crate::link::{Config, Link, LinkSchedulerView, Spread};
use crate::link_laws;
use crate::path_laws;
use vstd::arithmetic::power2::*;
use vstd::prelude::*;

verus! {

/// Whether all links are gauged.
pub open spec fn all_gauged(links: Seq<Link>) -> bool {
    forall|i: int| 0 <= i < links.len() ==> link_laws::gauged(#[trigger] links[i])
}

// ---- The best ------------------------------------------------------------------------

proof fn lemma_best(links: Seq<Link>, base: Binary64, n: nat)
    requires
        1 <= n <= links.len(),
        all_gauged(links),
        link_laws::quantity(base),
    ensures
        links.contains(link::best_of(links, base, n)),
        forall|i: int|
            0 <= i < n ==> (#[trigger] links[i]).spec_quality(base).bits <= link::best_of(
                links,
                base,
                n,
            ).spec_quality(base).bits,
    decreases n,
{
    reveal(binary64::spec_lt);
    if n == 1 {
        assert(links[0] == link::best_of(links, base, n));
    } else {
        lemma_best(links, base, (n - 1) as nat);
        let best: Link = link::best_of(links, base, (n - 1) as nat);
        let k: int = choose|k: int| 0 <= k < links.len() && links[k] == best;
        link_laws::lemma_quality(links[k], base);
        link_laws::lemma_quality(links[n - 1], base);
        lemma_pow2_pos(551);
        link_laws::lemma_unset(best.spec_quality(base));
        link_laws::lemma_unset(links[n - 1].spec_quality(base));
        assert(links[n - 1] == links[n as int - 1]);
    }
}

/// Among gauged links the best is one than which none is clearly better.
pub proof fn none_is_better_than_the_best(links: Seq<Link>, base: Binary64, i: int)
    requires
        all_gauged(links),
        link_laws::quantity(base),
        0 <= i < links.len(),
    ensures
        links.contains(link::spec_best_quality(links, base)),
        !link_laws::clearly_better(links[i], link::spec_best_quality(links, base), base),
{
    lemma_all_probed(links, links.len());
    assert(links.take(links.len() as int) =~= links);
    lemma_best(links, base, links.len());
    let best: Link = link::spec_best_quality(links, base);
    let k: int = choose|k: int| 0 <= k < links.len() && links[k] == best;
    assert(link_laws::gauged(links[k]));
    assert(link_laws::gauged(links[i]));
    if link_laws::clearly_better(links[i], best, base) {
        link_laws::better_links_have_more_quality(links[i], best, base);
    }
}

proof fn lemma_all_probed(links: Seq<Link>, n: nat)
    requires
        n <= links.len(),
        all_gauged(links),
    ensures
        link::probed_links(links, n) == links.take(n as int),
    decreases n,
{
    if n > 0 {
        lemma_all_probed(links, (n - 1) as nat);
        assert(links[n - 1].probed);
        assert(links.take(n as int) =~= links.take(n - 1).push(links[n - 1]));
    } else {
        assert(links.take(0) =~= Seq::empty());
    }
}

/// Of two links that agree in all but delay, `best_quality` never takes the one
/// of clearly more delay while the other is there.
pub proof fn the_nearer_of_two_is_taken(links: Seq<Link>, base: Binary64, i: int, k: int)
    requires
        all_gauged(links),
        link_laws::quantity(base),
        0 <= i < links.len(),
        0 <= k < links.len(),
        links[k] == (Link { rtt: links[k].rtt, id: links[k].id, ..links[i] }),
        binary64_size::clearly_less(
            link_laws::wait_of(links[i], base),
            link_laws::wait_of(links[k], base),
        ),
    ensures
        link::spec_best_quality(links, base) != links[k],
{
    none_is_better_than_the_best(links, base, i);
    assert(link_laws::gauged(links[i]) && link_laws::gauged(links[k]));
    link_laws::lemma_quality(links[i], base);
    lemma_delay_only(links[i], links[k], base);
}

proof fn lemma_delay_only(a: Link, b: Link, base: Binary64)
    requires
        b == (Link { rtt: b.rtt, id: b.id, ..a }),
        link_laws::worth(a) > 0,
        link_laws::weight(a, base) > 0,
        binary64_size::clearly_less(link_laws::wait_of(a, base), link_laws::wait_of(b, base)),
    ensures
        link_laws::clearly_better(a, b, base),
{
    let x: nat = link_laws::worth(a);
    let z: nat = link_laws::unrest(a);
    let v: nat = link_laws::wait_of(a, base);
    let w: nat = link_laws::wait_of(b, base);
    assert(z > 0) by (nonlinear_arith)
        requires
            v * z > 0,
            v >= 0,
            z >= 0,
    ;
    assert(x * (w * z) > 0 && (x * (v * z)) * 1_000_001 <= (x * (w * z)) * 1_000_000)
        by (nonlinear_arith)
        requires
            v * 1_000_001 <= w * 1_000_000,
            w > 0,
            x > 0,
            z > 0,
    ;
}

// ---- Taking turns -----------------------------------------------------------------------

/// The least and the greatest are those of some links, and bound all.
proof fn lemma_spread(links: Seq<Link>, base: Binary64, n: nat)
    requires
        n <= links.len(),
        links.len() > 0,
        all_gauged(links),
        link_laws::quantity(base),
    ensures
        ({
            let s: Spread = link::spread_of(links, base, n);
            &&& exists|i: int|
                0 <= i < links.len() && s.min_quality == (#[trigger] links[i]).spec_quality(base)
            &&& n > 0 ==> exists|i: int|
                0 <= i < links.len() && s.max_quality == (#[trigger] links[i]).spec_quality(base)
            &&& n == 0 ==> s.max_quality == link::zero()
            &&& exists|i: int| 0 <= i < links.len() && s.min_rtt == (#[trigger] links[i]).rtt
            &&& exists|i: int| 0 <= i < links.len() && s.max_rtt == (#[trigger] links[i]).rtt
            &&& forall|i: int|
                0 <= i < n ==> {
                    &&& s.min_quality.bits <= (#[trigger] links[i]).spec_quality(base).bits
                    &&& links[i].spec_quality(base).bits <= s.max_quality.bits
                    &&& s.min_rtt.bits <= links[i].rtt.bits
                    &&& links[i].rtt.bits <= s.max_rtt.bits
                }
        }),
    decreases n,
{
    reveal(binary64::spec_lt);
    if n == 0 {
        assert(links[0] == links[0]);
    } else {
        lemma_spread(links, base, (n - 1) as nat);
        let s: Spread = link::spread_of(links, base, (n - 1) as nat);
        let x: Link = links[n - 1];
        assert(link_laws::gauged(x));
        link_laws::lemma_quality(x, base);
        lemma_pow2_pos(551);
        link_laws::lemma_unset(x.spec_quality(base));
        let a: int = choose|i: int|
            0 <= i < links.len() && s.min_quality == (#[trigger] links[i]).spec_quality(base);
        let c: int = choose|i: int| 0 <= i < links.len() && s.min_rtt == (#[trigger] links[i]).rtt;
        let d: int = choose|i: int| 0 <= i < links.len() && s.max_rtt == (#[trigger] links[i]).rtt;
        assert(link_laws::gauged(links[a]) && link_laws::gauged(links[c]) && link_laws::gauged(
            links[d],
        ));
        link_laws::lemma_quality(links[a], base);
        link_laws::lemma_unset(links[a].spec_quality(base));
        if n > 1 {
            let b: int = choose|i: int|
                0 <= i < links.len() && s.max_quality == (#[trigger] links[i]).spec_quality(base);
            assert(link_laws::gauged(links[b]));
            link_laws::lemma_quality(links[b], base);
            link_laws::lemma_unset(links[b].spec_quality(base));
        }
    }
}

/// The quotient of two qualities, to within a small part.
proof fn lemma_ratio(a: Link, b: Link, base: Binary64)
    requires
        link_laws::gauged(a),
        link_laws::gauged(b),
        link_laws::quantity(base),
    ensures
        ({
            let x: Binary64 = a.spec_quality(base).over(b.spec_quality(base));
            &&& binary64_laws::plain(x)
            &&& binary64_approx::approx(
                binary64_laws::units(x) * (link_laws::worth(b) * link_laws::weight(a, base)),
                (link_laws::worth(a) * link_laws::weight(b, base)) * binary64_laws::one(),
                300,
            )
        }),
{
    link_laws::lemma_quality(a, base);
    link_laws::lemma_quality(b, base);
    let p: Binary64 = a.spec_quality(base);
    let q: Binary64 = b.spec_quality(base);
    binary64_approx::over_step(p, q, 551, 1286, 551, 1286);
    let x: nat = binary64_laws::units(p.over(q));
    let pu: nat = binary64_laws::units(p);
    let qu: nat = binary64_laws::units(q);
    let one: nat = binary64_laws::one();
    lemma_pow2_pos(1074);
    let va: nat = link_laws::weight(a, base);
    let vb: nat = link_laws::weight(b, base);
    let wa: nat = link_laws::worth(a);
    let wb: nat = link_laws::worth(b);
    // x * q is p; put worth over weight in place of both.
    binary64_approx::lemma_approx_scale(x * qu, pu * one, 1, (10 * vb) * (10 * va));
    let l: nat = (x * (10 * va)) * (qu * (10 * vb));
    let r: nat = (pu * (10 * va)) * (one * (10 * vb));
    assert((x * qu) * ((10 * vb) * (10 * va)) == l) by (nonlinear_arith)
        requires
            l == (x * (10 * va)) * (qu * (10 * vb)),
    ;
    assert((pu * one) * ((10 * vb) * (10 * va)) == r) by (nonlinear_arith)
        requires
            r == (pu * (10 * va)) * (one * (10 * vb)),
    ;
    binary64_approx::lemma_approx_scale(pu * (10 * va), wa * one, 132, one * (10 * vb));
    let t: nat = (wa * one) * (one * (10 * vb));
    binary64_approx::lemma_approx_chain(l, r, t, 1, 132);
    binary64_approx::lemma_approx_replace(x * (10 * va), qu * (10 * vb), wb * one, t, 134, 132);
    let c: nat = 10 * one;
    let y: nat = x * (wb * va);
    let z: nat = (wa * vb) * one;
    assert((x * (10 * va)) * (wb * one) == y * c) by (nonlinear_arith)
        requires
            y == x * (wb * va),
            c == 10 * one,
    ;
    assert(t == z * c) by (nonlinear_arith)
        requires
            t == (wa * one) * (one * (10 * vb)),
            z == (wa * vb) * one,
            c == 10 * one,
    ;
    binary64_approx::lemma_approx_cancel(y, z, 268, c);
    binary64_approx::lemma_approx_more(y, z, 268, 300);
}

pub proof fn lemma_same(x: nat, k: nat)
    ensures
        binary64_approx::approx(x, x, k),
{
    assert(x * 0x4_0000_0000_0000 <= x * (0x4_0000_0000_0000 + k) && x * (0x4_0000_0000_0000 - k)
        <= x * 0x4_0000_0000_0000) by (nonlinear_arith)
        requires
            k >= 0,
            x >= 0,
    ;
}

/// Links whose worth for their weight differs by clearly more than the quality
/// ratio never take turns.
pub proof fn unlike_links_take_no_turns(
    config: Config,
    links: Seq<Link>,
    spread: Binary64,
    i: int,
    k: int,
)
    requires
        all_gauged(links),
        link_laws::quantity(config.base_rtt),
        binary64_laws::plain(config.quality_ratio),
        0 <= i < links.len(),
        0 <= k < links.len(),
        binary64_size::clearly_less(
            (link_laws::worth(links[k]) * link_laws::weight(links[i], config.base_rtt))
                * binary64_laws::one(),
            binary64_laws::units(config.quality_ratio) * (link_laws::worth(links[i])
                * link_laws::weight(links[k], config.base_rtt)),
        ),
    ensures
        !link::spec_can_bond(config, links, spread),
{
    reveal(binary64::spec_lt);
    let base: Binary64 = config.base_rtt;
    let a: Link = links[k];
    let b: Link = links[i];
    assert(link_laws::gauged(a) && link_laws::gauged(b));
    lemma_spread(links, base, links.len());
    let s: Spread = link::spread_of(links, base, links.len());
    let m: int = choose|i: int|
        0 <= i < links.len() && s.min_quality == (#[trigger] links[i]).spec_quality(base);
    let n: int = choose|i: int|
        0 <= i < links.len() && s.max_quality == (#[trigger] links[i]).spec_quality(base);
    assert(link_laws::gauged(links[m]) && link_laws::gauged(links[n]));
    link_laws::lemma_quality(links[m], base);
    link_laws::lemma_quality(links[n], base);
    link_laws::lemma_quality(a, base);
    link_laws::lemma_quality(b, base);
    lemma_pow2_pos(551);
    let p: Binary64 = a.spec_quality(base);
    let q: Binary64 = b.spec_quality(base);
    binary64_laws::units_keep_order(s.min_quality, p);
    binary64_laws::units_keep_order(q, s.max_quality);
    let x: nat = binary64_laws::units(s.min_quality);
    let y: nat = binary64_laws::units(s.max_quality);
    let pu: nat = binary64_laws::units(p);
    let qu: nat = binary64_laws::units(q);
    assert(x * qu <= pu * y) by (nonlinear_arith)
        requires
            x <= pu,
            qu <= y,
    ;
    binary64_laws::quotients_keep_order(s.min_quality, s.max_quality, p, q);
    lemma_ratio(a, b, base);
    let r: Binary64 = config.quality_ratio;
    let t: nat = binary64_laws::units(p.over(q));
    let u: nat = binary64_laws::units(r);
    let c: nat = link_laws::worth(b) * link_laws::weight(a, base);
    let z: nat = (link_laws::worth(a) * link_laws::weight(b, base)) * binary64_laws::one();
    lemma_same(u * c, 300);
    binary64_approx::lemma_clear(t * c, u * c, z, u * c, 300);
    assert(t < u) by (nonlinear_arith)
        requires
            t * c < u * c,
            c >= 0,
    ;
    binary64_laws::units_keep_order(p.over(q), r);
    lemma_ratio(links[m], links[n], base);
}

/// Links that agree in all but delay, and whose delay, jitter and base together
/// differ by clearly more than the quality ratio, never take turns: voice
/// stays on one link, and the turn does not move.
pub proof fn links_of_unlike_delay_take_no_turns(
    s: LinkSchedulerView,
    links: Seq<Link>,
    i: int,
    k: int,
)
    requires
        all_gauged(links),
        link_laws::quantity(s.config.base_rtt),
        binary64_laws::plain(s.config.quality_ratio),
        0 <= i < links.len(),
        0 <= k < links.len(),
        links[k] == (Link { rtt: links[k].rtt, id: links[k].id, ..links[i] }),
        binary64_size::clearly_less(
            link_laws::wait_of(links[i], s.config.base_rtt) * binary64_laws::one(),
            binary64_laws::units(s.config.quality_ratio) * link_laws::wait_of(
                links[k],
                s.config.base_rtt,
            ),
        ),
    ensures
        s.voice(links).0 == s,
        s.voice(links).1.primary == link::spec_voice_primary(s.config, links).id,
{
    let base: Binary64 = s.config.base_rtt;
    let a: Link = links[i];
    let b: Link = links[k];
    assert(link_laws::gauged(a));
    link_laws::lemma_quality(a, base);
    let x: nat = link_laws::worth(a);
    let z: nat = link_laws::unrest(a);
    let v: nat = link_laws::wait_of(a, base);
    let w: nat = link_laws::wait_of(b, base);
    let u: nat = binary64_laws::units(s.config.quality_ratio);
    let one: nat = binary64_laws::one();
    assert(z > 0) by (nonlinear_arith)
        requires
            v * z > 0,
            v >= 0,
            z >= 0,
    ;
    let m: nat = x * z;
    assert(m > 0) by (nonlinear_arith)
        requires
            m == x * z,
            x > 0,
            z > 0,
    ;
    assert((x * (v * z)) * one == (v * one) * m && u * (x * (w * z)) == (u * w) * m)
        by (nonlinear_arith)
        requires
            m == x * z,
    ;
    let c: nat = v * one;
    let d: nat = u * w;
    assert(d * m > 0 && (c * m) * 1_000_001 <= (d * m) * 1_000_000) by (nonlinear_arith)
        requires
            c * 1_000_001 <= d * 1_000_000,
            d > 0,
            m > 0,
    ;
    unlike_links_take_no_turns(s.config, links, s.config.aggressive_spread, i, k);
}

/// Links whose delays lie clearly farther apart than the spread that is allowed
/// never take turns.
pub proof fn links_far_apart_take_no_turns(
    config: Config,
    links: Seq<Link>,
    spread: Binary64,
    i: int,
    k: int,
)
    requires
        all_gauged(links),
        link_laws::quantity(config.base_rtt),
        binary64_laws::plain(spread),
        binary64_laws::units(spread) > 0,
        0 <= i < links.len(),
        0 <= k < links.len(),
        binary64_laws::units(links[k].rtt) <= binary64_laws::units(links[i].rtt),
        binary64_size::clearly_less(
            binary64_laws::units(spread),
            (binary64_laws::units(links[i].rtt) - binary64_laws::units(links[k].rtt)) as nat,
        ),
    ensures
        !link::spec_can_bond(config, links, spread),
{
    reveal(binary64::spec_lt);
    let base: Binary64 = config.base_rtt;
    lemma_spread(links, base, links.len());
    let s: Spread = link::spread_of(links, base, links.len());
    let m: int = choose|i: int| 0 <= i < links.len() && s.min_rtt == (#[trigger] links[i]).rtt;
    let n: int = choose|i: int| 0 <= i < links.len() && s.max_rtt == (#[trigger] links[i]).rtt;
    assert(link_laws::gauged(links[m]) && link_laws::gauged(links[n]) && link_laws::gauged(
        links[i],
    ) && link_laws::gauged(links[k]));
    binary64_laws::units_keep_order(s.min_rtt, links[k].rtt);
    binary64_laws::units_keep_order(links[i].rtt, s.max_rtt);
    lemma2_to64();
    binary64_laws::lemma_scaled(1, 1174, 2);
    lemma_pow2_strictly_increases(1176, 2098);
    lemma_pow2_pos(1174);
    binary64_laws::a_difference_is_near(s.max_rtt, s.min_rtt);
    let d: Binary64 = s.max_rtt.minus(s.min_rtt);
    assert(binary64_laws::units(spread) < binary64_laws::units(d));
    binary64_laws::units_keep_order(spread, d);
    link_laws::lemma_unset(spread);
    link_laws::lemma_unset(d);
}

/// Whether a link is sound enough to take turns: it is up, loses no more than
/// the threshold, and its jitter is within 30 milliseconds.
pub open spec fn sound_enough(l: Link, threshold: Binary64) -> bool {
    &&& l.status == 1
    &&& binary64_laws::units(l.loss) <= binary64_laws::units(threshold)
    &&& binary64_laws::units(l.jitter) <= 30 * binary64_laws::one()
}

/// An unsound link keeps all from taking turns. Two or more sound links, none of
/// which differs from another by clearly more than the quality ratio or the
/// spread allows, do take turns.
pub proof fn alike_links_take_turns(config: Config, links: Seq<Link>, spread: Binary64)
    requires
        all_gauged(links),
        link_laws::quantity(config.base_rtt),
        binary64_laws::plain(config.quality_ratio),
        binary64_laws::plain(config.unstable_loss),
        binary64_laws::plain(spread),
    ensures
        link::spec_can_bond(config, links, spread) ==> links.len() >= 2 && forall|i: int|
            0 <= i < links.len() ==> sound_enough(#[trigger] links[i], config.unstable_loss),
        links.len() >= 2 && (forall|i: int|
            0 <= i < links.len() ==> sound_enough(#[trigger] links[i], config.unstable_loss)) && (
        forall|i: int, k: int| #![trigger links[i], links[k]]
            0 <= i < links.len() && 0 <= k < links.len() ==> {
                &&& binary64_size::clearly_less(
                    binary64_laws::units(config.quality_ratio) * (link_laws::worth(links[i])
                        * link_laws::weight(links[k], config.base_rtt)),
                    (link_laws::worth(links[k]) * link_laws::weight(links[i], config.base_rtt))
                        * binary64_laws::one(),
                )
                &&& binary64_laws::units(spread) == 0 || binary64_laws::units(links[i].rtt)
                    <= binary64_laws::units(links[k].rtt) || binary64_size::clearly_less(
                    (binary64_laws::units(links[i].rtt) - binary64_laws::units(links[k].rtt)) as nat,
                    binary64_laws::units(spread),
                )
            }) ==> link::spec_can_bond(config, links, spread),
{
    reveal(binary64::spec_lt);
    let base: Binary64 = config.base_rtt;
    binary64_laws::whole_numbers_are_exact(30);
    assert forall|i: int| 0 <= i < links.len() implies (#[trigger] links[i]).unstable(
        config.unstable_loss,
    ) == (links[i].status == 2 || binary64_laws::units(links[i].loss) > binary64_laws::units(
        config.unstable_loss,
    ) || binary64_laws::units(links[i].jitter) > 30 * binary64_laws::one()) by {
        assert(link_laws::gauged(links[i]));
        binary64_laws::units_keep_order(config.unstable_loss, links[i].loss);
        binary64_laws::units_keep_order(Binary64::whole(30), links[i].jitter);
        link_laws::lemma_unset(links[i].loss);
        link_laws::lemma_unset(links[i].jitter);
    }
    if link::spec_can_bond(config, links, spread) {
        assert forall|i: int| 0 <= i < links.len() implies sound_enough(
            #[trigger] links[i],
            config.unstable_loss,
        ) by {
            let l: Link = links[i];
            assert(l.probed && l.status == 1 && !l.unstable(config.unstable_loss));
        }
    }
    if links.len() >= 2 {
        lemma_spread(links, base, links.len());
        let s: Spread = link::spread_of(links, base, links.len());
        let m: int = choose|i: int|
            0 <= i < links.len() && s.min_quality == (#[trigger] links[i]).spec_quality(base);
        let n: int = choose|i: int|
            0 <= i < links.len() && s.max_quality == (#[trigger] links[i]).spec_quality(base);
        let c: int = choose|i: int| 0 <= i < links.len() && s.min_rtt == (#[trigger] links[i]).rtt;
        let d: int = choose|i: int| 0 <= i < links.len() && s.max_rtt == (#[trigger] links[i]).rtt;
        let a: Link = links[m];
        let b: Link = links[n];
        assert(link_laws::gauged(a) && link_laws::gauged(b) && link_laws::gauged(links[c])
            && link_laws::gauged(links[d]));
        link_laws::lemma_quality(b, base);
        link_laws::lemma_unset(b.spec_quality(base));
        lemma_pow2_pos(551);
        lemma_ratio(a, b, base);
        let x: Binary64 = a.spec_quality(base).over(b.spec_quality(base));
        let t: nat = binary64_laws::units(x);
        let u: nat = binary64_laws::units(config.quality_ratio);
        let y: nat = link_laws::worth(b) * link_laws::weight(a, base);
        let z: nat = (link_laws::worth(a) * link_laws::weight(b, base)) * binary64_laws::one();
        if binary64_size::clearly_less(u * y, z) {
            lemma_same(u * y, 300);
            binary64_approx::lemma_clear(u * y, t * y, u * y, z, 300);
            assert(u < t) by (nonlinear_arith)
                requires
                    u * y < t * y,
                    y >= 0,
            ;
            binary64_laws::units_keep_order(config.quality_ratio, x);
            assert(x.ge(config.quality_ratio));
        }
        binary64_laws::units_keep_order(s.min_rtt, s.max_rtt);
        assert(links[c].rtt.bits <= s.max_rtt.bits);
        lemma2_to64();
        binary64_laws::lemma_scaled(1, 1174, 2);
        lemma_pow2_strictly_increases(1176, 2098);
        lemma_pow2_pos(1174);
        binary64_laws::a_difference_is_near(s.max_rtt, s.min_rtt);
        let far: Binary64 = s.max_rtt.minus(s.min_rtt);
        binary64_laws::units_keep_order(spread, far);
        link_laws::lemma_unset(spread);
        if binary64_laws::units(s.max_rtt) == binary64_laws::units(s.min_rtt) {
            assert(binary64_laws::units(far) == 0);
            link_laws::lemma_unset(far);
        }
    }
}

// ---- The steadiest --------------------------------------------------------------------------

/// Whether a link may carry the copy: another one, losing no more than allowed.
pub open spec fn may_copy(l: Link, exclude: u8, max_loss: Binary64) -> bool {
    l.id != exclude && !max_loss.lt(l.loss)
}

proof fn lemma_stable(links: Seq<Link>, exclude: u8, max_loss: Binary64, n: nat)
    requires
        n <= links.len(),
        all_gauged(links),
    ensures
        ({
            let r: (Option<Link>, Binary64) = link::stable_of(links, exclude, max_loss, n);
            &&& r.0 is None ==> r.1 == link::zero() && forall|i: int|
                0 <= i < n ==> !may_copy(#[trigger] links[i], exclude, max_loss)
            &&& r.0 is Some ==> r.1 == r.0->0.spec_stability() && links.contains(r.0->0)
                && may_copy(r.0->0, exclude, max_loss) && forall|i: int|
                0 <= i < n && may_copy(#[trigger] links[i], exclude, max_loss)
                    ==> links[i].spec_stability().bits <= r.1.bits
        }),
    decreases n,
{
    reveal(binary64::spec_lt);
    if n > 0 {
        lemma_stable(links, exclude, max_loss, (n - 1) as nat);
        let before: (Option<Link>, Binary64) = link::stable_of(
            links,
            exclude,
            max_loss,
            (n - 1) as nat,
        );
        let x: Link = links[n - 1];
        assert(link_laws::gauged(x));
        link_laws::lemma_stability(x);
        lemma_pow2_pos(756);
        link_laws::lemma_unset(x.spec_stability());
        if before.0 is Some {
            let k: int = choose|k: int| 0 <= k < links.len() && links[k] == before.0->0;
            assert(link_laws::gauged(links[k]));
            link_laws::lemma_stability(links[k]);
        }
    }
}

/// The copy goes on a link other than the packet's whenever there is one that
/// loses no more than allowed, and then on one than which no such link is
/// clearly steadier.
pub proof fn the_copy_takes_the_steadiest(
    links: Seq<Link>,
    exclude: u8,
    max_loss: Binary64,
    i: int,
)
    requires
        all_gauged(links),
        0 <= i < links.len(),
        may_copy(links[i], exclude, max_loss),
    ensures
        ({
            let r: Option<Link> = link::spec_stable(links, exclude, max_loss);
            &&& r is Some
            &&& links.contains(r->0)
            &&& may_copy(r->0, exclude, max_loss)
            &&& !link_laws::clearly_steadier(links[i], r->0)
        }),
{
    lemma_stable(links, exclude, max_loss, links.len());
    let r: Option<Link> = link::spec_stable(links, exclude, max_loss);
    let k: int = choose|k: int| 0 <= k < links.len() && links[k] == r->0;
    assert(link_laws::gauged(links[k]) && link_laws::gauged(links[i]));
    if link_laws::clearly_steadier(links[i], r->0) {
        link_laws::steadier_links_count_as_such(links[i], r->0);
    }
}

// ---- Voice --------------------------------------------------------------------------------

proof fn lemma_fast(links: Seq<Link>, limit: Binary64, n: nat)
    requires
        n <= links.len(),
        all_gauged(links),
        binary64_laws::plain(limit),
    ensures
        all_gauged(link::fast_links(links, limit, n)),
        forall|l: Link| #[trigger] link::fast_links(links, limit, n).contains(l) <==> exists|i: int|
            0 <= i < n && (#[trigger] links[i]) == l && binary64_laws::units(l.rtt)
                <= binary64_laws::units(limit),
    decreases n,
{
    reveal(binary64::spec_lt);
    if n > 0 {
        lemma_fast(links, limit, (n - 1) as nat);
        let rest: Seq<Link> = link::fast_links(links, limit, (n - 1) as nat);
        let x: Link = links[n - 1];
        assert(link_laws::gauged(x));
        binary64_laws::units_keep_order(limit, x.rtt);
        let all: Seq<Link> = link::fast_links(links, limit, n);
        assert forall|l: Link| #[trigger] all.contains(l) <==> exists|i: int|
            0 <= i < n && (#[trigger] links[i]) == l && binary64_laws::units(l.rtt)
                <= binary64_laws::units(limit) by {
            if all.contains(l) {
                let k: int = choose|k: int| 0 <= k < all.len() && all[k] == l;
                if k < rest.len() {
                    assert(rest[k] == l);
                    assert(rest.contains(l));
                } else {
                    assert(links[n - 1] == l);
                }
            }
            if exists|i: int|
                0 <= i < n && (#[trigger] links[i]) == l && binary64_laws::units(l.rtt)
                    <= binary64_laws::units(limit) {
                let i: int = choose|i: int|
                    0 <= i < n && (#[trigger] links[i]) == l && binary64_laws::units(l.rtt)
                        <= binary64_laws::units(limit);
                if i < n - 1 {
                    assert(rest.contains(l));
                    let k: int = choose|k: int| 0 <= k < rest.len() && rest[k] == l;
                    assert(all[k] == l);
                } else {
                    assert(all[all.len() - 1] == l);
                }
            }
        }
    }
}

/// Voice that takes no turns goes on a link within the delay allowed for voice
/// whenever there is one, and on one than which no such link is clearly better,
/// unless that one loses or wavers too much.
pub proof fn voice_goes_by_the_best_fast_link(config: Config, links: Seq<Link>, i: int)
    requires
        all_gauged(links),
        link_laws::quantity(config.base_rtt),
        binary64_laws::plain(config.voice_max_rtt),
        0 <= i < links.len(),
        binary64_laws::units(links[i].rtt) <= binary64_laws::units(config.voice_max_rtt),
        forall|k: int|
            0 <= k < links.len() ==> !config.critical_loss.lt((#[trigger] links[k]).loss)
                && binary64_laws::units(links[k].jitter) <= 45 * binary64_laws::one(),
    ensures
        ({
            let p: Link = link::spec_voice_primary(config, links);
            &&& links.contains(p)
            &&& binary64_laws::units(p.rtt) <= binary64_laws::units(config.voice_max_rtt)
            &&& !link_laws::clearly_better(links[i], p, config.base_rtt)
        }),
{
    reveal(binary64::spec_lt);
    let limit: Binary64 = config.voice_max_rtt;
    lemma_fast(links, limit, links.len());
    let fast: Seq<Link> = link::fast_links(links, limit, links.len());
    assert(links[i] == links[i]);
    assert(fast.contains(links[i]));
    let m: int = choose|m: int| 0 <= m < fast.len() && fast[m] == links[i];
    none_is_better_than_the_best(fast, config.base_rtt, m);
    let best: Link = link::spec_best_quality(fast, config.base_rtt);
    assert(fast.contains(best));
    let k: int = choose|k: int|
        0 <= k < links.len() && (#[trigger] links[k]) == best && binary64_laws::units(best.rtt)
            <= binary64_laws::units(limit);
    assert(link_laws::gauged(links[k]));
    binary64_laws::whole_numbers_are_exact(45);
    binary64_laws::units_keep_order(Binary64::whole(45), best.jitter);
    assert(!config.critical_loss.lt(links[k].loss));
}

// ---- Voice that cannot rely on its best link ----------------------------------------------

/// Where the best link within the delay allowed for voice loses more than the
/// critical share, or its jitter is beyond 45 milliseconds, voice goes to
/// another link within that delay whenever one loses no more than the unstable
/// share and is clearly steadier than the best.
pub proof fn voice_leaves_a_wavering_link(config: Config, links: Seq<Link>, i: int)
    requires
        all_gauged(links),
        link_laws::quantity(config.base_rtt),
        binary64_laws::plain(config.voice_max_rtt),
        forall|k: int| 0 <= k < links.len() ==> (#[trigger] links[k]).id != 0,
        forall|k: int, m: int| #![trigger links[k], links[m]]
            0 <= k < m < links.len() ==> links[k].id != links[m].id,
        0 <= i < links.len(),
        binary64_laws::units(links[i].rtt) <= binary64_laws::units(config.voice_max_rtt),
        !config.unstable_loss.lt(links[i].loss),
        ({
            let fast: Seq<Link> = link::fast_links(links, config.voice_max_rtt, links.len());
            let best: Link = link::spec_best_quality(fast, config.base_rtt);
            &&& config.critical_loss.lt(best.loss) || binary64_laws::units(best.jitter) > 45
                * binary64_laws::one()
            &&& link_laws::clearly_steadier(links[i], best)
        }),
    ensures
        ({
            let p: Link = link::spec_voice_primary(config, links);
            let fast: Seq<Link> = link::fast_links(links, config.voice_max_rtt, links.len());
            let best: Link = link::spec_best_quality(fast, config.base_rtt);
            &&& links.contains(p)
            &&& p.id != best.id
            &&& binary64_laws::units(p.rtt) <= binary64_laws::units(config.voice_max_rtt)
            &&& !config.unstable_loss.lt(p.loss)
            &&& !link_laws::clearly_steadier(links[i], p)
        }),
{
    reveal(binary64::spec_lt);
    let limit: Binary64 = config.voice_max_rtt;
    lemma_fast(links, limit, links.len());
    let fast: Seq<Link> = link::fast_links(links, limit, links.len());
    assert(links[i] == links[i]);
    assert(fast.contains(links[i]));
    let m: int = choose|m: int| 0 <= m < fast.len() && fast[m] == links[i];
    none_is_better_than_the_best(fast, config.base_rtt, m);
    let best: Link = link::spec_best_quality(fast, config.base_rtt);
    assert(fast.contains(best));
    the_copy_takes_the_steadiest(fast, 0, config.unstable_loss, m);
    let near: Option<Link> = link::spec_stable(fast, 0, config.unstable_loss);
    assert(fast.contains(near->0));
    let a: int = choose|k: int|
        0 <= k < links.len() && (#[trigger] links[k]) == near->0 && binary64_laws::units(
            near->0.rtt,
        ) <= binary64_laws::units(limit);
    let b: int = choose|k: int|
        0 <= k < links.len() && (#[trigger] links[k]) == best && binary64_laws::units(best.rtt)
            <= binary64_laws::units(limit);
    assert(near->0.id != best.id) by {
        if a < b {
            assert(links[a].id != links[b].id);
        } else if b < a {
            assert(links[b].id != links[a].id);
        }
    }
    assert(link_laws::gauged(links[b]));
    binary64_laws::whole_numbers_are_exact(45);
    binary64_laws::units_keep_order(Binary64::whole(45), best.jitter);
    lemma_pow2_pos(1074);
    link_laws::lemma_unset(Binary64::whole(45));
}

// ---- Draws ---------------------------------------------------------------------------------

/// The exact sum of the first `n` qualities.
pub open spec fn quality_sum(weights: Seq<(u8, Binary64)>, n: nat) -> nat
    decreases n,
{
    if n == 0 {
        0
    } else {
        quality_sum(weights, (n - 1) as nat) + binary64_laws::units(weights[n - 1].1)
    }
}

/// Whether all qualities are such as gauged links have.
pub open spec fn fair(weights: Seq<(u8, Binary64)>) -> bool {
    &&& 1 <= weights.len() <= 256
    &&& forall|i: int|
        0 <= i < weights.len() ==> binary64_approx::sized((#[trigger] weights[i]).1, 551, 1286)
}

proof fn lemma_total(weights: Seq<(u8, Binary64)>, n: nat)
    requires
        fair(weights),
        n <= weights.len(),
    ensures
        binary64_laws::plain(link::total_of(weights, n)),
        binary64_approx::approx(
            binary64_laws::units(link::total_of(weights, n)),
            quality_sum(weights, n),
            2 * n,
        ),
        quality_sum(weights, n) <= n * pow2(1286),
        n > 0 ==> quality_sum(weights, n) >= pow2(551),
        n <= weights.len(),
    decreases n,
{
    lemma_pow2_pos(1286);
    if n == 0 {
        binary64_laws::lemma_parts(link::zero());
        assert(0 * pow2(1286) == 0);
    } else {
        let k: nat = (n - 1) as nat;
        lemma_total(weights, k);
        let x: Binary64 = weights[n - 1].1;
        assert(binary64_approx::sized(weights[n - 1].1, 551, 1286));
        let s: Binary64 = link::total_of(weights, k);
        let su: nat = binary64_laws::units(s);
        let e: nat = quality_sum(weights, k);
        let u: nat = binary64_laws::units(x);
        assert(n * pow2(1286) == k * pow2(1286) + pow2(1286)) by (nonlinear_arith)
            requires
                n == k + 1,
        ;
        lemma2_to64();
        binary64_laws::lemma_scaled(1, 1286, 12);
        lemma_pow2_strictly_increases(1298, 2098);
        assert(k * pow2(1286) <= 256 * pow2(1286)) by (nonlinear_arith)
            requires
                k <= 256,
                pow2(1286) > 0,
        ;
        binary64_approx::lemma_approx_more(su, e, 2 * k, 512);
        assert(e * (0x4_0000_0000_0000 + 512) == e * 0x4_0000_0000_0200);
        assert(su <= 2 * e);
        binary64_laws::a_sum_is_near(s, x);
        let t: nat = binary64_laws::units(s.plus(x));
        binary64_approx::lemma_approx_near(t, su + u);
        lemma_same(u, 2 * k);
        path_laws::lemma_approx_sum(su, e, u, u, 2 * k);
        binary64_approx::lemma_approx_chain(t, su + u, e + u, 1, 2 * k);
        assert(binary64_approx::approx(t, e + u, 2 * n));
    }
}

proof fn lemma_share(weights: Seq<(u8, Binary64)>, i: int)
    requires
        fair(weights),
        0 <= i < weights.len(),
    ensures
        ({
            let n: nat = weights.len();
            let s: Binary64 = weights[i].1.over(link::total_of(weights, n));
            &&& binary64_laws::plain(s)
            &&& binary64_laws::units(s) <= pow2(1814)
            &&& binary64_approx::approx(
                binary64_laws::units(s) * quality_sum(weights, n),
                binary64_laws::units(weights[i].1) * binary64_laws::one(),
                520,
            )
        }),
{
    let n: nat = weights.len();
    lemma_total(weights, n);
    assert(binary64_approx::sized(weights[i].1, 551, 1286));
    let t: Binary64 = link::total_of(weights, n);
    let tu: nat = binary64_laws::units(t);
    let e: nat = quality_sum(weights, n);
    binary64_approx::lemma_approx_more(tu, e, 2 * n, 512);
    assert(e * (0x4_0000_0000_0000 + 512) == e * 0x4_0000_0000_0200);
    assert(e * (0x4_0000_0000_0000 - 512) == e * 0x3_ffff_ffff_fe00);
    lemma2_to64();
    lemma_pow2_pos(1286);
    binary64_laws::lemma_scaled(1, 1286, 9);
    binary64_laws::lemma_scaled(1, 550, 1);
    assert(n * pow2(1286) <= 256 * pow2(1286)) by (nonlinear_arith)
        requires
            n <= 256,
            pow2(1286) > 0,
    ;
    assert(pow2(550) <= tu <= pow2(1295));
    binary64_approx::over_step(weights[i].1, t, 551, 1286, 550, 1295);
    binary64::lemma_pow2_monotone(1811, 1814);
    let s: nat = binary64_laws::units(weights[i].1.over(t));
    binary64_approx::lemma_approx_replace(
        s,
        tu,
        e,
        binary64_laws::units(weights[i].1) * binary64_laws::one(),
        1,
        512,
    );
    binary64_approx::lemma_approx_more(
        s * e,
        binary64_laws::units(weights[i].1) * binary64_laws::one(),
        515,
        520,
    );
}

/// The share of the first `n` links, added up as a draw does.
spec fn drawn_up_to(weights: Seq<(u8, Binary64)>, n: nat) -> Binary64
    decreases n,
{
    if n == 0 {
        link::zero()
    } else {
        drawn_up_to(weights, (n - 1) as nat).plus(
            weights[n - 1].1.over(link::total_of(weights, weights.len())),
        )
    }
}

proof fn lemma_drawn_up_to(weights: Seq<(u8, Binary64)>, n: nat)
    requires
        fair(weights),
        n <= weights.len(),
    ensures
        binary64_laws::plain(drawn_up_to(weights, n)),
        binary64_laws::units(drawn_up_to(weights, n)) <= pow2(1830) * n * 2,
        binary64_approx::approx(
            binary64_laws::units(drawn_up_to(weights, n)) * quality_sum(weights, weights.len()),
            quality_sum(weights, n) * binary64_laws::one(),
            520 + 2 * n,
        ),
    decreases n,
{
    let all: nat = quality_sum(weights, weights.len());
    let one: nat = binary64_laws::one();
    lemma_pow2_pos(1830);
    if n == 0 {
        binary64_laws::lemma_parts(link::zero());
        assert(0 * all == 0 && 0 * one == 0);
    } else {
        let k: nat = (n - 1) as nat;
        lemma_drawn_up_to(weights, k);
        lemma_share(weights, k as int);
        let a: Binary64 = drawn_up_to(weights, k);
        let b: Binary64 = weights[n - 1].1.over(link::total_of(weights, weights.len()));
        let au: nat = binary64_laws::units(a);
        let bu: nat = binary64_laws::units(b);
        let p: nat = pow2(1830);
        lemma2_to64();
        binary64::lemma_pow2_monotone(1814, 1830);
        binary64_laws::lemma_scaled(1, 1830, 12);
        lemma_pow2_strictly_increases(1842, 2098);
        assert(p * k * 2 + p <= 1_024 * p) by (nonlinear_arith)
            requires
                k <= 256,
                p > 0,
        ;
        binary64_laws::a_sum_is_near(a, b);
        let c: nat = binary64_laws::units(a.plus(b));
        assert(c <= p * n * 2) by {
            assert(p * n * 2 == p * k * 2 + 2 * p) by (nonlinear_arith)
                requires
                    n == k + 1,
            ;
            let s: nat = au + bu;
            assert(c * 0x4_0000_0000_0000 <= s * 0x4_0000_0000_0001);
            assert(s <= p * k * 2 + p);
            assert(s <= 0x4_0000_0000_0000 * p);
        }
        binary64_approx::lemma_approx_near(c, au + bu);
        binary64_approx::lemma_approx_scale(c, au + bu, 1, all);
        assert((au + bu) * all == au * all + bu * all) by (nonlinear_arith);
        let e: nat = quality_sum(weights, k) * one;
        let u: nat = binary64_laws::units(weights[n - 1].1) * one;
        binary64_approx::lemma_approx_more(bu * all, u, 520, 520 + 2 * k);
        path_laws::lemma_approx_sum(au * all, e, bu * all, u, 520 + 2 * k);
        assert(quality_sum(weights, n) * one == e + u) by (nonlinear_arith)
            requires
                e == quality_sum(weights, k) * one,
                u == binary64_laws::units(weights[n - 1].1) * one,
                quality_sum(weights, n) == quality_sum(weights, k) + binary64_laws::units(
                    weights[n - 1].1,
                ),
        ;
        binary64_approx::lemma_approx_chain(c * all, au * all + bu * all, e + u, 1, 520 + 2 * k);
    }
}

proof fn lemma_sum_order(weights: Seq<(u8, Binary64)>, i: nat, j: nat)
    requires
        i <= j <= weights.len(),
    ensures
        quality_sum(weights, i) <= quality_sum(weights, j),
    decreases j,
{
    if i < j {
        lemma_sum_order(weights, i, (j - 1) as nat);
    }
}

/// Draws go over links by quality: a fraction that lies clearly past the share
/// of the links before one, and clearly short of the share with it, draws that
/// link. So over all fractions each link is drawn by its part of all quality.
pub proof fn links_are_drawn_by_quality(
    weights: Seq<(u8, Binary64)>,
    fraction: Binary64,
    i: int,
)
    requires
        fair(weights),
        binary64_laws::plain(fraction),
        0 <= i < weights.len(),
        i == 0 || binary64_size::clearly_less(
            quality_sum(weights, i as nat) * binary64_laws::one(),
            binary64_laws::units(fraction) * quality_sum(weights, weights.len()),
        ),
        binary64_size::clearly_less(
            binary64_laws::units(fraction) * quality_sum(weights, weights.len()),
            quality_sum(weights, (i + 1) as nat) * binary64_laws::one(),
        ),
    ensures
        link::drawn(
            weights,
            link::total_of(weights, weights.len()),
            fraction,
            link::zero(),
            0,
        ) == weights[i].0,
{
    lemma_drawn_from(weights, fraction, i, 0);
}

proof fn lemma_drawn_from(
    weights: Seq<(u8, Binary64)>,
    fraction: Binary64,
    i: int,
    j: int,
)
    requires
        fair(weights),
        binary64_laws::plain(fraction),
        0 <= j <= i < weights.len(),
        i == 0 || binary64_size::clearly_less(
            quality_sum(weights, i as nat) * binary64_laws::one(),
            binary64_laws::units(fraction) * quality_sum(weights, weights.len()),
        ),
        binary64_size::clearly_less(
            binary64_laws::units(fraction) * quality_sum(weights, weights.len()),
            quality_sum(weights, (i + 1) as nat) * binary64_laws::one(),
        ),
    ensures
        link::drawn(
            weights,
            link::total_of(weights, weights.len()),
            fraction,
            drawn_up_to(weights, j as nat),
            j,
        ) == weights[i].0,
    decreases i - j,
{
    reveal(binary64::spec_lt);
    let one: nat = binary64_laws::one();
    let all: nat = quality_sum(weights, weights.len());
    let n: nat = (j + 1) as nat;
    lemma_drawn_up_to(weights, n);
    let c: Binary64 = drawn_up_to(weights, n);
    let cu: nat = binary64_laws::units(c);
    let f: nat = binary64_laws::units(fraction);
    binary64_laws::units_keep_order(fraction, c);
    link_laws::lemma_unset(c);
    let e: nat = quality_sum(weights, n) * one;
    binary64_approx::lemma_approx_more(cu * all, e, 520 + 2 * n, 0x1000);
    lemma_same(f * all, 0x1000);
    if j == i {
        binary64_approx::lemma_clear(f * all, cu * all, f * all, e, 0x1000);
        assert(f < cu) by (nonlinear_arith)
            requires
                f * all < cu * all,
                all >= 0,
        ;
    } else {
        lemma_sum_order(weights, n, i as nat);
        let m: nat = quality_sum(weights, i as nat) * one;
        assert(e <= m) by (nonlinear_arith)
            requires
                e == quality_sum(weights, n) * one,
                m == quality_sum(weights, i as nat) * one,
                quality_sum(weights, n) <= quality_sum(weights, i as nat),
                one >= 0,
        ;
        binary64_approx::lemma_clear(cu * all, f * all, e, f * all, 0x1000);
        assert(cu < f) by (nonlinear_arith)
            requires
                cu * all < f * all,
                all >= 0,
        ;
        lemma_drawn_from(weights, fraction, i, j + 1);
    }
}

/// The qualities that are drawn by are those of gauged links, all of them, in
/// their order.
pub proof fn all_gauged_links_are_drawn(links: Seq<Link>, base: Binary64, n: nat)
    requires
        all_gauged(links),
        link_laws::quantity(base),
        n <= links.len(),
    ensures
        link::weights_of(links, base, n).len() == n,
        forall|i: int|
            0 <= i < n ==> (#[trigger] link::weights_of(links, base, n)[i]) == (
                links[i].id,
                links[i].spec_quality(base),
            ) && binary64_approx::sized(links[i].spec_quality(base), 551, 1286),
    decreases n,
{
    reveal(binary64::spec_lt);
    if n > 0 {
        all_gauged_links_are_drawn(links, base, (n - 1) as nat);
        assert(link_laws::gauged(links[n - 1]));
        link_laws::lemma_quality(links[n - 1], base);
        lemma_pow2_pos(551);
        link_laws::lemma_unset(links[n - 1].spec_quality(base));
    }
}

} // verus!
