//! What measurements do to what is recorded of an uplink.
use crate::direct;
use crate::direct::Uplink;
use vstd::prelude::*;

verus! {

/// How far apart two numbers are.
pub open spec fn apart(a: int, b: int) -> int {
    if a >= b {
        a - b
    } else {
        b - a
    }
}

pub open spec fn between(low: int, x: int, high: int) -> bool {
    low <= x <= high || high <= x <= low
}

/// The first measurement is taken as it is. Each later one draws the record
/// towards itself by an eighth of the distance, rounded down.
pub proof fn a_measurement_draws_by_an_eighth(prior: u64, observed: u64)
    ensures
        prior == 0 ==> direct::smoothed(prior, observed) == observed,
        prior > 0 ==> {
            let next: int = direct::smoothed(prior, observed) as int;
            &&& between(prior as int, next, observed as int)
            &&& 8 * apart(next, observed as int) <= 7 * apart(prior as int, observed as int) + 7
            &&& 8 * apart(next, observed as int) + 7 >= 7 * apart(prior as int, observed as int)
        },
{
}

/// After an answered probe on an uplink whose delay was known, the new delay
/// lies between the old one and the measurement, at seven eighths of the old
/// distance from it, give or take the rounding. A delay that was not known is
/// taken as it was measured. The same holds of the time of a handshake.
pub proof fn an_answer_draws_the_delay(u: Uplink, connect_us: u64, response_us: u64)
    ensures
        u.rtt_us == 0 ==> u.probed(connect_us, response_us).rtt_us == response_us,
        u.connect_us == 0 ==> u.probed(connect_us, response_us).connect_us == connect_us,
        u.rtt_us > 0 ==> {
            let next: int = u.probed(connect_us, response_us).rtt_us as int;
            let far: int = apart(u.rtt_us as int, response_us as int);
            &&& between(u.rtt_us as int, next, response_us as int)
            &&& 7 * far <= 8 * apart(next, response_us as int) + 7
            &&& 8 * apart(next, response_us as int) <= 7 * far + 7
        },
        u.connect_us > 0 ==> {
            let next: int = u.probed(connect_us, response_us).connect_us as int;
            let far: int = apart(u.connect_us as int, connect_us as int);
            &&& between(u.connect_us as int, next, connect_us as int)
            &&& 7 * far <= 8 * apart(next, connect_us as int) + 7
            &&& 8 * apart(next, connect_us as int) <= 7 * far + 7
        },
{
}

/// The uplink after some answered probes that all measure the same.
pub open spec fn answered(u: Uplink, connect_us: u64, response_us: u64, times: nat) -> Uplink
    decreases times,
{
    if times == 0 {
        u
    } else {
        answered(u, connect_us, response_us, (times - 1) as nat).probed(connect_us, response_us)
    }
}

/// Answers that stay at one value bring the recorded delay to it: to the value
/// itself from above, and to within the rounding from below, a microsecond or
/// more closer with every answer until then.
pub proof fn steady_answers_settle(u: Uplink, connect_us: u64, response_us: u64, times: nat)
    requires
        u.rtt_us > 0,
        response_us > 0,
    ensures
        ({
            let next: int = answered(u, connect_us, response_us, times).rtt_us as int;
            let far: int = apart(u.rtt_us as int, response_us as int);
            &&& next > 0
            &&& between(u.rtt_us as int, next, response_us as int)
            &&& apart(next, response_us as int) <= 7 || apart(next, response_us as int) + times
                <= far
            &&& u.rtt_us >= response_us ==> next == response_us || next + times <= u.rtt_us
        }),
    decreases times,
{
    if times > 0 {
        steady_answers_settle(u, connect_us, response_us, (times - 1) as nat);
        an_answer_draws_the_delay(
            answered(u, connect_us, response_us, (times - 1) as nat),
            connect_us,
            response_us,
        );
    }
}

/// After an answered probe the recorded jitter lies between the old one and
/// how far the answer was from the recorded delay, at three quarters of the
/// old distance from it, give or take the rounding. While no delay is known
/// an answer counts as no change.
pub proof fn an_answer_draws_the_jitter(u: Uplink, connect_us: u64, response_us: u64)
    ensures
        ({
            let next: int = u.probed(connect_us, response_us).jitter_us as int;
            let change: int = if u.rtt_us == 0 {
                0
            } else {
                apart(u.rtt_us as int, response_us as int)
            };
            let far: int = apart(u.jitter_us as int, change);
            &&& between(u.jitter_us as int, next, change)
            &&& 3 * far <= 4 * apart(next, change) + 3
            &&& 4 * apart(next, change) <= 3 * far + 3
        }),
{
}

/// The share of probes that fail moves by an eighth towards none with an
/// answer, and by an eighth towards all with a failure.
pub proof fn probes_draw_the_failure_share(
    u: Uplink,
    connect_us: u64,
    response_us: u64,
    reachable: bool,
)
    requires
        u.probe_failure_ppm <= 1_000_000,
    ensures
        ({
            let better: int = u.probed(connect_us, response_us).probe_failure_ppm as int;
            let worse: int = u.probe_missed(reachable).probe_failure_ppm as int;
            let share: int = u.probe_failure_ppm as int;
            &&& 7 * share <= 8 * better + 7
            &&& 8 * better <= 7 * share
            &&& 7 * (1_000_000 - share) <= 8 * (1_000_000 - worse)
            &&& 8 * (1_000_000 - worse) <= 7 * (1_000_000 - share) + 7
        }),
{
}

/// An answered probe makes an uplink healthy. A failed one makes it unhealthy
/// exactly when nothing can be reached, and counts as a failure. Neither
/// touches what was sent, received, acknowledged or held.
pub proof fn probes_tell_health(
    u: Uplink,
    connect_us: u64,
    response_us: u64,
    reachable: bool,
)
    ensures
        u.probed(connect_us, response_us).healthy,
        u.probe_missed(reachable).healthy == reachable,
        u.failures < u64::MAX ==> u.probe_missed(reachable).failures == u.failures + 1,
        u.probed(connect_us, response_us) == (Uplink {
            rtt_us: u.probed(connect_us, response_us).rtt_us,
            connect_us: u.probed(connect_us, response_us).connect_us,
            jitter_us: u.probed(connect_us, response_us).jitter_us,
            probe_failure_ppm: u.probed(connect_us, response_us).probe_failure_ppm,
            healthy: true,
            ..u
        }),
        u.probe_missed(reachable) == (Uplink {
            failures: u.probe_missed(reachable).failures,
            probe_failure_ppm: u.probe_missed(reachable).probe_failure_ppm,
            healthy: reachable,
            ..u
        }),
{
}

/// Once held, an uplink gets no upload for three seconds, and a hold never
/// shortens one that is longer.
pub proof fn a_hold_lasts(u: Uplink, now: u64, later: u64)
    requires
        u.created_ms <= now <= later,
        now <= u64::MAX - 3_000,
    ensures
        later < now + 3_000 ==> u.held(now).upload_held(later),
        u.upload_held(later) ==> u.held(now).upload_held(later),
        later >= now + 3_000 && !u.upload_held(later) ==> !u.held(now).upload_held(later),
{
}

/// A longer handshake never shortens the wait for the preferred uplink, and the
/// wait is three handshakes and a tenth of a second wherever that lies between
/// the least wait and an attempt's whole time.
pub proof fn the_wait_grows_with_the_handshake(a: u64, b: u64)
    requires
        0 < a <= b,
    ensures
        direct::spec_preferred_budget(a) <= direct::spec_preferred_budget(b),
        300_000 <= direct::spec_preferred_budget(a) <= 1_200_000,
        direct::spec_preferred_budget(0) == 1_200_000,
        300_000 < direct::spec_preferred_budget(a) && direct::spec_preferred_budget(b) < 1_200_000
            ==> direct::spec_preferred_budget(b) - direct::spec_preferred_budget(a) == 3 * (b - a),
        direct::spec_preferred_budget(a) < 1_200_000 ==> direct::spec_preferred_budget(a) >= 3 * a
            + 100_000,
        direct::spec_preferred_budget(a) > 300_000 ==> direct::spec_preferred_budget(a) <= 3 * a
            + 100_000,
{
}

/// A part that is replaced and put back leaves the total as it was, and a total
/// that is the sum of its parts stays that sum.
pub proof fn a_total_follows_its_parts(rest: u64, old_part: u64, new_part: u64)
    requires
        rest + old_part <= u64::MAX,
        rest + new_part <= u64::MAX,
    ensures
        direct::replace_contribution((rest + old_part) as u64, old_part, new_part) == rest
            + new_part,
{
}

} // verus!
