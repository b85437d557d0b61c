//! What a turn forgets and asks, in terms of what was seen and when.
use crate::binary64::Binary64;
use crate::bond::SchedulerView;
use crate::brain;
use crate::frame;
use crate::frame::{FrameView, Kind};
use crate::path::Path;
use crate::repair;
use vstd::prelude::*;

verus! {

/// Once a second the flows that were not seen for long are forgotten: a pin of
/// a packet after a second and one of a UDP flow after half a minute, a media
/// flow after two minutes, fragments after two seconds, a TCP flow after a
/// minute. All other flows stay as they were, and so does all the rest.
pub proof fn unseen_flows_are_forgotten(s: SchedulerView, now: u64, key: u128)
    requires
        s.last_prune + 1_000 <= now,
    ensures
        ({
            let t: SchedulerView = s.pruned(now);
            &&& t.flow_paths.contains_key(key) <==> s.flow_paths.contains_key(key) && now
                < s.flow_paths[key].seen + if key % 2 == 1 {
                1_000int
            } else {
                30_000int
            }
            &&& t.srt_flows.contains_key(key) <==> s.srt_flows.contains_key(key) && now
                < s.srt_flows[key] + 120_000
            &&& t.fragment_flows.contains_key(key) <==> s.fragment_flows.contains_key(key) && now
                < s.fragment_flows[key].seen + 2_000
            &&& t.tcp_flows.contains_key(key) <==> s.tcp_flows.contains_key(key) && now
                < s.tcp_flows[key].touched + 60_000
            &&& t.flow_paths.contains_key(key) ==> t.flow_paths[key] == s.flow_paths[key]
            &&& t.srt_flows.contains_key(key) ==> t.srt_flows[key] == s.srt_flows[key]
            &&& t.fragment_flows.contains_key(key) ==> t.fragment_flows[key]
                == s.fragment_flows[key]
            &&& t.tcp_flows.contains_key(key) ==> t.tcp_flows[key] == s.tcp_flows[key]
            &&& t.paths == s.paths
            &&& t.pending == s.pending
            &&& forall|soon: u64| soon < now + 1_000 ==> #[trigger] t.pruned(soon) == t
        }),
{
}

/// An attempt that is remembered for late answers is forgotten after its time,
/// and not before.
pub proof fn late_answers_are_awaited_in_time(s: SchedulerView, now: u64, key: u128)
    ensures
        s.recent_expired(now).recent.contains_key(key) <==> s.recent.contains_key(key)
            && s.recent[key].expires >= now,
        s.recent_expired(now).recent.contains_key(key) ==> s.recent_expired(now).recent[key]
            == s.recent[key],
{
}

/// Probes go out twenty milliseconds apart. When they do, each enabled path is
/// asked, in the order of the paths, and no other.
pub proof fn every_enabled_path_is_asked(s: SchedulerView, now: u64, i: int)
    requires
        0 <= i < s.paths.len(),
    ensures
        ({
            let asked: Seq<FrameView> = s.probed(now).1;
            let due: bool = s.last_probe is None || now >= s.last_probe->0 + 20;
            &&& !due ==> asked.len() == 0 && s.probed(now).0 == s
            &&& due ==> s.probed(now).0.last_probe == Some(now)
            &&& due && s.paths[i].enabled ==> asked.contains(
                FrameView {
                    kind: Kind::Probe,
                    path: s.paths[i].id,
                    id: now,
                    stamp: now,
                    body: Seq::empty(),
                },
            )
            &&& forall|k: int|
                0 <= k < asked.len() ==> exists|j: int|
                    0 <= j < s.paths.len() && (#[trigger] s.paths[j]).enabled && s.paths[j].id == (
                    #[trigger] asked[k]).path
            &&& asked.len() <= s.paths.len()
        }),
{
    lemma_asked(s.paths, now, s.n(), i);
}

proof fn lemma_asked(paths: Seq<Path>, now: u64, n: nat, i: int)
    requires
        n <= paths.len(),
    ensures
        repair::probe_frames(paths, now, n).len() <= n,
        0 <= i < n && paths[i].enabled ==> repair::probe_frames(paths, now, n).contains(
            frame::spec_control(Kind::Probe, paths[i].id, now, now),
        ),
        forall|k: int|
            0 <= k < repair::probe_frames(paths, now, n).len() ==> exists|j: int|
                0 <= j < n && (#[trigger] paths[j]).enabled && paths[j].id == (
                #[trigger] repair::probe_frames(paths, now, n)[k]).path,
    decreases n,
{
    if n > 0 {
        let m: nat = (n - 1) as nat;
        let before: Seq<FrameView> = repair::probe_frames(paths, now, m);
        let all: Seq<FrameView> = repair::probe_frames(paths, now, n);
        lemma_asked(paths, now, m, i);
        assert forall|k: int| 0 <= k < all.len() implies exists|j: int|
            0 <= j < n && (#[trigger] paths[j]).enabled && paths[j].id == (
            #[trigger] all[k]).path by {
            if k < before.len() {
                assert(all[k] == before[k]);
            } else {
                assert(paths[n - 1].enabled);
            }
        }
        if 0 <= i < n && paths[i].enabled {
            let f: FrameView = frame::spec_control(Kind::Probe, paths[i].id, now, now);
            if i == n - 1 {
                assert(all[before.len() as int] == f);
            } else {
                let k: int = choose|k: int| 0 <= k < before.len() && before[k] == f;
                assert(all[k] == f);
            }
        }
    }
}

/// Of several entries of greatest score the last is taken: all after it score
/// less.
pub proof fn the_last_of_the_strongest_is_taken(list: Seq<usize>, scores: Seq<Binary64>) -> (at: int)
    requires
        list.len() > 0,
    ensures
        0 <= at < list.len(),
        brain::strongest(list, scores) == Some(list[at]),
        forall|i: int|
            0 <= i <= at ==> scores[(#[trigger] list[i]) as int].key() <= scores[list[at] as int].key(),
        forall|i: int|
            at < i < list.len() ==> scores[(#[trigger] list[i]) as int].key()
                < scores[list[at] as int].key(),
    decreases list.len(),
{
    let rest: Seq<usize> = list.drop_last();
    let n: int = list.len() as int;
    if rest.len() == 0 {
        0
    } else {
        let k: int = the_last_of_the_strongest_is_taken(rest, scores);
        assert forall|i: int| 0 <= i < rest.len() implies #[trigger] list[i] == rest[i] by {
        }
        if scores[list[k] as int].key() <= scores[list[n - 1] as int].key() {
            n - 1
        } else {
            k
        }
    }
}

} // verus!
