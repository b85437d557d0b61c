use verz_link::binary64::Binary64;
use verz_link::bond::Policy;
use verz_link::brain::{advise, BrainAdvice};
use verz_link::direct::{
    intent_for, known_realtime_port, latency_factor, number_policy, parse_policy, policy_number,
    preferred_budget, replace_contribution, smooth, upload_congested, Intent, Path, Uplink,
    CONNECT_ATTEMPT_US, PREFERRED_MINIMUM_US,
};
use verz_link::flow::{Meter, PayloadTotals};
use verz_link::names::{self, normalize_domains, NameError};
use verz_link::plan::Source;
use verz_link::route::{destination_tag, Race, RaceMove, CONNECT_BUDGET_US, CONNECT_STAGGER_US};
use verz_link::runtime::{Control, InterfaceConfig, Runtime};
use verz_link::tcp_metrics::Snapshot;

/// Milliseconds at which the uplinks of these tests come up.
const START: u64 = 100_000;

fn val(x: Binary64) -> f64 {
    f64::from_bits(x.bits)
}

fn parse_path(value: &str) -> Result<Path, NameError> {
    names::parse_path(value, START, 1)
}

fn runtime(paths: Vec<Path>, policy: Policy) -> Runtime {
    Runtime::new(paths, policy, 2)
}

fn advice_for(runtime: &Runtime) -> BrainAdvice {
    advise(&runtime.report(0, START), 1)
}

/// Cloud advice as it looks once the server has delivery evidence.
fn learned_advice(runtime: &Runtime) -> BrainAdvice {
    let mut advice = advice_for(runtime);
    advice.learned_paths = 1;
    advice
}

fn weights(en0: u32, en7: u32) -> Vec<(String, u32)> {
    vec![("en0".into(), en0), ("en7".into(), en7)]
}

fn candidates(runtime: &mut Runtime, intent: Intent) -> Vec<String> {
    let plan = runtime.plan(intent, START);
    plan.order.iter().map(|&i| runtime.paths[i].name.clone()).collect()
}

#[test]
fn preferred_connection_wins_without_opening_a_backup() {
    let mut race = Race::new(4, CONNECT_BUDGET_US, 0);
    assert_eq!(race.turn(0), RaceMove::Launch(0));
    // The first attempt is answered before the next may begin.
    assert_eq!(race.turn(1), RaceMove::Wait(CONNECT_STAGGER_US));
    assert_eq!(race.total - race.waiting, 1);
}

#[test]
fn stalled_primary_does_not_hold_backup_and_losing_leases_are_dropped() {
    let mut primary = parse_path("en0=192.0.2.1,false").unwrap().link;
    let mut backup = parse_path("en7=192.0.2.2,false").unwrap().link;
    let mut race = Race::new(2, CONNECT_BUDGET_US, 0);
    assert_eq!(race.turn(0), RaceMove::Launch(0));
    primary.begin();
    assert_eq!(race.turn(CONNECT_STAGGER_US), RaceMove::Launch(1));
    backup.begin();
    assert!(CONNECT_STAGGER_US < 1_000_000);
    backup.connected();
    primary.end(true);
    assert_eq!((primary.active, primary.connecting), (0, 0));
    assert_eq!(backup.active, 1);
    backup.end(false);
    assert_eq!((backup.active, backup.connecting), (0, 0));
}

#[test]
fn all_stalled_candidates_share_one_deadline_and_release_reservations() {
    let mut link = parse_path("en0=192.0.2.1,false").unwrap().link;
    let mut race = Race::new(16, 220_000, 0);
    let mut now = 0;
    let mut begun = 0;
    loop {
        match race.turn(now) {
            RaceMove::Launch(i) => {
                assert_eq!(i, begun);
                begun += 1;
                link.begin();
            }
            RaceMove::Wait(until) => now = until,
            RaceMove::GiveUp => break,
        }
    }
    assert_eq!((now, begun), (220_000, 2));
    for _ in 0..begun {
        link.end(true);
    }
    assert_eq!((link.active, link.connecting), (0, 0));
}

#[test]
fn refused_candidates_do_not_add_a_stagger_delay_each() {
    let mut race = Race::new(8, CONNECT_BUDGET_US, 0);
    for i in 0..8 {
        assert_eq!(race.turn(i), RaceMove::Launch(i as usize));
        if i < 7 {
            race.failed(i);
        }
    }
    assert!(8 < CONNECT_STAGGER_US);
}

#[test]
fn path_parser_rejects_unsafe_input() {
    assert!(parse_path("en0=192.168.1.2,false").is_ok());
    assert!(parse_path("../bad=192.168.1.2,false").is_err());
    assert!(parse_path("en0=127.0.0.1,false").is_err());
    assert!(parse_path("en0=192.168.1.2,maybe").is_err());
}

#[test]
fn proven_paths_share_work_but_realtime_prefers_low_delay() {
    let mut a = parse_path("en0=192.168.1.2,false").unwrap();
    let mut b = parse_path("en7=192.168.1.3,false").unwrap();
    a.link.rtt_us = 20_000;
    b.link.rtt_us = 40_000;
    a.link.acknowledged = 100_000;
    b.link.acknowledged = 100_000;
    let mut runtime = runtime(vec![a, b], Policy::Smart);
    assert_eq!(candidates(&mut runtime, Intent::Balanced)[0], "en0");
    assert_eq!(candidates(&mut runtime, Intent::Balanced)[0], "en7");
    runtime.paths[1].link.rtt_us = 75_000;
    assert_eq!(candidates(&mut runtime, Intent::Balanced).len(), 2);
    assert_eq!(candidates(&mut runtime, Intent::Realtime)[0], "en0");
}

#[test]
fn data_saver_avoids_metered_path() {
    let a = parse_path("en0=192.168.1.2,true").unwrap();
    let b = parse_path("en7=192.168.1.3,false").unwrap();
    let mut runtime = runtime(vec![a, b], Policy::DataSaver);
    assert_eq!(candidates(&mut runtime, Intent::Balanced).len(), 1);
    assert_eq!(candidates(&mut runtime, Intent::Balanced)[0], "en7");
}

#[test]
fn all_slow_paths_remain_available_for_bulk() {
    let mut a = parse_path("en0=192.168.1.2,false").unwrap();
    let mut b = parse_path("en7=192.168.1.3,false").unwrap();
    a.link.rtt_us = 120_000;
    b.link.rtt_us = 90_000;
    let mut runtime = runtime(vec![a, b], Policy::Smart);
    assert_eq!(candidates(&mut runtime, Intent::Balanced).len(), 2);
    assert_eq!(candidates(&mut runtime, Intent::Realtime)[0], "en7");
}

#[test]
fn secure_domain_rules_are_normalized_and_validated() {
    assert_eq!(normalize_domains(&vec![".Example.COM.".into()]).unwrap(), vec!["example.com"]);
    assert!(normalize_domains(&vec!["bad domain".into()]).is_err());
}

#[test]
fn mixed_use_assignments_use_conservative_weights_and_reservations() {
    let mut a = parse_path("en0=192.168.1.2,false").unwrap();
    let mut b = parse_path("en7=192.168.1.3,false").unwrap();
    a.link.active = 100; // Idle keep-alives do not matter.
    b.link.active = 4;
    a.link.acknowledged = 100_000;
    b.link.acknowledged = 100_000;
    let mut runtime = runtime(vec![a, b], Policy::Smart);
    let mut advice = learned_advice(&runtime);
    advice.download_weights = weights(64, 4);
    advice.upload_weights = weights(4, 64);
    advice.weights = weights(4, 16);
    runtime.brain_advice = Some((START, advice));
    assert_eq!(candidates(&mut runtime, Intent::Balanced)[0], "en7");
    let link = &mut runtime.paths[0].link;
    link.begin();
    assert_eq!(link.connecting, 1);
    link.connected();
    assert_eq!(link.connecting, 0);
    link.end(false);
    assert_eq!(link.active, 100);
}

#[test]
fn live_traffic_direction_uses_its_own_champion_and_weights() {
    let mut paths = Vec::new();
    for value in ["en0=192.168.1.2,false", "en7=192.168.1.3,false"] {
        let mut path = parse_path(value).unwrap();
        path.link.rtt_us = 20_000;
        path.link.acknowledged = 100_000;
        path.link.received = 100_000;
        paths.push(path);
    }
    let mut runtime = runtime(paths, Policy::Smart);
    let mut advice = learned_advice(&runtime);
    advice.download_champion = Some("en0".into());
    advice.upload_champion = Some("en7".into());
    advice.download_weights = weights(64, 8);
    advice.upload_weights = weights(8, 64);
    runtime.brain_advice = Some((START, advice));
    assert_eq!(candidates(&mut runtime, Intent::Download)[0], "en0");
    assert_eq!(candidates(&mut runtime, Intent::Upload)[0], "en7");
}

#[test]
fn expired_advice_uses_local_learning_and_limits_unknown_path_trials() {
    let mut a = parse_path("en0=192.168.1.2,false").unwrap();
    let mut b = parse_path("en7=192.168.1.3,false").unwrap();
    a.link.busy = 2;
    b.link.busy = 2;
    a.link.acknowledged = 100_000;
    b.link.acknowledged = 100_000;
    let mut runtime = runtime(vec![a, b], Policy::Smart);
    let mut remote = learned_advice(&runtime);
    remote.weights = weights(1, 64);
    let mut local = learned_advice(&runtime);
    local.weights = weights(64, 1);
    runtime.local_advice = Some(local);
    runtime.brain_advice = Some((START - 6_000, remote));
    assert_eq!(candidates(&mut runtime, Intent::Balanced)[0], "en0");
    let c = names::parse_path("en8=192.168.1.4,false", START - 6_000, 3).unwrap();
    runtime.paths.push(c);
    assert_eq!(candidates(&mut runtime, Intent::Balanced)[0], "en8");
    assert_eq!(candidates(&mut runtime, Intent::Balanced)[0], "en0");
    runtime.apply_control(
        &Control { interfaces: vec![], policy: None, secure_domains: None },
        START,
    );
    assert!(candidates(&mut runtime, Intent::Balanced).is_empty());
}

#[test]
fn live_socket_bytes_are_visible_before_close_and_half_close_survives() {
    let link = parse_path("en0=192.168.1.2,false").unwrap().link;
    let none = PayloadTotals { upload: 0, download: 0, unmeasured: 0 };
    let mut socket = Meter::open(Some(link), none, true, 0, 1_000_000);
    socket.write(131_072, 1_000_000);
    assert_eq!(socket.link.unwrap().sent, 131_072);
    socket.read(128, 1_010_000);
    assert_eq!(socket.link.unwrap().received, 128);
    let delivered =
        Snapshot { acknowledged: 100_000, queued: 31_072, retransmitted: 0, rtt_us: 900 };
    socket.sample(Some(delivered), 1_020_000);
    assert_eq!(socket.link.unwrap().acknowledged, 100_000);
    assert_eq!((socket.totals.upload, socket.totals.download), (100_000, 128));
    socket.sample(Some(delivered), 1_030_000);
    assert_eq!(socket.totals.upload, 100_000);
    socket.end(Some(delivered), 1_040_000);
    assert_eq!((socket.link.unwrap().queued, socket.link.unwrap().busy), (0, 0));
}

#[test]
fn stalled_socket_is_sampled_without_reads_and_cleans_up_on_cancellation() {
    let link = parse_path("en0=192.168.1.2,false").unwrap().link;
    let none = PayloadTotals { upload: 0, download: 0, unmeasured: 0 };
    let start = START * 1_000;
    let mut stream = Meter::open(Some(link), none, false, 0, start);
    stream.write(16_777_216, start);
    let stuck =
        Snapshot { acknowledged: 4_096, queued: 2_000_000, retransmitted: 0, rtt_us: 1_000 };
    let mut now = start;
    while !stream.link.unwrap().upload_held(now / 1_000) {
        now += 20_000;
        stream.sample(Some(stuck), now);
        assert!(now < start + 4_000_000);
    }
    let link = stream.link.unwrap();
    assert!(link.queued > 0);
    assert!(link.acknowledged < link.sent);
    stream.end(None, now);
    assert_eq!((stream.link.unwrap().queued, stream.link.unwrap().busy), (0, 0));
}

#[test]
fn expired_hold_allows_one_recovery_trial_not_an_upload_flood() {
    let mut a = names::parse_path("en0=192.168.1.2,false", START - 10_000, 1).unwrap();
    a.link.acknowledged = 1_000_000;
    a.link.upload_hold_until_ms = 5_000;
    a.link.recovery_acknowledged = 2_000_000;
    let mut b = parse_path("en7=192.168.1.3,false").unwrap();
    b.link.acknowledged = 1_000_000;
    b.link.busy = 2;
    let mut runtime = runtime(vec![a, b], Policy::Smart);
    assert_eq!(candidates(&mut runtime, Intent::Balanced)[0], "en0");
    assert_eq!(candidates(&mut runtime, Intent::Balanced)[0], "en7");
}

#[test]
fn unknown_encrypted_traffic_is_not_guessed_to_be_a_call() {
    assert!(!known_realtime_port(443));
    assert!(known_realtime_port(1935));
    assert!(known_realtime_port(5061));
}

#[test]
fn unknown_flows_are_not_classified_by_machine_wide_traffic_shape() {
    assert_eq!(intent_for(443), Intent::Balanced);
    assert_eq!(intent_for(80), Intent::Balanced);
    assert_eq!(intent_for(5061), Intent::Realtime);
}

#[test]
fn flow_record_destination_tag_is_salted_and_never_the_destination() {
    let salt = [5; 16];
    let a = destination_tag(&salt, "Example.com", 443);
    assert_eq!(a, destination_tag(&salt, "example.com", 443));
    assert_ne!(a, destination_tag(&salt, "example.com", 80));
    assert_ne!(a, destination_tag(&[6; 16], "example.com", 443));
    assert_eq!(a.len(), 16);
    assert!(!a.contains("example"));
}

#[test]
fn plan_reports_its_evidence_and_ttfb_is_request_to_first_reply() {
    let mut wifi = parse_path("en0=192.168.1.2,false").unwrap();
    let mut lan = parse_path("en7=192.168.1.3,false").unwrap();
    wifi.link.rtt_us = 70_000;
    lan.link.rtt_us = 15_000;
    let mut runtime = runtime(vec![wifi, lan], Policy::Smart);
    let plan = runtime.plan(Intent::Balanced, START);
    assert_eq!(plan.source.unwrap().name(), "none");
    assert_eq!(plan.features.len(), 2);
    assert!(plan
        .features
        .iter()
        .any(|f| runtime.paths[f.path].name == "en7" && f.penalty.map(val) == Some(1.0)));
    let local = advice_for(&runtime);
    runtime.local_advice = Some(local);
    let plan = runtime.plan(Intent::Balanced, START);
    assert_eq!(plan.source, Some(Source::Local));
    assert_eq!(plan.source.unwrap().name(), "local");
    assert_eq!(runtime.paths[plan.primary.unwrap()].name, "en7");

    let none = PayloadTotals { upload: 0, download: 0, unmeasured: 0 };
    let mut stream = Meter::open(None, none, false, 0, 0);
    assert_eq!(stream.flow.ttfb_us(), None);
    stream.write(4, 1_000);
    assert_eq!(stream.flow.ttfb_us(), None);
    stream.read(4, 51_000);
    assert!(stream.flow.ttfb_us().is_some_and(|v| v >= 50_000));
}

#[test]
fn failover_wait_scales_with_measured_handshake_within_bounds() {
    assert_eq!(preferred_budget(0), CONNECT_ATTEMPT_US);
    assert_eq!(preferred_budget(70_000), 310_000);
    assert_eq!(preferred_budget(10_000), PREFERRED_MINIMUM_US);
    assert_eq!(preferred_budget(900_000), CONNECT_ATTEMPT_US);
}

#[test]
fn latency_penalty_ignores_small_differences_and_unknowns() {
    assert_eq!(val(latency_factor(0, 66_000)), 1.0);
    assert_eq!(val(latency_factor(66_000, 0)), 1.0);
    assert_eq!(val(latency_factor(40_000, 20_000)), 1.0);
    assert_eq!(val(latency_factor(66_000, 66_000)), 1.0);
    let lan = val(latency_factor(620_000, 66_000));
    assert!((6.0..6.1).contains(&lan), "{lan}");
    assert_eq!(val(latency_factor(10_000_000, 1_000)), 16.0);
}

#[test]
fn cloud_advice_without_evidence_defers_to_local_delay_measurement() {
    let mut hotspot = parse_path("en0=192.168.1.2,false").unwrap();
    let mut lan = parse_path("en7=192.168.1.3,false").unwrap();
    hotspot.link.rtt_us = 70_000;
    lan.link.rtt_us = 15_000;
    let mut runtime = runtime(vec![hotspot, lan], Policy::Smart);
    let remote = |runtime: &Runtime, learned: usize| {
        let mut advice = advice_for(runtime);
        advice.balanced_champion = Some("en0".into());
        advice.weights = weights(64, 1);
        advice.learned_paths = learned;
        Some((START, advice))
    };
    runtime.brain_advice = remote(&runtime, 0);
    let local = advice_for(&runtime);
    runtime.local_advice = Some(local);
    assert_eq!(candidates(&mut runtime, Intent::Balanced)[0], "en7");
    // Once the cloud has delivery evidence its advice is used again.
    runtime.brain_advice = remote(&runtime, 1);
    assert_eq!(candidates(&mut runtime, Intent::Balanced)[0], "en0");
}

#[test]
fn busy_fast_path_is_not_relieved_by_a_much_slower_idle_path() {
    let mut wifi = parse_path("en0=192.168.1.2,false").unwrap();
    let mut lan = parse_path("en7=192.168.1.3,false").unwrap();
    wifi.link.rtt_us = 66_000;
    lan.link.rtt_us = 620_000;
    for path in [&mut wifi, &mut lan] {
        path.link.acknowledged = 1_000_000;
        path.link.received = 1_000_000;
    }
    let mut runtime = runtime(vec![wifi, lan], Policy::Smart);
    let mut advice = learned_advice(&runtime);
    advice.balanced_champion = Some("en0".into());
    advice.weights = weights(64, 9);
    runtime.brain_advice = Some((START, advice));
    runtime.paths[0].link.busy = 10;
    assert_eq!(candidates(&mut runtime, Intent::Balanced)[0], "en0");
    runtime.paths[0].link.busy = 40;
    assert_eq!(candidates(&mut runtime, Intent::Balanced)[0], "en0");
    // Under heavy concurrency the slower path still adds capacity.
    runtime.paths[0].link.busy = 60;
    assert_eq!(candidates(&mut runtime, Intent::Balanced)[0], "en7");
    // Comparable delay keeps the capacity-proportional sharing.
    runtime.paths[1].link.rtt_us = 90_000;
    runtime.paths[0].link.busy = 10;
    assert_eq!(candidates(&mut runtime, Intent::Balanced)[0], "en7");
}

#[test]
fn much_slower_unproven_path_is_trialled_only_under_real_load() {
    let mut wifi = names::parse_path("en0=192.168.1.2,false", START - 10_000, 1).unwrap();
    let mut lan = names::parse_path("en7=192.168.1.3,false", START - 10_000, 2).unwrap();
    wifi.link.rtt_us = 66_000;
    lan.link.rtt_us = 620_000;
    wifi.link.acknowledged = 1_000_000;
    wifi.link.received = 1_000_000;
    let mut runtime = runtime(vec![wifi, lan], Policy::Smart);
    let mut advice = learned_advice(&runtime);
    advice.balanced_champion = Some("en0".into());
    advice.weights = weights(64, 1);
    runtime.brain_advice = Some((START, advice));
    runtime.paths[0].link.busy = 1;
    assert_eq!(candidates(&mut runtime, Intent::Balanced)[0], "en0");
    runtime.paths[0].link.busy = 8;
    assert_eq!(candidates(&mut runtime, Intent::Balanced)[0], "en7");
    // One trial per five seconds; the next flow returns to the primary.
    assert_eq!(candidates(&mut runtime, Intent::Balanced)[0], "en0");
    // A similarly fast unproven path is trialled as soon as work exists.
    runtime.paths[1].link.rtt_us = 80_000;
    runtime.paths[1].link.last_trial_ms = 0;
    runtime.paths[0].link.busy = 1;
    assert_eq!(candidates(&mut runtime, Intent::Balanced)[0], "en7");
}

#[test]
fn upload_guard_uses_backlog_and_loaded_delay_not_geographic_rtt() {
    assert!(!upload_congested(1_000_000, 100_000, 0, 200_000, 0, 0));
    assert!(upload_congested(1_000_000, 100_000, 750_000, 100_000, 0, 0));
    assert!(upload_congested(1_000_000, 100_000, 0, 0, 0, 1_000_000));
    assert!(upload_congested(1_000_000, 100_000, 0, 10_000, 5_000, 0));
    assert!(!upload_congested(500, 500, 750_000, 0, 0, 1_000_000));
}

#[test]
fn local_congestion_overrides_remote_advice_but_never_blackholes_only_path() {
    let mut a = parse_path("en0=192.168.1.2,false").unwrap();
    let mut b = parse_path("en7=192.168.1.3,false").unwrap();
    a.link.acknowledged = 1_000_000;
    b.link.acknowledged = 1_000_000;
    a.link.hold_uploads(START);
    b.link.busy = 100;
    let mut runtime = runtime(vec![a, b], Policy::Smart);
    let mut advice = learned_advice(&runtime);
    advice.weights = weights(64, 1);
    runtime.brain_advice = Some((START, advice));
    for _ in 0..20 {
        assert_eq!(candidates(&mut runtime, Intent::Balanced)[0], "en7");
    }
    runtime.paths.truncate(1);
    assert_eq!(candidates(&mut runtime, Intent::Balanced)[0], "en0");
}

#[test]
fn path_parser_names_each_fault() {
    let fault = |value: &str| parse_path(value).err().unwrap().message();
    assert_eq!(fault("en0"), "path must be name=IPv4,metered");
    assert_eq!(fault("en0=192.168.1.2,maybe"), "path metered flag must be true or false");
    assert_eq!(fault("en0=192.168.1,true"), "invalid IPv4 address syntax");
    assert_eq!(fault("../bad=192.168.1.2,false"), "invalid physical interface name");
    assert_eq!(fault("en0=127.0.0.1,false"), "invalid path IPv4 address");
    let domain = normalize_domains(&vec!["bad domain".into()]).err().unwrap();
    assert_eq!(domain.message(), "invalid secure domain suffix");
    let parsed = parse_path("en0=192.168.1.2,true").unwrap();
    assert_eq!((parsed.name.as_str(), parsed.address), ("en0", [192, 168, 1, 2]));
    assert!(parsed.link.metered);
    assert_eq!(parsed.link.created_ms, START);
}

#[test]
fn policies_keep_their_numbers_and_words() {
    for (i, (word, policy)) in [
        ("smart", Policy::Smart),
        ("continuity", Policy::Continuity),
        ("performance", Policy::Performance),
        ("data-saver", Policy::DataSaver),
    ]
    .into_iter()
    .enumerate()
    {
        assert_eq!(parse_policy(word), Some(policy));
        assert_eq!(number_policy(policy_number(policy)), policy);
        assert!(policy_number(policy) < 4, "{i}");
    }
    assert_eq!(parse_policy("fast"), None);
}

#[test]
fn probes_smooth_delay_and_failures_stay_bounded() {
    assert_eq!(smooth(0, 80), 80);
    assert_eq!(replace_contribution(100, 30, 45), 115);
    let mut link = Uplink::new(false, 0, 0);
    link.probe_answered(10_000, 40_000);
    assert_eq!((link.rtt_us, link.connect_us), (40_000, 10_000));
    for _ in 0..100 {
        link.probe_failed(false);
    }
    assert!(link.probe_failure_ppm <= 1_000_000);
    assert!(!link.healthy);
}

#[test]
fn unchanged_configuration_keeps_learned_state() {
    let mut runtime = runtime(vec![parse_path("en0=192.168.1.2,false").unwrap()], Policy::Smart);
    runtime.paths[0].link.acknowledged = 77;
    let same = Control {
        interfaces: vec![InterfaceConfig {
            name: "en0".into(),
            address: Some("192.168.1.2".into()),
            metered: false,
        }],
        policy: Some("continuity".into()),
        secure_domains: Some(vec!["Example.com".into()]),
    };
    runtime.apply_control(&same, START + 10);
    assert_eq!(runtime.paths.len(), 1);
    assert_eq!(runtime.paths[0].link.acknowledged, 77);
    assert_eq!(runtime.policy, Policy::Continuity);
    assert!(runtime.must_relay("mail.example.com"));
    assert!(!runtime.must_relay("example.org"));
    // Another address is another uplink.
    let moved = Control {
        interfaces: vec![InterfaceConfig {
            name: "en0".into(),
            address: Some("192.168.1.9".into()),
            metered: false,
        }],
        policy: None,
        secure_domains: None,
    };
    runtime.apply_control(&moved, START + 20);
    assert_eq!(runtime.paths[0].address, [192, 168, 1, 9]);
    assert_eq!(runtime.paths[0].link.acknowledged, 0);
}

#[test]
fn unlisted_host_is_not_relayed_and_a_listed_one_is() {
    let path = parse_path("en0=192.168.1.2,false").unwrap();
    let mut runtime = runtime(vec![path], Policy::Continuity);
    runtime.relay_fallback = true;
    runtime.secure_domains = normalize_domains(&vec!["example.com".to_string()]).unwrap();
    assert!(!runtime.relays("host"));
    assert!(runtime.relays("www.example.com"));
}

#[test]
fn normalized_domains_stay_as_they_are() {
    let given: Vec<String> =
        [" .Example.COM. ", "b.example", "example.com"].map(String::from).to_vec();
    let once = normalize_domains(&given).unwrap();
    assert_eq!(once, ["example.com", "b.example"]);
    assert_eq!(normalize_domains(&once).unwrap(), once);
}

#[test]
fn uplink_that_lost_its_race_is_not_relied_on_and_reports_tell_its_counts() {
    let mut path = parse_path("en0=192.168.1.2,false").unwrap();
    path.link.healthy = true;
    path.link.failures = 3;
    path.link.sent = 40;
    path.link.active = 2;
    path.link.lost_race();
    assert!(!path.link.healthy);
    let report = runtime(vec![path], Policy::Smart).report(1_000, 0);
    let told = &report.paths[0];
    assert_eq!((told.failures, told.sent_bytes, told.active_flows), (3, 40, 2));
}

#[test]
fn domains_keep_the_order_in_which_they_first_stand() {
    let given = ["b.example", " A.Example. ", "B.EXAMPLE", "c.example", "a.example"];
    let list: Vec<String> = given.iter().map(|s| s.to_string()).collect();
    let once = normalize_domains(&list).unwrap();
    assert_eq!(once, vec!["b.example", "a.example", "c.example"]);
    assert_eq!(normalize_domains(&once).unwrap(), once);
}
