use verz_link::binary64::Binary64;
use verz_link::bond::Policy;
use verz_link::brain::{
    advise, BrainAdvice, ClientReport, Controller, Decay, PathReport, TcpReport,
    CHALLENGER_WEIGHT, IDLE_DECAY_MS, LOADED_DECAY_MS, MIN_CAPACITY_SAMPLES, STRATEGY,
};
use verz_link::channel::{self, ChannelError};

fn num(x: f64) -> Binary64 {
    Binary64::from_bits(x.to_bits())
}

fn val(x: Binary64) -> f64 {
    f64::from_bits(x.bits)
}

fn decays(controller: &Controller, report: &ClientReport) -> Vec<Decay> {
    let fade = |ms: u64, horizon: u64| num((-(ms as f64) / horizon as f64).exp());
    controller
        .elapsed(report)
        .into_iter()
        .map(|ms| Decay { loaded: fade(ms, LOADED_DECAY_MS), idle: fade(ms, IDLE_DECAY_MS) })
        .collect()
}

fn consult(controller: &mut Controller, report: &ClientReport, generation: u64) -> BrainAdvice {
    let fading = decays(controller, report);
    controller.advise(report, generation, &fading)
}

fn weight(list: &[(String, u32)], name: &str) -> u32 {
    list.iter().find(|w| w.0 == name).unwrap().1
}

fn report(policy: Policy) -> ClientReport {
    ClientReport {
        policy,
        sample_ms: 0,
        paths: vec![
            PathReport {
                name: "en0".into(),
                rtt_ms: Some(num(20.0)),
                healthy: true,
                metered: false,
                failures: 0,
                ..PathReport::default()
            },
            PathReport {
                name: "en7".into(),
                rtt_ms: Some(num(40.0)),
                healthy: true,
                metered: false,
                failures: 0,
                ..PathReport::default()
            },
            PathReport {
                name: "en8".into(),
                rtt_ms: Some(num(80.0)),
                healthy: true,
                metered: true,
                failures: 0,
                ..PathReport::default()
            },
        ],
    }
}

#[test]
fn high_latency_is_bulk_capacity_but_not_realtime_preferred() {
    let advice = advise(&report(Policy::Performance), 9);
    assert_eq!(advice.balanced_champion.as_deref(), Some("en0"));
    assert_eq!(weight(&advice.weights, "en0"), 64);
    assert_eq!(weight(&advice.weights, "en7"), CHALLENGER_WEIGHT);
    assert!(weight(&advice.weights, "en8") > 0);
    assert_eq!(weight(&advice.realtime_weights, "en8"), 0);
    assert_eq!(advice.generation, 9);
    assert!(advice.relay_fallback);
}

#[test]
fn data_saver_excludes_metered_when_unmetered_exists() {
    let mut report = report(Policy::DataSaver);
    report.paths[2].rtt_ms = Some(num(10.0));
    assert_eq!(weight(&advise(&report, 1).weights, "en8"), 0);
}

#[test]
fn cold_start_champion_follows_measured_delay_not_adapter_order() {
    let mut report = report(Policy::Smart);
    // Wi-Fi is listed first by the UI but has a 620 ms end-to-end delay.
    report.paths[0].rtt_ms = Some(num(620.0));
    report.paths[1].rtt_ms = Some(num(66.0));
    let advice = advise(&report, 1);
    assert_eq!(advice.balanced_champion.as_deref(), Some("en7"));
    assert_eq!(advice.download_champion.as_deref(), Some("en7"));
    assert_eq!(weight(&advice.weights, "en7"), 64);
    assert_eq!(weight(&advice.weights, "en0"), CHALLENGER_WEIGHT);
    // Without any delay measurement the order remains the only tie-break.
    for p in &mut report.paths {
        p.rtt_ms = None;
    }
    assert_eq!(advise(&report, 2).balanced_champion.as_deref(), Some("en0"));
}

#[test]
fn all_slow_keeps_bulk_paths_and_best_realtime_last_resort() {
    let mut report = report(Policy::Smart);
    report.paths[0].rtt_ms = Some(num(100.0));
    report.paths[1].rtt_ms = Some(num(90.0));
    report.paths[2].rtt_ms = Some(num(110.0));
    let advice = advise(&report, 1);
    assert!(advice.weights.iter().all(|w| w.1 > 0));
    assert!(weight(&advice.realtime_weights, "en7") > 0);
    assert_eq!(weight(&advice.realtime_weights, "en0"), 0);
    assert_eq!(weight(&advice.realtime_weights, "en8"), 0);
}

#[test]
fn learns_opposite_upload_download_strengths_without_starving_new_paths() {
    let mut report = report(Policy::Smart);
    for p in &mut report.paths {
        p.tcp = Some(TcpReport::default());
    }
    let mut controller = Controller::default();
    consult(&mut controller, &report, 1);
    let mut advice = consult(&mut controller, &report, 1);
    for sample in 1..=MIN_CAPACITY_SAMPLES {
        report.sample_ms = u64::from(sample) * 1_000;
        report.paths[0].received_bytes += 30_000_000;
        report.paths[1].received_bytes += 1_000_000;
        report.paths[0].tcp.as_mut().unwrap().acknowledged += 1_000_000;
        report.paths[1].tcp.as_mut().unwrap().acknowledged += 30_000_000;
        advice = consult(&mut controller, &report, u64::from(sample) + 1);
        // 30 MB delivered in one interval is proof on its own; the small
        // 1 MB/s uploader still needs three intervals.
        assert_eq!(advice.upload_champion.as_deref(), Some("en7"));
        if sample < MIN_CAPACITY_SAMPLES {
            assert_eq!(weight(&advice.upload_weights, "en0"), CHALLENGER_WEIGHT);
        }
    }
    assert!(weight(&advice.download_weights, "en0") > weight(&advice.download_weights, "en7"));
    assert!(weight(&advice.upload_weights, "en7") > weight(&advice.upload_weights, "en0"));
    assert_eq!(advice.download_champion.as_deref(), Some("en0"));
    assert_eq!(advice.upload_champion.as_deref(), Some("en7"));
    assert!(weight(&advice.weights, "en8") > 0);
    assert_eq!(advice.learned_paths, 2);
    report.paths[0].incarnation += 1;
    report.sample_ms += 1_000;
    assert_eq!(consult(&mut controller, &report, 5).learned_paths, 1);
}

#[test]
fn one_full_trial_transfer_proves_a_fast_challenger_for_download_only_work() {
    // A large trial may end before three samples are taken.
    let mut report = report(Policy::Smart);
    report.paths.truncate(2);
    for p in &mut report.paths {
        p.rtt_ms = None;
        p.tcp = Some(TcpReport::default());
    }
    let mut controller = Controller::default();
    consult(&mut controller, &report, 0);
    for second in 1..=3 {
        report.sample_ms = second * 1_000;
        report.paths[0].received_bytes += 10_600_000;
        consult(&mut controller, &report, second);
    }
    let advice = consult(&mut controller, &report, 4);
    assert_eq!(advice.download_champion.as_deref(), Some("en0"));
    assert_eq!(advice.balanced_champion.as_deref(), Some("en0"));
    report.sample_ms += 1_000;
    report.paths[0].received_bytes += 10_600_000;
    report.paths[1].received_bytes += 40_000_000;
    let advice = consult(&mut controller, &report, 5);
    assert_eq!(advice.download_champion.as_deref(), Some("en7"));
    assert_eq!(weight(&advice.download_weights, "en7"), 64);
    assert!((15..=20).contains(&weight(&advice.download_weights, "en0")));
    // Download-only evidence also moves two-way placement.
    assert_eq!(advice.balanced_champion.as_deref(), Some("en7"));
    assert_eq!(weight(&advice.weights, "en7"), 64);
    assert!(weight(&advice.weights, "en0") < 64);
}

#[test]
fn champion_challenger_matches_asymmetric_capacity_and_guards_the_floor() {
    let mut report = report(Policy::Smart);
    report.paths.truncate(2);
    for path in &mut report.paths {
        path.active_flows = 4;
        path.tcp = Some(TcpReport {
            busy: 4,
            ..TcpReport::default()
        });
    }
    let mut controller = Controller::default();
    consult(&mut controller, &report, 0);
    let mut advice = None;
    for second in 1..=3 {
        report.sample_ms = second * 1_000;
        // Wi-Fi has about 213/67 Mbps and the challenger LAN 29/39 Mbps. Both paths add upload capacity,
        // but LAN earns only a small download allocation.
        report.paths[0].received_bytes += 26_618_750;
        report.paths[0].tcp.as_mut().unwrap().acknowledged += 8_353_750;
        report.paths[1].received_bytes += 3_608_750;
        report.paths[1].tcp.as_mut().unwrap().acknowledged += 4_922_500;
        advice = Some(consult(&mut controller, &report, second));
    }
    let advice = advice.unwrap();
    assert_eq!(advice.download_champion.as_deref(), Some("en0"));
    assert_eq!(advice.upload_champion.as_deref(), Some("en0"));
    assert_eq!(weight(&advice.download_weights, "en0"), 64);
    assert!((8..=10).contains(&weight(&advice.download_weights, "en7")));
    assert!((37..=39).contains(&weight(&advice.upload_weights, "en7")));
    assert!(!advice.download_guarded);

    // If using both paths now delivers less than 95% of the champion's
    // recent envelope, new download work contracts to the champion. This
    // does not reset already-established TCP connections.
    report.sample_ms += 1_000;
    report.paths[0].received_bytes += 10_000_000;
    report.paths[1].received_bytes += 5_000_000;
    let guarded = consult(&mut controller, &report, 4);
    assert!(guarded.download_guarded);
    assert_eq!(weight(&guarded.download_weights, "en0"), 64);
    assert_eq!(weight(&guarded.download_weights, "en7"), 1);
}

#[test]
fn a_pause_does_not_hand_the_champion_to_the_path_that_moved_bytes_last() {
    // The LAN is proven, then nothing moves for 40 s, then one upload of
    // 14 MB goes over the hotspot.
    let mut report = report(Policy::Smart);
    report.paths.truncate(2);
    for p in &mut report.paths {
        p.rtt_ms = None;
        p.tcp = Some(TcpReport::default());
    }
    let mut controller = Controller::default();
    consult(&mut controller, &report, 0);
    for second in 1..=3 {
        report.sample_ms = second * 1_000;
        report.paths[1].received_bytes += 37_000_000;
        report.paths[1].tcp.as_mut().unwrap().acknowledged += 25_000_000;
        report.paths[0].received_bytes += 10_000_000;
        report.paths[0].tcp.as_mut().unwrap().acknowledged += 4_000_000;
        consult(&mut controller, &report, second);
    }
    report.sample_ms = 4_000;
    assert_eq!(
        consult(&mut controller, &report, 4).balanced_champion.as_deref(),
        Some("en7")
    );
    for second in 5..=45 {
        report.sample_ms = second * 1_000;
        consult(&mut controller, &report, second);
    }
    report.sample_ms = 46_000;
    report.paths[0].tcp.as_mut().unwrap().acknowledged += 14_000_000;
    let advice = consult(&mut controller, &report, 46);
    assert_eq!(advice.balanced_champion.as_deref(), Some("en7"));
    assert_eq!(advice.upload_champion.as_deref(), Some("en7"));
    assert!(weight(&advice.weights, "en7") > weight(&advice.weights, "en0"));
}

#[test]
fn champion_survives_small_bursts_and_light_traffic() {
    // The LAN is proven at about 300 Mbps, then light uploads go over the
    // hotspot. The peak keeps the LAN in its place.
    let mut report = report(Policy::Smart);
    report.paths.truncate(2);
    for p in &mut report.paths {
        p.tcp = Some(TcpReport::default());
    }
    let mut controller = Controller::default();
    consult(&mut controller, &report, 0);
    // 5 s of full-speed download on en7 proves its capacity.
    for second in 1..=5 {
        report.sample_ms = second * 1_000;
        report.paths[1].received_bytes += 37_000_000;
        report.paths[1].tcp.as_mut().unwrap().acknowledged += 5_000_000;
        consult(&mut controller, &report, second);
    }
    report.sample_ms = 6_000;
    assert_eq!(
        consult(&mut controller, &report, 6).download_champion.as_deref(),
        Some("en7")
    );
    // Two minutes of small mixed traffic: en0 gets a light 9 Mbps upload
    // phase, en7 idles or trickles. Champion must not flip.
    for second in 7..=125 {
        report.sample_ms = second * 1_000;
        report.paths[0].tcp.as_mut().unwrap().acknowledged += 1_100_000;
        report.paths[0].received_bytes += 100_000;
        report.paths[1].received_bytes += 100_000;
        let advice = consult(&mut controller, &report, second);
        assert_eq!(
            advice.download_champion.as_deref(),
            Some("en7"),
            "flipped at t={second}s"
        );
        assert_eq!(advice.balanced_champion.as_deref(), Some("en7"));
    }
}

#[test]
fn evidence_adapts_after_capacity_changes_and_counters_reset() {
    // Peak tracking makes the champion sticky against workload variation.
    // A real capacity change still moves it, but requires either a long
    // idle-decay window or a fresh incarnation. Both are covered here.
    let mut report = report(Policy::Smart);
    let mut controller = Controller::default();
    consult(&mut controller, &report, 0);
    for second in 1..=5 {
        report.sample_ms = second * 1_000;
        report.paths[0].received_bytes += 30_000_000;
        report.paths[1].received_bytes += 10_000_000;
        consult(&mut controller, &report, second);
    }
    report.sample_ms = 6_000;
    assert_eq!(
        consult(&mut controller, &report, 6).download_champion.as_deref(),
        Some("en0")
    );
    // A fresh incarnation on en0 (e.g., adapter re-address, DHCP renewal)
    // clears its history entirely; en7 becomes champion on new evidence.
    report.paths[0].incarnation += 1;
    report.paths[0].received_bytes = 0;
    report.paths[0].tcp = None;
    report.sample_ms = 7_000;
    consult(&mut controller, &report, 7);
    assert_eq!(val(controller.observation(&"en0".into()).download_bps), 0.0);
    assert_eq!(val(controller.observation(&"en0".into()).download_peak_bps), 0.0);
    for second in 8..=15 {
        report.sample_ms = second * 1_000;
        report.paths[1].received_bytes += 10_000_000;
        consult(&mut controller, &report, second);
    }
    report.sample_ms = 16_000;
    assert_eq!(
        consult(&mut controller, &report, 16).download_champion.as_deref(),
        Some("en7")
    );
}

#[test]
fn failed_paths_are_excluded_and_invalid_metrics_are_bounded() {
    let mut report = report(Policy::Smart);
    report.paths[0].healthy = false;
    report.paths[1].jitter_ms = num(f64::NAN);
    report.paths[1].probe_failure_ratio = num(f64::INFINITY);
    let advice = advise(&report, 1);
    assert_eq!(weight(&advice.weights, "en0"), 0);
    assert!(advice.weights.iter().all(|w| w.1 <= 64));
    assert!(weight(&advice.realtime_weights, "en7") > 0);
}




#[test]
fn buffered_uploads_and_downloads_cannot_invent_upload_capacity() {
    let mut report = report(Policy::Smart);
    for p in &mut report.paths {
        p.tcp = Some(TcpReport::default());
    }
    let mut controller = Controller::default();
    consult(&mut controller, &report, 0);
    let mut advice = consult(&mut controller, &report, 0);
    for sample in 1..=MIN_CAPACITY_SAMPLES {
        report.sample_ms = u64::from(sample) * 1_000;
        report.paths[0].sent_bytes += 30_000_000;
        report.paths[0].received_bytes += 50_000_000;
        report.paths[0].tcp.as_mut().unwrap().acknowledged += 100_000;
        report.paths[1].tcp.as_mut().unwrap().acknowledged += 30_000_000;
        advice = consult(&mut controller, &report, u64::from(sample));
    }
    assert_eq!(val(controller.observation(&"en0".into()).upload_bps), 800_000.0);
    assert!(weight(&advice.upload_weights, "en0") < weight(&advice.upload_weights, "en7"));
    report.paths[0].tcp.as_mut().unwrap().held = true;
    report.sample_ms += 1_000;
    let advice = consult(&mut controller, &report, 4);
    assert_eq!(weight(&advice.weights, "en0"), 0);
    assert!(weight(&advice.download_weights, "en0") > 0);
}

#[test]
fn encrypted_channel_exchanges_advice() {
    let secret = [7; 32];
    let (calling, request) = channel::call(&secret).unwrap();
    let (reply, mut server) = channel::answer(&secret, &request[4..]).unwrap();
    let mut client = channel::establish(calling, &reply[4..]).unwrap();
    // The report goes over the channel as bytes of any form.
    let sent = client.seal(b"report").unwrap();
    assert_eq!(channel::announced(&[sent[0], sent[1], sent[2], sent[3]]), Ok(sent.len() - 4));
    assert_ne!(&sent[4..], b"report");
    assert_eq!(server.open(&sent[4..]).unwrap(), b"report");
    let mut controller = Controller::default();
    let mut generations = 0;
    let report = report(Policy::Smart);
    let fading = decays(&controller, &report);
    let advice =
        channel::advise_client(&mut controller, &report, &mut generations, &fading).unwrap();
    assert_eq!(advice.generation, 1);
    assert_eq!(advice.strategy, STRATEGY);
    let back = server.seal(b"advice").unwrap();
    assert_eq!(client.open(&back[4..]).unwrap(), b"advice");
    // A repeated message is refused: its number has passed.
    assert!(client.open(&back[4..]).is_err());
}

#[test]
fn wrong_key_cannot_authenticate_brain() {
    let (_, request) = channel::call(&[2; 32]).unwrap();
    assert!(matches!(channel::answer(&[1; 32], &request[4..]), Err(ChannelError::Noise)));
}

#[test]
fn channel_frames_are_bounded() {
    assert_eq!(channel::announced(&[0, 0, 0, 0]), Err(ChannelError::Length));
    assert_eq!(channel::announced(&[0, 0, 0xff, 0xff]), Ok(65_535));
    assert_eq!(channel::announced(&[0, 1, 0, 0]), Err(ChannelError::Length));
    assert_eq!(ChannelError::Length.message(), "invalid brain frame length");
}

#[test]
fn too_many_paths_are_refused() {
    let mut report = report(Policy::Smart);
    for i in 0..254 {
        report.paths.push(PathReport { name: format!("x{i}"), ..PathReport::default() });
    }
    assert_eq!(report.paths.len(), 257);
    let mut controller = Controller::default();
    let mut generations = 4;
    let fading = decays(&controller, &report);
    let r = channel::advise_client(&mut controller, &report, &mut generations, &fading);
    assert!(matches!(r, Err(ChannelError::TooManyPaths)));
    report.paths.truncate(256);
    let fading = decays(&controller, &report);
    let advice =
        channel::advise_client(&mut controller, &report, &mut generations, &fading).unwrap();
    assert_eq!((advice.generation, advice.weights.len()), (generations, 256));
}

#[test]
fn advice_says_how_long_it_is_valid() {
    let advice = advise(&report(Policy::Performance), 3);
    assert_eq!(f64::from_bits(advice.cutoff_ms.bits), 75.0);
    assert_eq!(f64::from_bits(advice.recovery_ms.bits), 65.0);
    assert_eq!((advice.valid_for_ms, advice.relay_fallback), (5_000, true));
}
