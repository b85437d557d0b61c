use verz_link::intake::{
    parse_counter, Admission, Intake, IntakePacket, KernelTxMonitor, INTAKE_PACKETS,
};

#[test]
fn kernel_counters_distinguish_drops_reset_and_unavailable() {
    let mut monitor = KernelTxMonitor::new("utun0", Some(100)).unwrap();
    let s = monitor.observe(Some(110));
    assert_eq!(s.tx_dropped_since_start, Some(10));
    assert_eq!(s.tx_dropped_since_report, Some(10));
    assert_eq!(monitor.observe(Some(112)).tx_dropped_since_report, Some(2));
    assert_eq!(monitor.observe(None).tx_dropped_since_report, None);
    assert_eq!(monitor.observe(Some(115)).tx_dropped_since_report, None);
    let reset = monitor.observe(Some(1));
    assert_eq!(reset.tx_dropped_since_report, None);
    assert_eq!(reset.tx_dropped_since_start, Some(0));
    assert_eq!(monitor.observe(Some(3)).tx_dropped_since_report, Some(2));
    assert!(KernelTxMonitor::new("../../etc", None).is_err());
    assert!(KernelTxMonitor::new("", None).is_err());
    assert!(KernelTxMonitor::new("..", None).is_err());
    assert!(KernelTxMonitor::new(".", None).is_err());
}

#[test]
fn burst_drains_over_old_ring_size_and_backpressures_at_exact_bound() {
    let mut intake = Intake::new();
    for n in 0..INTAKE_PACKETS {
        assert_eq!(intake.receive(4, 1280, n + 1), Admission::Admitted);
    }
    intake.wait();
    let full = intake.snapshot(INTAKE_PACKETS);
    assert_eq!(full.packets, INTAKE_PACKETS as u64);
    assert_eq!(full.peak_queued_packets, INTAKE_PACKETS);
    assert_eq!(full.queue_waits, 1);
    for n in INTAKE_PACKETS..2500 {
        intake.leave(&IntakePacket { bytes: vec![0; 4], admitted: 10 }, 10 + n as u64);
        intake.receive(4, 1280, INTAKE_PACKETS);
    }
    let drained = intake.snapshot(0);
    assert_eq!((drained.packets, drained.bytes, drained.oversize_drops), (2500, 10000, 0));
    assert_eq!(drained.max_queue_delay_us, 2499);
    assert_eq!(drained.peak_queued_packets, INTAKE_PACKETS);
}

#[test]
fn sparse_traffic_does_not_wait_for_full_batch_and_oversize_is_counted() {
    let mut intake = Intake::new();
    assert_eq!(intake.receive(1281, 1280, 1), Admission::Oversize);
    assert_eq!(intake.receive(1280, 1280, 1), Admission::Admitted);
    assert_eq!(intake.receive(0, 1280, 1), Admission::Ended);
    assert_eq!(intake.snapshot(1).oversize_drops, 1);
    assert_eq!(intake.snapshot(1).packets, 1);
}

#[test]
fn kernel_counters_are_read_from_text() {
    assert_eq!(parse_counter("42\n"), Some(42));
    assert_eq!(parse_counter("+7"), Some(7));
    assert_eq!(parse_counter("18446744073709551615"), Some(u64::MAX));
    assert_eq!(parse_counter("18446744073709551616"), None);
    assert_eq!(parse_counter("-1"), None);
    assert_eq!(parse_counter(""), None);
}
