use verz_link::reorder::TcpReorder;

fn tcp(seq: u32) -> Vec<u8> {
    let mut ip = vec![0; 140];
    ip[0] = 0x45;
    ip[9] = 6;
    ip[32] = 0x50;
    ip[24..28].copy_from_slice(&seq.to_be_bytes());
    ip
}
#[test]
fn forty_ms_difference_is_reordered_without_blocking_udp() {
    let mut q = TcpReorder::default();
    assert_eq!(q.push(tcp(0), 0).len(), 1);
    assert!(q.push(tcp(200), 1).is_empty());
    let mut udp = vec![0; 40];
    udp[9] = 17;
    assert_eq!(q.push(udp, 2).len(), 1);
    assert_eq!(q.push(tcp(100), 41), vec![tcp(100), tcp(200)]);
    assert_eq!(q.buffered, 0);
}
#[test]
fn missing_packet_has_bounded_hold_and_wrap_is_correct() {
    let mut q = TcpReorder::default();
    q.push(tcp(u32::MAX - 99), 0);
    assert!(q.push(tcp(100), 1).is_empty());
    assert!(q.drain_due(80).is_empty());
    assert_eq!(q.drain_due(81), vec![tcp(100)]);
    assert_eq!(q.buffered, 0);
}

#[test]
fn fast_path_burst_waits_for_slower_path_without_forcing_tcp_reordering() {
    let mut q = TcpReorder::default();
    q.push(tcp(0), 0);
    for index in 2..1500 {
        assert!(q.push(tcp(index * 100), 1).is_empty());
    }
    let packets = q.push(tcp(100), 41);
    assert_eq!(packets.len(), 1499);
    for (index, packet) in packets.iter().enumerate() {
        assert_eq!(
            u32::from_be_bytes(packet[24..28].try_into().unwrap()),
            (index as u32 + 1) * 100
        );
    }
    assert_eq!(q.buffered, 0);
}

#[test]
fn other_flows_pass_while_one_waits() {
    let mut r = TcpReorder::new();
    let segment = |port: u8, seq: u32| {
        let mut ip = vec![0_u8; 50];
        ip[0] = 0x45;
        ip[9] = 6;
        ip[21] = port;
        ip[24..28].copy_from_slice(&seq.to_be_bytes());
        ip[32] = 0x50;
        ip
    };
    assert_eq!(r.push(segment(1, 0), 0).len(), 1);
    assert_eq!(r.push(segment(2, 0), 0).len(), 1);
    assert!(r.push(segment(1, 20), 1).is_empty());
    assert_eq!(r.push(segment(2, 10), 1), vec![segment(2, 10)]);
    assert_eq!(r.push(segment(1, 10), 2), vec![segment(1, 10), segment(1, 20)]);
    assert!(r.push(segment(1, 50), 3).is_empty());
    assert!(r.drain_due(82).is_empty());
    assert_eq!(r.drain_due(83), vec![segment(1, 50)]);
}

#[test]
fn release_holds_only_packets_of_its_own_flow() {
    let other = |seq: u32| {
        let mut ip = tcp(seq);
        ip[20..22].copy_from_slice(&7u16.to_be_bytes());
        ip
    };
    let mut q = TcpReorder::default();
    q.push(tcp(0), 0);
    q.push(other(0), 0);
    assert!(q.push(tcp(200), 1).is_empty());
    assert!(q.push(other(200), 1).is_empty());
    assert_eq!(q.push(other(100), 2), vec![other(100), other(200)]);
    assert_eq!(q.buffered, 1);
    assert_eq!(q.push(tcp(100), 3), vec![tcp(100), tcp(200)]);
}
