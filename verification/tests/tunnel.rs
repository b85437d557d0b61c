use verz_link::tunnel::{
    allocate_client_ip, handshake, internet_destination_allowed, validate_ipv4, Header, Transport,
    TunnelError, CLIENT_IP, IP, PING, SERVER_IP,
};

#[test]
fn unique_leases_reuse_only_free_addresses() {
    assert_eq!(allocate_client_ip(&[]), Some([10, 77, 0, 2]));
    assert_eq!(
        allocate_client_ip(&[[10, 77, 0, 2], [10, 77, 0, 3]]),
        Some([10, 77, 0, 4])
    );
    assert_eq!(allocate_client_ip(&(2..=254).map(|n| [10, 77, 0, n]).collect::<Vec<_>>()), None);
    assert_eq!(
        allocate_client_ip(&[[10, 77, 0, 3]]),
        Some([10, 77, 0, 2])
    );
}

#[test]
fn internet_policy_blocks_private_metadata_and_other_clients() {
    let mut packet = [0; 20];
    for address in [[1, 1, 1, 1], [8, 8, 8, 8], SERVER_IP] {
        packet[16..20].copy_from_slice(&address);
        assert!(internet_destination_allowed(&packet));
    }
    for address in [
        [169, 254, 169, 254],
        [10, 77, 0, 3],
        [127, 0, 0, 1],
        [192, 168, 1, 1],
        [224, 0, 0, 1],
        [100, 64, 0, 1],
        [0, 0, 0, 0],
        [255, 255, 255, 255],
    ] {
        packet[16..20].copy_from_slice(&address);
        assert!(!internet_destination_allowed(&packet));
    }
}

fn pair() -> (Transport, Transport) {
    pair_for_session(rand::random())
}

fn pair_for_session(session: [u8; 16]) -> (Transport, Transport) {
    let secret = [41; 32];
    let mut client = handshake(&secret, &session, true).unwrap();
    let mut server = handshake(&secret, &session, false).unwrap();
    let mut buf = [0; 256];
    let mut plain = [0; 256];
    let len = client.write_message(&[], &mut buf).unwrap();
    server.read_message(&buf[..len], &mut plain).unwrap();
    let len = server.write_message(&[], &mut buf).unwrap();
    client.read_message(&buf[..len], &mut plain).unwrap();
    (
        Transport::new(session, client).unwrap(),
        Transport::new(session, server).unwrap(),
    )
}

#[test]
fn bidirectional_packets_tamper_and_replay() {
    let (mut client, mut server) = pair();
    let first = client.seal(IP, b"first IP packet").unwrap();
    let second = client.seal(IP, b"second IP packet").unwrap();
    assert_eq!(server.open(&second).unwrap().1, b"second IP packet");
    assert_eq!(server.open(&first).unwrap().1, b"first IP packet");
    assert!(server.open(&first).is_err());
    let good = server.seal(IP, b"server response").unwrap();
    let mut bad = good.clone();
    *bad.last_mut().unwrap() ^= 1;
    assert!(client.open(&bad).is_err());
    assert_eq!(client.open(&good).unwrap().1, b"server response");
}

#[test]
fn incorrect_key_and_wrong_session_rejected() {
    let session = [1; 16];
    let mut client = handshake(&[1; 32], &session, true).unwrap();
    let mut server = handshake(&[2; 32], &session, false).unwrap();
    let mut packet = [0; 256];
    let len = client.write_message(&[], &mut packet).unwrap();
    assert!(server.read_message(&packet[..len], &mut [0; 256]).is_err());
    let (mut client, mut server) = pair();
    let mut packet = client.seal(PING, &[]).unwrap();
    packet[5] ^= 1;
    assert!(server.open(&packet).is_err());
}

#[test]
fn fresh_handshake_rejects_previous_connection_ciphertext() {
    // Even an accidentally repeated connection ID must not reuse Noise keys.
    let (mut client1, _) = pair_for_session([13; 16]);
    let (_, mut server2) = pair_for_session([13; 16]);
    let packet = client1.seal(IP, b"old connection").unwrap();
    assert!(server2.open(&packet).is_err());
}

#[test]
fn changed_nonce_and_truncated_datagrams_are_rejected_without_consuming_window() {
    let (mut client, mut server) = pair();
    let packet = client.seal(PING, &[]).unwrap();
    let mut altered = packet.clone();
    altered[28] ^= 1;
    assert!(server.open(&altered).is_err());
    for len in 0..packet.len() {
        assert!(server.open(&packet[..len]).is_err());
    }
    assert_eq!(server.open(&packet).unwrap().0, PING);
}

#[test]
fn rejects_spoofed_source_and_malformed_ip() {
    let mut ip = [0; 20];
    ip[0] = 0x45;
    ip[3] = 20;
    ip[12..16].copy_from_slice(&CLIENT_IP);
    ip[16..20].copy_from_slice(&SERVER_IP);
    assert!(validate_ipv4(&ip, Some(CLIENT_IP), Some(SERVER_IP)).is_ok());
    ip[12] = 127;
    assert!(validate_ipv4(&ip, Some(CLIENT_IP), None).is_err());
    assert!(validate_ipv4(&ip[..10], None, None).is_err());
}

fn finished(session: [u8; 16]) -> snow::HandshakeState {
    let mut client = handshake(&[41; 32], &session, true).unwrap();
    let mut server = handshake(&[41; 32], &session, false).unwrap();
    let mut buf = [0; 256];
    let mut plain = [0; 256];
    let len = client.write_message(&[], &mut buf).unwrap();
    server.read_message(&buf[..len], &mut plain).unwrap();
    let len = server.write_message(&[], &mut buf).unwrap();
    client.read_message(&buf[..len], &mut plain).unwrap();
    client
}

#[test]
fn each_fault_of_a_message_is_named() {
    assert_eq!(Header::parse(&[0; 5]).err(), Some(TunnelError::WireLength));
    assert_eq!(Header::parse(&[0; 1423]).err(), Some(TunnelError::WireLength));
    let (mut client, mut server) = pair();
    assert_eq!(client.seal(IP, &vec![0; 1281]).err(), Some(TunnelError::TooLong));
    assert_eq!(client.seal(9, &[]).err(), Some(TunnelError::EncryptedType));
    assert_eq!(client.seal(PING, &[1]).err(), Some(TunnelError::ControlPayload));
    let sealed = client.seal(IP, b"x").unwrap();
    assert_eq!(server.open(&sealed).unwrap(), (IP, b"x".to_vec()));
    assert_eq!(server.open(&sealed).err(), Some(TunnelError::Replayed));
    let mut other = sealed.clone();
    other[0] ^= 1;
    assert_eq!(Header::parse(&other).err(), Some(TunnelError::Protocol));
    other = sealed.clone();
    other[4] = 4;
    assert_eq!(Header::parse(&other).err(), Some(TunnelError::WireType));
    other = client.seal(IP, b"y").unwrap();
    other[5] ^= 1;
    assert_eq!(server.open(&other).err(), Some(TunnelError::WrongSession));
    other[5] ^= 1;
    *other.last_mut().unwrap() ^= 1;
    assert_eq!(server.open(&other).err(), Some(TunnelError::Noise));
    assert_eq!(
        Transport::with_payload_limit([1; 16], finished([1; 16]), 0).err(),
        Some(TunnelError::PayloadLimit)
    );
    assert_eq!(
        Transport::with_payload_limit([1; 16], finished([1; 16]), 1377).err(),
        Some(TunnelError::PayloadLimit)
    );
    let unfinished = handshake(&[1; 32], &[1; 16], true).unwrap();
    assert_eq!(Transport::new([1; 16], unfinished).err(), Some(TunnelError::Noise));
}

#[test]
fn each_fault_of_an_inner_packet_is_named() {
    let mut ip = vec![0; 24];
    ip[0] = 0x45;
    ip[3] = 24;
    ip[12..16].copy_from_slice(&CLIENT_IP);
    ip[16..20].copy_from_slice(&SERVER_IP);
    let fault = |ip: &[u8]| validate_ipv4(ip, Some(CLIENT_IP), Some(SERVER_IP)).err();
    assert_eq!(fault(&ip), None);
    assert_eq!(fault(&ip[..19]), Some(TunnelError::Ipv4Length));
    assert_eq!(fault(&vec![0x45; 1281]), Some(TunnelError::Ipv4Length));
    for (at, byte, expected) in [
        (0, 0x65, TunnelError::Ipv4Only),
        (0, 0x44, TunnelError::Ipv4Header),
        (0, 0x47, TunnelError::Ipv4Header),
        (3, 23, TunnelError::Ipv4Mismatch),
        (12, 11, TunnelError::Source),
        (19, 9, TunnelError::Destination),
    ] {
        let mut bad = ip.clone();
        bad[at] = byte;
        assert_eq!(fault(&bad), Some(expected), "{at}");
    }
}

#[test]
fn header_is_read_back() {
    let header = Header { kind: 3, session: [7; 16], counter: 0x0102_0304_0506_0708 };
    let wire = header.wrap(b"body");
    assert_eq!(&wire[..5], b"VZT2\x03");
    assert_eq!(&wire[21..29], &[1, 2, 3, 4, 5, 6, 7, 8]);
    assert_eq!(&wire[29..], b"body");
    let read = Header::parse(&wire).unwrap();
    assert_eq!((read.kind, read.session, read.counter), (3, [7; 16], 0x0102_0304_0506_0708));
}

#[test]
fn no_altered_byte_passes_and_none_harms_what_follows() {
    let (mut client, mut server) = pair();
    let first = client.seal(IP, b"one").unwrap();
    let second = client.seal(IP, b"two").unwrap();
    for at in 0..first.len() {
        let mut altered = first.clone();
        altered[at] ^= 0x10;
        assert!(server.open(&altered).is_err(), "byte {at}");
    }
    let mut longer = first.clone();
    longer.push(0);
    assert!(server.open(&longer).is_err());
    assert_eq!(server.open(&second).unwrap().1, b"two");
    assert_eq!(server.open(&first).unwrap().1, b"one");
}
