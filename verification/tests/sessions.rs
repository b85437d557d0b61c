use verz_link::admission::{Room, BOND_NETWORK, RELAY_IP};
use verz_link::bond::{self, Policy};
use verz_link::bond_client::{starting_interfaces, BondClient, Sent};
use verz_link::echo;
use verz_link::egress::Endpoint;
use verz_link::frame::{Frame, Kind};
use verz_link::greeting::{self, Welcome};
use verz_link::relay::{path_label, Relay, RelayStep, Taken};
use verz_link::runtime::{Control, InterfaceConfig};
use verz_link::tunnel::{self, Transport, SERVER_IP};
use verz_link::tunnel_client::{
    check_download, check_duration, check_health, check_upload, digest_text, plan_upload,
    ClientError, TestFault, TunnelClient,
};
use verz_link::tunnel_server::{Server, ServerStep, NETWORK};

fn endpoint(n: u8) -> Endpoint {
    Endpoint { v6: false, host: 0x0a00_0000 + n as u128, port: 4_000, scope: 0 }
}

/// A session of the point-to-point tunnel.
fn tunnelled(session: [u8; 16], server: &mut Server, from: Endpoint, now: u64) -> TunnelClient {
    let mut state = tunnel::handshake(&server.secret, &session, true).unwrap();
    let hello = greeting::hello(&mut state, session).unwrap();
    let (welcome, lease) = match server.receive(&hello, from, now).unwrap() {
        ServerStep::Welcome(welcome, lease) => (welcome, lease),
        other => panic!("{other:?}"),
    };
    // A repeated greeting is answered with the same words.
    match server.receive(&hello, from, now).unwrap() {
        ServerStep::Answer(again) => assert_eq!(again, welcome),
        other => panic!("{other:?}"),
    }
    match greeting::read_welcome(&mut state, &session, &welcome, NETWORK) {
        Welcome::Lease(a, b, c, d) => assert_eq!([a, b, c, d], lease),
        other => panic!("{other:?}"),
    }
    TunnelClient::new(Transport::new(session, state).unwrap(), lease, server.internet, now)
}

#[test]
fn tunnel_carries_packets_of_each_lease() {
    let mut server = Server::new([3; 32], false);
    let mut a = tunnelled([1; 16], &mut server, endpoint(1), 1_000);
    let mut b = tunnelled([2; 16], &mut server, endpoint(2), 1_000);
    assert_eq!((a.assigned, b.assigned), ([10, 77, 0, 2], [10, 77, 0, 3]));
    let up = echo::echo_to(a.assigned, SERVER_IP, 1, 7);
    let sealed = a.forward(&up).unwrap().unwrap();
    match server.receive(&sealed, endpoint(1), 1_100).unwrap() {
        ServerStep::Deliver(packet) => assert_eq!(packet, up),
        other => panic!("{other:?}"),
    }
    // The same message is refused the second time.
    assert!(matches!(server.receive(&sealed, endpoint(1), 1_101), Ok(ServerStep::Ignore)));
    assert_eq!(server.stats.rejected_datagrams, 1);
    // A packet with another source does not leave the client.
    assert!(!matches!(a.forward(&echo::echo_to(b.assigned, SERVER_IP, 1, 8)), Ok(Some(_))));
    // What comes back goes to the holder of the address.
    let down = echo::echo_to(SERVER_IP, b.assigned, 9, 5);
    let (sealed, to) = server.forward(&down).unwrap().unwrap();
    assert_eq!(to, endpoint(2));
    assert_eq!(a.receive(&sealed, 1_200), None);
    assert_eq!(b.receive(&sealed, 1_200), Some(down));
    assert_eq!(b.receive(&sealed, 1_201), None);
}

#[test]
fn silent_peers_are_forgotten_and_leases_return() {
    let mut server = Server::new([3; 32], false);
    let mut a = tunnelled([1; 16], &mut server, endpoint(1), 1_000);
    let _ = tunnelled([2; 16], &mut server, endpoint(2), 1_000);
    let ping = a.keepalive(9_000).unwrap();
    match server.receive(&ping, endpoint(1), 9_000).unwrap() {
        ServerStep::Answer(pong) => assert_eq!(a.receive(&pong, 9_010), None),
        other => panic!("{other:?}"),
    }
    assert_eq!(a.last_response, 9_010);
    server.expire(16_001);
    assert_eq!(server.peers.len(), 1);
    assert_eq!(server.peers[0].assigned, [10, 77, 0, 2]);
    // The address that is free again is given to the next.
    let c = tunnelled([4; 16], &mut server, endpoint(3), 16_001);
    assert_eq!(c.assigned, [10, 77, 0, 3]);
    assert_eq!(a.keepalive(19_011).err(), Some(ClientError::Silent));
    let farewell = a.goodbye().unwrap();
    assert!(matches!(server.receive(&farewell, endpoint(1), 19_020), Ok(ServerStep::Closed)));
    assert_eq!(server.peers.len(), 1);
}

#[test]
fn wrong_key_gets_no_lease() {
    let mut server = Server::new([3; 32], false);
    let mut state = tunnel::handshake(&[4; 32], &[1; 16], true).unwrap();
    let hello = greeting::hello(&mut state, [1; 16]).unwrap();
    assert!(!matches!(
        server.receive(&hello, endpoint(1), 10),
        Ok(ServerStep::Welcome(..)) | Ok(ServerStep::Answer(_))
    ));
    assert!(server.peers.is_empty());
    let before = server.stats.rejected_datagrams;
    assert!(matches!(server.receive(b"noise", endpoint(1), 11), Ok(ServerStep::Ignore)));
    assert_eq!(server.stats.rejected_datagrams, before + 1);
}

#[test]
fn self_test_names_what_failed() {
    assert!(check_duration(0).is_ok() && check_duration(86_400).is_ok());
    assert_eq!(check_duration(86_401).err(), Some(ClientError::Duration));
    assert_eq!(check_health(b"no").err(), Some(TestFault::Health));
    // The digest of the empty text is known everywhere.
    let empty = "e3b0c44298fc1c149afbf4c8996fb92427ae41e4649b934ca495991b7852b855";
    assert_eq!(digest_text(b""), empty);
    assert_eq!(
        digest_text(b"abc"),
        "ba7816bf8f01cfea414140de5dae2223b00361a396177a9cb410ff61f20015ad"
    );
    assert_eq!(check_download(b"", empty).unwrap(), empty);
    assert_eq!(check_download(b"x", empty).err(), Some(TestFault::Download));
    assert_eq!(plan_upload(b"abc").unwrap(), digest_text(b"abc"));
    assert_eq!(plan_upload(&vec![0; 16_777_217]).err(), Some(TestFault::UploadSize));
    let digest = digest_text(b"abc");
    assert!(check_upload(&digest, &digest).is_ok());
    assert_eq!(check_upload(&digest, empty).err(), Some(TestFault::Upload));
}

struct Net {
    relay: Relay,
    client: BondClient,
    arrived: Vec<Vec<u8>>,
    returned: Vec<Vec<u8>>,
}

impl Net {
    fn new() -> Net {
        let session = [8; 16];
        let mut relay = Relay::new([5; 32], 4);
        let mut state = bond::handshake(&[5; 32], &session, true).unwrap();
        let hello = greeting::hello(&mut state, session).unwrap();
        let (welcome, lease) =
            match relay.receive(&hello, endpoint(0), Room::Free, 10).unwrap() {
                RelayStep::Welcome(welcome, lease) => (welcome, lease),
                other => panic!("{other:?}"),
            };
        assert_eq!(lease, [10, 78, 0, 2]);
        match greeting::read_welcome(&mut state, &session, &welcome, BOND_NETWORK) {
            Welcome::Lease(a, b, c, d) => assert_eq!([a, b, c, d], lease),
            other => panic!("{other:?}"),
        }
        let transport = bond::transport(session, state).unwrap();
        let names = vec!["en0".to_string(), "en1".to_string()];
        let mut client = BondClient::new(&names, Policy::Smart, transport, lease).unwrap();
        client.opened(0, 1);
        client.opened(1, 1);
        let mut net = Net { relay, client, arrived: Vec::new(), returned: Vec::new() };
        let joins = net.client.joins(11);
        assert_eq!(joins.len(), 2);
        net.up(joins, 11);
        net
    }

    fn up(&mut self, frames: Vec<Frame>, now: u64) {
        for frame in frames {
            let path = frame.path;
            let ready = match self.client.gather(frame) {
                Some(ready) => ready,
                None => continue,
            };
            let sealed = self.client.seal(&ready).unwrap();
            match self.relay.receive(&sealed, endpoint(path), Room::Free, now).unwrap() {
                RelayStep::Passed(at, packet, answers) => {
                    self.arrived.extend(packet);
                    self.down(at, answers, now);
                }
                other => panic!("{other:?}"),
            }
        }
        let late = self.client.acknowledgements();
        if !late.is_empty() {
            self.up(late, now);
        }
    }

    fn down(&mut self, at: usize, frames: Vec<Frame>, now: u64) {
        for frame in frames {
            if let Some((path, sealed, to)) = self.relay.peers[at].outgoing(frame).unwrap() {
                assert_eq!(to, endpoint(path));
                match self.client.receive(path as usize, 1, &sealed, Room::Free, now) {
                    Taken::Frames(packet, answers) => {
                        self.returned.extend(packet);
                        self.up(answers, now);
                    }
                    other => panic!("{other:?}"),
                }
            }
        }
    }

    fn run(&mut self, from: u64, to: u64) {
        for now in from..to {
            let frames = self.client.scheduler.tick(now);
            self.up(frames, now);
            let frames = self.relay.peers[0].turn(now);
            self.down(0, frames, now);
        }
    }
}

#[test]
fn bonded_session_carries_packets_both_ways_once() {
    let mut net = Net::new();
    net.run(12, 200);
    assert_eq!(net.client.scheduler.data_paths(200), vec![0, 1]);
    let up = echo::echo_to(net.client.assigned, [1, 1, 1, 1], 1, 40);
    net.client.forward(&up);
    net.run(200, 260);
    assert_eq!(net.arrived, vec![up.clone()]);
    let down = echo::echo_to(RELAY_IP, net.client.assigned, 1, 41);
    net.relay.forward(&down);
    net.run(260, 320);
    assert_eq!(net.returned, vec![down]);
    assert_eq!(net.arrived.len(), 1);
    // A packet with another source never leaves the client.
    net.client.forward(&echo::echo_to([10, 78, 0, 9], [1, 1, 1, 1], 1, 42));
    net.run(320, 360);
    assert_eq!(net.arrived.len(), 1);
    assert_eq!(net.client.scheduler.pending_packets(), 0);
}

#[test]
fn messages_of_an_earlier_socket_are_ignored() {
    let mut net = Net::new();
    let frame = Frame::control(Kind::Probe, 0, 5, 20);
    let (path, sealed, _) = net.relay.peers[0].outgoing(frame).unwrap().unwrap();
    net.client.opened(0, 2);
    assert!(matches!(
        net.client.receive(path as usize, 1, &sealed, Room::Free, 20),
        Taken::Nothing
    ));
    assert!(matches!(
        net.client.receive(path as usize, 2, &sealed, Room::Free, 20),
        Taken::Frames(None, _)
    ));
}

#[test]
fn pending_rejoin_is_sent_before_subsequent_probe() {
    let mut net = Net::new();
    // The join found no room on the new socket and is kept.
    let join = net.client.joins(20).remove(0);
    let sealed = net.client.seal(&join).unwrap();
    net.client.frame_tried(Kind::Join, 0, sealed.clone(), Sent::WouldBlock);
    assert_eq!(net.client.pending_join(0), Some(sealed.clone()));
    // While it waits nothing else may be sent.
    assert!(!net.client.join_tried(0, Sent::WouldBlock));
    assert_eq!(net.client.pending_join(0), Some(sealed.clone()));
    assert!(net.client.join_tried(0, Sent::Done));
    assert_eq!(net.client.pending_join(0), None);
    let probe = net.client.seal(&Frame::control(Kind::Probe, 0, 2, 2)).unwrap();
    for (message, kind) in [(sealed, Kind::JoinAck), (probe, Kind::Pong)] {
        match net.relay.receive(&message, endpoint(0), Room::Free, 21).unwrap() {
            RelayStep::Passed(_, None, answers) => assert_eq!(answers[0].kind, kind),
            other => panic!("{other:?}"),
        }
    }
}

#[test]
fn interfaces_change_while_the_session_lives() {
    let mut net = Net::new();
    let control = Control {
        interfaces: vec![
            InterfaceConfig { name: "en0".into(), address: None, metered: false },
            InterfaceConfig { name: "en9".into(), address: None, metered: true },
        ],
        policy: Some("continuity".into()),
        secure_domains: None,
    };
    // Every adapter found a place.
    assert_eq!(net.client.configure(&control).unwrap(), Vec::<String>::new());
    assert_eq!(net.client.scheduler.policy, Policy::Continuity);
    assert!(net.client.scheduler.paths[0].enabled);
    assert!(!net.client.scheduler.paths[1].enabled);
    assert!(net.client.scheduler.paths[2].metered);
    assert_eq!(net.client.scheduler.names[2], "en9");
}

#[test]
fn relay_refuses_more_clients_than_it_may_have() {
    let mut relay = Relay::new([5; 32], 1);
    for (n, welcomed) in [(1, true), (2, false)] {
        let mut state = bond::handshake(&[5; 32], &[n; 16], true).unwrap();
        let hello = greeting::hello(&mut state, [n; 16]).unwrap();
        let step = relay.receive(&hello, endpoint(n), Room::Free, 10);
        assert_eq!(matches!(step, Ok(RelayStep::Welcome(..))), welcomed);
    }
    assert_eq!(relay.peers.len(), 1);
    relay.expire(10 + 120_001);
    assert!(relay.peers.is_empty());
    assert_eq!(path_label(7), "path7");
}

#[test]
fn starting_interfaces_are_checked() {
    let given = vec!["en0".to_string(), "en1".to_string()];
    assert_eq!(starting_interfaces(&given).unwrap(), given);
    let twice = vec!["en1".to_string(), "en0".to_string(), "en1".to_string()];
    assert_eq!(starting_interfaces(&twice).unwrap(), given);
    let bad = starting_interfaces(&vec!["../x".to_string()]);
    assert_eq!(bad.err(), Some("invalid interface list"));
}
