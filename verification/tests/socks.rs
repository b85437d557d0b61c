use verz_link::egress::Endpoint;
use verz_link::route::{
    attempts, bit_rate, denied, first_stage, granted, next_stage, stage_budget, traffic_shape,
    usable_destinations, RouteStage, Shape, Tally,
};
use verz_link::binary64::Binary64;
use verz_link::direct::Uplink;
use verz_link::socks::{dotted_text, Outcome, Socks, SocksError};

/// Feeds a whole stream; returns what was answered and what came of it.
fn serve(mut input: &[u8]) -> (Vec<u8>, Outcome, String) {
    let mut socks = Socks::new();
    let mut replies = Vec::new();
    loop {
        let n = socks.needed();
        let (reply, outcome) = socks.feed(&input[..n]);
        input = &input[n..];
        replies.extend(reply);
        if outcome != Outcome::Continue {
            return (replies, outcome, socks.host);
        }
    }
}

#[test]
fn host_and_address_are_read() {
    let mut named = vec![5, 2, 2, 0, 5, 1, 0, 3, 11];
    named.extend(b"example.com");
    named.extend([1, 187]);
    assert_eq!(serve(&named), (vec![5, 0], Outcome::Target(443), "example.com".into()));
    let by_address = [5, 1, 0, 5, 1, 0, 1, 203, 0, 113, 9, 0, 80];
    assert_eq!(serve(&by_address), (vec![5, 0], Outcome::Target(80), "203.0.113.9".into()));
    let wide = "bücher.example";
    let mut named = vec![5, 1, 0, 5, 1, 0, 3, wide.len() as u8];
    named.extend(wide.as_bytes());
    named.extend([0, 1]);
    assert_eq!(serve(&named).2, wide);
}

#[test]
fn each_fault_of_a_request_is_named() {
    for (input, error) in [
        (vec![4, 1], SocksError::Greeting),
        (vec![5, 0], SocksError::Greeting),
        (vec![5, 1, 2], SocksError::Authentication),
        (vec![5, 1, 0, 5, 2, 0, 1], SocksError::Command),
        (vec![5, 1, 0, 5, 1, 0, 3, 0], SocksError::EmptyHost),
        (vec![5, 1, 0, 5, 1, 0, 3, 1, 0xff], SocksError::Encoding),
        (vec![5, 1, 0, 5, 1, 0, 4], SocksError::Ipv6),
        (vec![5, 1, 0, 5, 1, 0, 9], SocksError::AddressType),
    ] {
        let (_, outcome, _) = serve(&input);
        assert_eq!(outcome, Outcome::Refused(error), "{}", error.message());
    }
    assert_eq!(serve(&[5, 1, 2]).0, vec![5, 0xff]);
}

#[test]
fn answers_have_their_form() {
    assert_eq!(dotted_text(&[10, 0, 255, 7]), "10.0.255.7");
    assert_eq!(granted(Some([10, 0, 0, 7]), 0x1234), vec![5, 0, 0, 1, 10, 0, 0, 7, 0x12, 0x34]);
    assert_eq!(granted(None, 7), vec![5, 0, 0, 1, 0, 0, 0, 0, 0, 0]);
    assert_eq!(denied(), vec![5, 4, 0, 1, 0, 0, 0, 0, 0, 0]);
}

#[test]
fn stages_follow_each_other() {
    assert_eq!(first_stage(true, 3), RouteStage::Relay);
    assert_eq!(next_stage(RouteStage::Relay, true), None);
    assert_eq!(first_stage(false, 2), RouteStage::Preferred);
    assert_eq!(next_stage(RouteStage::Preferred, false), Some(RouteStage::Failover));
    assert_eq!(next_stage(RouteStage::Failover, false), None);
    assert_eq!(next_stage(RouteStage::Failover, true), Some(RouteStage::RelayFallback));
    assert_eq!(next_stage(RouteStage::RelayFallback, true), None);
    assert_eq!(RouteStage::RelayFallback.name(), "relay_fallback");
    assert_eq!(stage_budget(RouteStage::Failover, 0), 3_000_000);
    assert_eq!(stage_budget(RouteStage::Relay, 0), 2_000_000);
}

#[test]
fn attempts_try_every_destination_on_every_other_uplink() {
    let order = vec![4, 1, 7];
    assert_eq!(attempts(RouteStage::Preferred, &order, 2), vec![(Some(4), 0), (Some(4), 1)]);
    assert_eq!(
        attempts(RouteStage::Failover, &order, 2),
        vec![(Some(1), 0), (Some(7), 0), (Some(1), 1), (Some(7), 1)]
    );
    assert_eq!(attempts(RouteStage::Relay, &order, 2), vec![(None, 0), (None, 1)]);
    assert!(attempts(RouteStage::Failover, &vec![4], 2).is_empty());
    assert!(attempts(RouteStage::Preferred, &Vec::new(), 2).is_empty());
}

#[test]
fn only_version_four_is_tried() {
    let four = Endpoint { v6: false, host: 1, port: 80, scope: 0 };
    let six = Endpoint { v6: true, host: 1, port: 80, scope: 0 };
    assert_eq!(usable_destinations(&vec![six, four]).unwrap(), vec![four]);
    assert_eq!(
        usable_destinations(&vec![six]).err(),
        Some("destination has no IPv4 address")
    );
}

#[test]
fn failures_and_successes_of_connections_are_counted() {
    let mut link = Uplink::new(false, 0, 0);
    link.attempt_failed();
    assert_eq!(link.failures, 1);
    link.attempt_succeeded();
    assert!(link.healthy);
    let mut tally = Tally::new();
    tally.opened(true);
    tally.opened(false);
    assert_eq!((tally.active, tally.over_uplinks, tally.relayed), (2, 1, 1));
    tally.closed();
    assert_eq!(tally.active, 1);
}

#[test]
fn traffic_has_a_shape() {
    let num = |x: f64| Binary64::from_bits(x.to_bits());
    assert_eq!(f64::from_bits(bit_rate(1_000, 2_000, num(2.0)).bits), 4_000.0);
    assert_eq!(traffic_shape(num(0.0), num(0.0)), Shape::Balanced);
    assert_eq!(traffic_shape(num(1e6), num(5e7)), Shape::Download);
    assert_eq!(traffic_shape(num(5e7), num(1e6)), Shape::Upload);
}
