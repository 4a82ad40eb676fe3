use fips_tcp::report::{ReceiveReport, receive_report};
use fips_tcp::wire::{FIPS_VERSION, Flags, Segment, TcpOption, WireError};
use fips_tcp::{Config, ConnectionId, MarkerStatus, Stack, StackError, State};

fn pump(a: &mut Stack<String>, b: &mut Stack<String>, now: u64) {
    for _ in 0..64 {
        let from_a = a.drain_outbound();
        let from_b = b.drain_outbound();
        if from_a.is_empty() && from_b.is_empty() {
            return;
        }
        for outbound in from_a {
            b.input("a".to_string(), &outbound.bytes, now).unwrap();
        }
        for outbound in from_b {
            a.input("b".to_string(), &outbound.bytes, now).unwrap();
        }
    }
    panic!("stacks did not settle");
}

fn established(config: Config) -> (Stack<String>, Stack<String>, ConnectionId, ConnectionId) {
    let mut a = Stack::new(config.clone(), 7);
    let mut b = Stack::new(config, 9);
    b.listen(443).unwrap();
    let client = a
        .connect_from_with_isn("b".to_string(), 50_000, 443, 1000, 0)
        .unwrap();
    pump(&mut a, &mut b, 0);
    let server = b.accept(443).unwrap();
    assert_eq!(a.state(client), Some(State::Established));
    assert_eq!(b.state(server), Some(State::Established));
    (a, b, client, server)
}

fn syn(src_port: u16, dst_port: u16, seq: u32) -> Segment {
    let mut segment = Segment::new(src_port, dst_port, seq);
    segment.flags = Flags::syn();
    segment.options = vec![
        TcpOption::MaxSegmentSize(1024),
        TcpOption::FipsVersion {
            version: FIPS_VERSION,
            reserved: 0,
        },
    ];
    segment
}

fn rst(src_port: u16, dst_port: u16, seq: u32) -> Vec<u8> {
    let mut segment = Segment::new(src_port, dst_port, seq);
    segment.flags = Flags::rst();
    segment.encode().unwrap()
}

#[test]
fn abort_sends_exactly_one_reset_at_snd_nxt_and_releases_the_tuple() {
    let mut a = Stack::new(Config::default(), 3);
    let id = a
        .connect_from_with_isn("b".to_string(), 50_000, 443, 5000, 0)
        .unwrap();
    let other = a
        .connect_from_with_isn("b".to_string(), 50_001, 443, 7000, 0)
        .unwrap();
    a.abort(id).unwrap();
    let queued = a.drain_outbound();
    assert_eq!(queued.len(), 2);
    let kept = Segment::decode(&queued[0].bytes).unwrap();
    assert_eq!(kept.src_port, 50_001);
    assert!(kept.flags.contains(Flags::syn()));
    let reset = Segment::decode(&queued[1].bytes).unwrap();
    assert_eq!(queued[1].peer, "b");
    assert_eq!(reset.flags.bits(), Flags::rst().bits());
    assert_eq!(reset.seq, 5001);
    assert_eq!((reset.src_port, reset.dst_port), (50_000, 443));
    assert_eq!(a.state(id), None);
    assert_eq!(a.state(other), Some(State::SynSent));
}

#[test]
fn abort_of_an_unknown_connection_emits_nothing() {
    let mut a = Stack::new(Config::default(), 3);
    let id = a
        .connect_from_with_isn("b".to_string(), 50_000, 443, 5000, 0)
        .unwrap();
    a.abort(id).unwrap();
    a.drain_outbound();
    assert!(matches!(a.abort(id), Err(StackError::UnknownConnection)));
    assert!(a.drain_outbound().is_empty());
}

#[test]
fn reset_at_rcv_nxt_closes_the_tuple() {
    let (_a, mut b, _client, server) = established(Config::default());
    b.input("a".to_string(), &rst(50_000, 443, 1001), 0).unwrap();
    assert!(b.drain_outbound().is_empty());
    assert_eq!(b.state(server), None);
}

#[test]
fn in_window_reset_draws_one_challenge_ack() {
    let (_a, mut b, _client, server) = established(Config::default());
    b.input("a".to_string(), &rst(50_000, 443, 1011), 0).unwrap();
    let out = b.drain_outbound();
    assert_eq!(out.len(), 1);
    let ack = Segment::decode(&out[0].bytes).unwrap();
    assert_eq!(ack.flags.bits(), Flags::ack().bits());
    assert_eq!(ack.ack, Some(1001));
    assert_eq!(b.state(server), Some(State::Established));
}

#[test]
fn out_of_window_reset_is_dropped_silently() {
    let (_a, mut b, _client, server) = established(Config::default());
    b.input("a".to_string(), &rst(50_000, 443, 1001 + 100_000), 0)
        .unwrap();
    assert!(b.drain_outbound().is_empty());
    assert_eq!(b.state(server), Some(State::Established));
}

#[test]
fn reset_in_syn_sent_needs_an_acceptable_ack() {
    let mut a = Stack::new(Config::default(), 3);
    let id = a
        .connect_from_with_isn("b".to_string(), 50_000, 443, 5000, 0)
        .unwrap();
    a.drain_outbound();
    a.input("b".to_string(), &rst(443, 50_000, 0), 0).unwrap();
    assert_eq!(a.state(id), Some(State::SynSent));
    let mut reset = Segment::new(443, 50_000, 0);
    reset.flags = Flags::rst() | Flags::ack();
    reset.ack = Some(5001);
    a.input("b".to_string(), &reset.encode().unwrap(), 0).unwrap();
    assert_eq!(a.state(id), None);
}

#[test]
fn refused_tuple_at_the_peer_cap_allocates_nothing() {
    let config = Config {
        max_connections_per_peer: 1,
        ..Config::default()
    };
    let mut server = Stack::new(config, 1);
    server.listen(443).unwrap();
    server
        .input("p".to_string(), &syn(50_000, 443, 1).encode().unwrap(), 0)
        .unwrap();
    assert_eq!(server.drain_outbound().len(), 1);
    assert!(matches!(
        server.input("p".to_string(), &syn(50_001, 443, 1).encode().unwrap(), 0),
        Err(StackError::ConnectionLimit)
    ));
    assert!(server.drain_outbound().is_empty());
    server
        .input("q".to_string(), &syn(50_001, 443, 1).encode().unwrap(), 0)
        .unwrap();
    assert_eq!(server.drain_outbound().len(), 1);
}

#[test]
fn fin_wait_2_is_released_after_its_deadline() {
    let config = Config {
        fin_wait_2_ms: 5_000,
        ..Config::default()
    };
    let (mut a, mut b, client, server) = established(config);
    a.close(client, 0).unwrap();
    pump(&mut a, &mut b, 0);
    assert_eq!(a.state(client), Some(State::FinWait2));
    assert_eq!(b.state(server), Some(State::CloseWait));
    a.poll(4_999);
    assert_eq!(a.state(client), Some(State::FinWait2));
    a.poll(5_000);
    assert_eq!(a.state(client), None);
}

#[test]
fn marker_turns_acked_once_the_peer_acknowledges_its_bytes() {
    let (mut a, mut b, client, _server) = established(Config::default());
    let (accepted, marker) = a.write_with_marker(client, b"abc", 0).unwrap();
    assert_eq!(accepted, 3);
    assert_eq!(marker.connection_id(), client);
    assert_eq!(a.marker_status(&marker), MarkerStatus::Pending);
    pump(&mut a, &mut b, 0);
    assert_eq!(a.marker_status(&marker), MarkerStatus::Acked);
    let (none, empty_marker) = a.write_with_marker(client, b"", 0).unwrap();
    assert_eq!(none, 0);
    assert_eq!(a.marker_status(&empty_marker), MarkerStatus::Acked);
    a.abort(client).unwrap();
    assert_eq!(a.marker_status(&marker), MarkerStatus::ConnectionGone);
}

#[test]
fn reads_return_the_oldest_bytes_in_order() {
    let (mut a, mut b, client, server) = established(Config::default());
    assert_eq!(a.write(client, b"hello", 0).unwrap(), 5);
    pump(&mut a, &mut b, 0);
    assert_eq!(b.read(server, 2, 0).unwrap(), b"he");
    assert_eq!(b.read(server, 10, 0).unwrap(), b"llo");
    assert!(b.read(server, 10, 0).unwrap().is_empty());
}

#[test]
fn every_error_variant_has_its_input() {
    let mut stack = Stack::new(Config::default(), 1);
    assert!(matches!(stack.listen(0), Err(StackError::ZeroPort)));
    stack.listen(443).unwrap();
    assert!(matches!(
        stack.listen(443),
        Err(StackError::AlreadyListening(443))
    ));
    assert!(matches!(
        stack.connect_from_with_isn("b".to_string(), 0, 443, 1, 0),
        Err(StackError::ZeroPort)
    ));
    let id = stack
        .connect_from_with_isn("b".to_string(), 50_000, 443, 1, 0)
        .unwrap();
    assert!(matches!(
        stack.connect_from_with_isn("b".to_string(), 50_000, 443, 2, 0),
        Err(StackError::ConnectionExists)
    ));
    assert!(matches!(
        stack.write(id, b"x", 0),
        Err(StackError::InvalidState(State::SynSent))
    ));
    assert!(matches!(
        stack.write(ConnectionId::from_raw(999), b"x", 0),
        Err(StackError::UnknownConnection)
    ));
    assert!(matches!(
        stack.input("b".to_string(), &[0; 10], 0),
        Err(StackError::Wire(WireError::Truncated))
    ));
    let invalid = Config {
        mss: 0,
        ..Config::default()
    };
    assert!(matches!(
        invalid.validate(),
        Err(StackError::InvalidConfig("MSS must be non-zero"))
    ));
    assert!(Config::default().validate().is_ok());
}

#[test]
fn close_listener_stops_new_handshakes() {
    let mut server = Stack::new(Config::default(), 1);
    server.listen(443).unwrap();
    server.close_listener(443);
    server
        .input("p".to_string(), &syn(50_000, 443, 1).encode().unwrap(), 0)
        .unwrap();
    let out = server.drain_outbound();
    assert_eq!(out.len(), 1);
    let reset = Segment::decode(&out[0].bytes).unwrap();
    assert!(reset.flags.contains(Flags::rst()));
    assert_eq!(reset.ack, Some(2));
    assert_eq!(server.accept(443), None);
}

#[test]
fn connect_allocates_ephemeral_ports_in_turn() {
    let mut a = Stack::new(Config::default(), 5);
    let first = a.connect("b".to_string(), 443, 0).unwrap();
    let second = a.connect("b".to_string(), 443, 0).unwrap();
    assert_eq!(a.ports(first), Some((49_152, 443)));
    assert_eq!(a.ports(second), Some((49_153, 443)));
    assert_eq!(a.peer(first), Some(&"b".to_string()));
    assert!(!a.is_read_closed(first));
    assert!(a.is_read_closed(ConnectionId::from_raw(77)));
}

#[test]
fn segment_round_trips_through_its_encoding() {
    let mut segment = syn(50_000, 443, 0xdead_beef);
    segment.flags = Flags::syn() | Flags::ack();
    segment.ack = Some(42);
    segment.window = 1234;
    segment.payload = vec![9, 8, 7];
    let bytes = segment.encode().unwrap();
    let decoded = Segment::decode(&bytes).unwrap();
    assert_eq!(decoded, segment);
    assert_eq!(decoded.fips_version(), Some(FIPS_VERSION));
    assert_eq!(decoded.max_segment_size(), Some(1024));
    assert!(decoded.supports_fips_version(FIPS_VERSION));
}

#[test]
fn batch_report_counts_every_datagram_once() {
    let config = Config {
        max_connections_per_peer: 1,
        ..Config::default()
    };
    let mut server = Stack::new(config, 1);
    server.listen(443).unwrap();
    let batch = vec![
        ("p".to_string(), syn(50_000, 443, 1).encode().unwrap()),
        ("p".to_string(), vec![1, 2, 3]),
        ("p".to_string(), syn(50_001, 443, 1).encode().unwrap()),
        ("q".to_string(), syn(50_002, 443, 1).encode().unwrap()),
    ];
    let report = receive_report(&mut server, &batch, 0);
    assert_eq!(
        report,
        ReceiveReport {
            datagrams: 4,
            processed: 2,
            malformed: 1,
            connection_limited: 1,
            other_errors: 0,
        }
    );
    assert_eq!(report.rejected(), 2);
    assert_eq!(report.datagrams, report.processed + report.rejected());
    assert_eq!(server.drain_outbound().len(), 2);
    assert_eq!(ReceiveReport::default().rejected(), 0);
}

#[test]
fn rollback_connect_releases_the_unsent_connection() {
    let mut a = Stack::new(Config::default(), 3);
    let id = a.connect("b".to_string(), 443, 0).unwrap();
    a.drain_outbound();
    a.rollback_connect(id, 0).unwrap();
    assert_eq!(a.state(id), None);
    assert!(a.drain_outbound().is_empty());
    assert!(matches!(
        a.rollback_connect(id, 0),
        Err(StackError::UnknownConnection)
    ));
}

#[test]
fn out_of_order_and_duplicate_segments_are_delivered_once_in_order() {
    let config = Config {
        mss: 4,
        ..Config::default()
    };
    let (mut a, mut b, client, server) = established(config);
    assert_eq!(a.write(client, b"abcdefghijkl", 0).unwrap(), 12);
    let mut packets = a.drain_outbound();
    assert_eq!(packets.len(), 2);
    packets.reverse();
    for outbound in packets.iter().chain(packets.iter()) {
        b.input("a".to_string(), &outbound.bytes, 0).unwrap();
    }
    assert_eq!(b.read(server, 100, 0).unwrap(), b"abcdefgh");
    pump(&mut a, &mut b, 0);
    assert_eq!(b.read(server, 100, 0).unwrap(), b"ijkl");
}
