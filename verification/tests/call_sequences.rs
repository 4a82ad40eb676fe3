use fips_tcp::wire::{Flags, Segment};
use fips_tcp::{Config, Stack, StackError, State};

fn pump(a: &mut Stack<String>, b: &mut Stack<String>, now: u64) {
    for _ in 0..64 {
        let from_a = a.drain_outbound();
        let from_b = b.drain_outbound();
        if from_a.is_empty() && from_b.is_empty() {
            return;
        }
        for outbound in from_a {
            b.input("a".to_string(), &outbound.bytes, now).unwrap();
        }
        for outbound in from_b {
            a.input("b".to_string(), &outbound.bytes, now).unwrap();
        }
    }
    panic!("stacks did not settle");
}

fn session(seed: u64) -> Vec<Vec<u8>> {
    let mut a: Stack<String> = Stack::new(Config::default(), seed);
    let mut b: Stack<String> = Stack::new(Config::default(), 77);
    b.listen(443).unwrap();
    let client = a.connect("b".to_string(), 443, 0).unwrap();
    let mut sent = Vec::new();
    for outbound in a.drain_outbound() {
        sent.push(outbound.bytes.clone());
        b.input("a".to_string(), &outbound.bytes, 0).unwrap();
    }
    for outbound in b.drain_outbound() {
        a.input("b".to_string(), &outbound.bytes, 0).unwrap();
    }
    a.write(client, b"same calls, same bytes", 5).unwrap();
    a.poll(10);
    for outbound in a.drain_outbound() {
        sent.push(outbound.bytes);
    }
    sent
}

#[test]
fn equal_seeds_give_equal_datagrams() {
    assert_eq!(session(42), session(42));
    assert_eq!(session(0), session(1));
    assert_ne!(session(42), session(43));
}

#[test]
fn writes_stay_refused_after_close() {
    let config = Config::default();
    let mut a = Stack::new(config.clone(), 7);
    let mut b = Stack::new(config, 9);
    b.listen(443).unwrap();
    let client = a
        .connect_from_with_isn("b".to_string(), 50_000, 443, 1000, 0)
        .unwrap();
    pump(&mut a, &mut b, 0);
    let server = b.accept(443).unwrap();
    assert_eq!(a.write(client, b"queued", 0).unwrap(), 6);
    a.close(client, 0).unwrap();
    assert!(matches!(
        a.write(client, b"late", 0),
        Err(StackError::InvalidState(State::FinWait1))
    ));
    pump(&mut a, &mut b, 0);
    assert_eq!(b.read(server, 100, 0).unwrap(), b"queued");
    a.poll(10);
    assert_eq!(a.read(client, 10, 10).unwrap(), b"");
    assert_eq!(a.state(client), Some(State::FinWait2));
    assert!(matches!(
        a.write(client, b"later", 20),
        Err(StackError::InvalidState(State::FinWait2))
    ));
    b.close(server, 30).unwrap();
    pump(&mut a, &mut b, 30);
    assert_eq!(a.state(client), Some(State::TimeWait));
    assert!(matches!(
        a.write(client, b"last", 40),
        Err(StackError::InvalidState(State::TimeWait))
    ));
}

#[test]
fn reads_stay_a_prefix_over_a_lossy_carrier() {
    let config = Config {
        mss: 3,
        ..Config::default()
    };
    let mut a = Stack::new(config.clone(), 7);
    let mut b = Stack::new(config, 9);
    b.listen(443).unwrap();
    let client = a
        .connect_from_with_isn("b".to_string(), 50_000, 443, 1000, 0)
        .unwrap();
    pump(&mut a, &mut b, 0);
    let server = b.accept(443).unwrap();
    assert_eq!(a.write(client, b"abcdefghijkl", 0).unwrap(), 12);
    let packets = a.drain_outbound();
    assert!(packets.len() >= 2);
    let mut read = Vec::new();
    // The first segment is lost; the others arrive out of order and twice.
    let late: Vec<usize> = (1..packets.len()).rev().chain(1..packets.len()).collect();
    for index in late {
        b.input("a".to_string(), &packets[index].bytes, 1).unwrap();
        read.extend(b.read(server, 2, 1).unwrap());
        assert!(b"abcdefghijkl".starts_with(&read));
    }
    assert!(read.is_empty());
    // Retransmissions fill the gap and every byte is delivered once, in order.
    b.drain_outbound();
    for round in 1..=20u64 {
        let now = round * 2_000;
        a.poll(now);
        pump(&mut a, &mut b, now);
        let chunk = b.read(server, 5, now).unwrap();
        assert!(chunk.len() <= 5);
        read.extend(chunk);
        assert!(b"abcdefghijkl".starts_with(&read));
    }
    assert_eq!(read, b"abcdefghijkl");
}

#[test]
fn time_wait_is_kept_until_its_deadline() {
    let config = Config {
        time_wait_ms: 1_000,
        ..Config::default()
    };
    let mut a = Stack::new(config.clone(), 7);
    let mut b = Stack::new(config, 9);
    b.listen(443).unwrap();
    let client = a
        .connect_from_with_isn("b".to_string(), 50_000, 443, 1000, 0)
        .unwrap();
    pump(&mut a, &mut b, 0);
    let server = b.accept(443).unwrap();
    a.close(client, 10).unwrap();
    pump(&mut a, &mut b, 10);
    b.close(server, 30).unwrap();
    pump(&mut a, &mut b, 30);
    assert_eq!(a.state(client), Some(State::TimeWait));
    a.poll(1_029);
    assert_eq!(a.state(client), Some(State::TimeWait));
    assert!(a.drain_outbound().is_empty());
    a.poll(1_030);
    assert_eq!(a.state(client), None);
}

#[test]
fn every_sent_segment_carries_a_slice_of_the_written_stream() {
    let config = Config {
        mss: 4,
        ..Config::default()
    };
    let mut a = Stack::new(config.clone(), 7);
    let mut b = Stack::new(config, 9);
    b.listen(443).unwrap();
    let client = a
        .connect_from_with_isn("b".to_string(), 50_000, 443, 1000, 0)
        .unwrap();
    pump(&mut a, &mut b, 0);
    b.accept(443).unwrap();
    let written = b"the written stream".to_vec();
    assert_eq!(a.write(client, &written[..10], 0).unwrap(), 10);
    assert_eq!(a.write(client, &written[10..], 0).unwrap(), 8);
    a.close(client, 0).unwrap();
    let mut sent = Vec::new();
    for _ in 0..64 {
        let from_a = a.drain_outbound();
        let from_b = b.drain_outbound();
        if from_a.is_empty() && from_b.is_empty() {
            break;
        }
        for outbound in from_a {
            b.input("a".to_string(), &outbound.bytes, 0).unwrap();
            sent.push(outbound);
        }
        for outbound in from_b {
            a.input("b".to_string(), &outbound.bytes, 0).unwrap();
        }
    }
    assert_eq!(a.state(client), Some(State::FinWait2));
    let base = 1001u32;
    let mut fins = 0;
    for outbound in sent {
        let segment = Segment::decode(&outbound.bytes).unwrap();
        let offset = segment.seq.wrapping_sub(base) as usize;
        if !segment.payload.is_empty() {
            assert_eq!(segment.payload[..], written[offset..offset + segment.payload.len()]);
        }
        if segment.flags.contains(Flags::fin()) {
            fins += 1;
            assert_eq!(offset + segment.payload.len(), written.len());
        }
    }
    assert!(fins >= 1);
}

#[test]
fn a_fin_that_overtakes_the_data_ends_the_stream_after_it() {
    let config = Config {
        mss: 3,
        ..Config::default()
    };
    let mut a = Stack::new(config.clone(), 7);
    let mut b = Stack::new(config, 9);
    b.listen(443).unwrap();
    let client = a
        .connect_from_with_isn("b".to_string(), 50_000, 443, 1000, 0)
        .unwrap();
    pump(&mut a, &mut b, 0);
    let server = b.accept(443).unwrap();
    assert_eq!(a.write(client, b"ab", 0).unwrap(), 2);
    a.close(client, 0).unwrap();
    let packets = a.drain_outbound();
    assert_eq!(packets.len(), 2);
    let fin = Segment::decode(&packets[1].bytes).unwrap();
    assert!(fin.flags.contains(Flags::fin()));
    let mut read = Vec::new();
    for index in [1, 1, 0, 1] {
        b.input("a".to_string(), &packets[index].bytes, 1).unwrap();
        read.extend(b.read(server, 100, 1).unwrap());
        assert!(b"ab".starts_with(&read));
    }
    assert_eq!(read, b"ab");
    assert_eq!(b.state(server), Some(State::CloseWait));
    assert!(b.is_read_closed(server));
}
