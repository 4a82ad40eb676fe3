use fips_tcp::reno::Reno;
use fips_tcp::rtt::RttEstimator;
use fips_tcp::seq::{after, before, distance, in_closed_interval};
use fips_tcp::wire::{Flags, Segment};

#[test]
fn slow_start_loss_and_recovery_match_reno_shape() {
    let mut reno = Reno::new(1000);
    assert_eq!(reno.window(), 2000);
    reno.on_ack(1000);
    assert_eq!(reno.window(), 3000);
    reno.on_timeout(3000);
    assert_eq!(reno.window(), 1000);
    reno.on_ack(1000);
    assert_eq!(reno.window(), 2000);
}

#[test]
fn estimator_samples_and_backs_off() {
    let mut estimator = RttEstimator::new(1_000, 200, 60_000);
    estimator.sample(100);
    assert_eq!(estimator.timeout_ms(), 300);
    estimator.sample(120);
    assert!((200..=400).contains(&estimator.timeout_ms()));
    let before = estimator.timeout_ms();
    estimator.on_timeout();
    assert_eq!(estimator.timeout_ms(), before * 2);
}

#[test]
fn comparisons_cross_wrap() {
    let before_wrap = u32::MAX - 4;
    let after_wrap = 7;
    assert!(before(before_wrap, after_wrap));
    assert!(after(after_wrap, before_wrap));
    assert_eq!(distance(before_wrap, after_wrap), 12);
    assert!(in_closed_interval(0, before_wrap, after_wrap));
}

#[test]
fn sequence_length_counts_syn_and_fin() {
    let mut segment = Segment::new(1, 2, u32::MAX);
    segment.flags = Flags::syn() | Flags::fin();
    segment.payload = vec![1, 2, 3];
    assert_eq!(segment.sequence_len(), 5);
}
