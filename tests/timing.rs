use butteryfly::jitter::{assign_bucket, Arrival, JitterBuffer};
use butteryfly::reliability::Reliability;
use butteryfly::wire::{CHANNEL_ACK, CHANNEL_CLIENT_ID, CHANNEL_MESSAGE, CHANNEL_STATE};

#[test]
fn buckets_tile_one_tick_windows_around_zero() {
    // Two buckets of 16 ms: windows [-16, 0] and [0, 16].
    assert_eq!(assign_bucket(100, 100, 16, 2), Some(0));
    assert_eq!(assign_bucket(84, 100, 16, 2), Some(0));
    assert_eq!(assign_bucket(105, 100, 16, 2), Some(1));
    assert_eq!(assign_bucket(116, 100, 16, 2), Some(1));
    assert_eq!(assign_bucket(117, 100, 16, 2), None);
    assert_eq!(assign_bucket(83, 100, 16, 2), None);
    assert_eq!(assign_bucket(100, 100, 16, 0), None);
}

#[test]
fn bucket_assignment_is_reproducible() {
    for latency in 0..200u64 {
        assert_eq!(assign_bucket(latency, 90, 17, 3), assign_bucket(latency, 90, 17, 3));
    }
    assert_eq!(assign_bucket(90, 90, 17, 3), Some(1));
}

#[test]
fn stale_snapshots_change_nothing() {
    let mut j = JitterBuffer::new();
    assert_eq!(j.receive(vec![1], 0, 1001, 16), Arrival::Stale);
    assert_eq!(j.smoothed_latency(), 0);
    assert_eq!(j.receive(vec![1], 1000, 1010, 16), Arrival::Accepted(0));
    assert_eq!(j.smoothed_latency(), 10);
    assert_eq!(j.receive(vec![2], 1000, 1030, 16), Arrival::Accepted(1));
    assert_eq!(j.smoothed_latency(), 20);
}

#[test]
fn the_oldest_bucket_drains_each_tick() {
    let mut j = JitterBuffer::new();
    assert_eq!(j.receive(vec![7], 1000, 1010, 16), Arrival::Accepted(0));
    j.push_current(vec![8]);
    j.end_tick();
    assert_eq!(j.drain_oldest(), vec![vec![7], vec![8]]);
    assert_eq!(j.bucket_count(), 2);
    assert!(j.drain_oldest().is_empty());
}

#[test]
fn sustained_misses_grow_the_buffer() {
    let mut j = JitterBuffer::new();
    let mut misses = 0;
    for _ in 0..200 {
        // zero-width windows: only an offset of exactly zero is caught
        for now in [1400u64, 1000] {
            if j.receive(vec![0], 1000, now, 0) == Arrival::Missed {
                misses += 1;
            }
        }
        j.end_tick();
        let _ = j.drain_oldest();
        if j.bucket_count() > 2 {
            break;
        }
    }
    assert_eq!(j.bucket_count(), 3);
    assert!(misses >= 64);
}

#[test]
fn numbering_follows_each_channel() {
    let mut r = Reliability::new();
    assert_eq!(r.number(CHANNEL_MESSAGE), Some(0));
    assert_eq!(r.number(CHANNEL_MESSAGE), Some(1));
    assert_eq!(r.number(CHANNEL_STATE), Some(0));
    assert_eq!(r.number(CHANNEL_CLIENT_ID), Some(0));
    assert_eq!(r.number(CHANNEL_ACK), None);
}

#[test]
fn acked_packets_are_not_resent() {
    let mut r = Reliability::new();
    let a = r.number(CHANNEL_MESSAGE).unwrap();
    r.record(CHANNEL_MESSAGE, a, vec![1], 0);
    let b = r.number(CHANNEL_MESSAGE).unwrap();
    r.record(CHANNEL_MESSAGE, b, vec![2], 0);
    // timeout with zero latency: 3 * 32 = 96 ms
    assert!(r.retransmissions(96, 0).is_empty());
    assert_eq!(r.retransmissions(97, 0), vec![vec![1], vec![2]]);
    r.acknowledge(CHANNEL_MESSAGE, a);
    r.acknowledge(CHANNEL_MESSAGE, a);
    assert!(r.retransmissions(150, 0).is_empty());
    assert_eq!(r.retransmissions(194, 0), vec![vec![2]]);
}

#[test]
fn acks_are_owed_once_and_taken_oldest_first() {
    let mut r = Reliability::new();
    r.note_received(CHANNEL_MESSAGE, 4);
    r.note_received(CHANNEL_STATE, 9);
    r.note_received(CHANNEL_MESSAGE, 4);
    r.note_received(CHANNEL_ACK, 1);
    assert_eq!(r.pending_ack_count(), 2);
    assert_eq!(r.take_acks(1), vec![(CHANNEL_MESSAGE, 4)]);
    assert_eq!(r.take_acks(1), vec![(CHANNEL_STATE, 9)]);
    assert_eq!(r.pending_ack_count(), 0);
}
