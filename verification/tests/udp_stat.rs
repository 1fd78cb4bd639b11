use cark::udp_stat::{distance, newer, Sequence, SequenceGen, UdpStat};

#[test]
fn udp_stat_test() {
    let mut stat = UdpStat::new();
    stat.update(0);
    assert_eq!(stat.dropped(), 0);
    stat.update(1);
    assert_eq!(stat.dropped(), 0);
    stat.update(4);
    assert_eq!(stat.dropped(), 2);
    stat.update(5);
    assert_eq!(stat.dropped(), 2);
    stat.update(3);
    assert_eq!(stat.dropped(), 1);
    stat.update(2);
    assert_eq!(stat.dropped(), 0);

    let mut stat = UdpStat {
        sent: 0,
        received: 0,
        last_sequence: Sequence::MAX - 3,
    };
    stat.update(2);
    assert_eq!(stat.dropped(), 5);
    stat.update(0);
    assert_eq!(stat.dropped(), 4);
    stat.update(Sequence::MAX - 2);
    assert_eq!(stat.dropped(), 3);
}

#[test]
fn sequence_generator_starts_at_zero_and_wraps() {
    let mut gen = SequenceGen::default();
    assert_eq!(gen.next(), 0);
    assert_eq!(gen.next(), 1);
    let mut last = 1;
    for _ in 0..65535 {
        last = gen.next();
    }
    assert_eq!(last, 0);
}

#[test]
fn distance_is_wrap_aware() {
    assert_eq!(distance(Sequence::MAX, 0), 1);
    assert_eq!(distance(0, Sequence::MAX), 65535);
    assert_eq!(distance(7, 7), 0);
    assert_eq!(distance(65530, 4), 10);
}

#[test]
fn newer_across_the_wraparound() {
    assert!(newer(Sequence::MAX, 0));
    assert!(!newer(0, Sequence::MAX));
    assert!(newer(10, 10));
    assert!(newer(0, 32767));
    assert!(!newer(0, 32768));
    assert!(newer(40000, 100));
}

#[test]
fn duplicate_does_not_push_received_past_sent() {
    let mut stat = UdpStat::new();
    stat.update(0);
    stat.update(0);
    assert_eq!(stat.sent, 1);
    assert_eq!(stat.received, 1);
    assert_eq!(stat.dropped(), 0);
}

#[test]
fn checked_update_stands_still_at_the_end_of_the_range() {
    let mut stat = UdpStat { sent: u64::MAX, received: 3, last_sequence: 5 };
    assert!(!stat.checked_update(6));
    assert_eq!(stat.sent, u64::MAX);
    assert_eq!(stat.received, 3);
    assert_eq!(stat.last_sequence, 5);
    assert!(stat.checked_update(4));
    assert_eq!(stat.sent, u64::MAX);
    assert_eq!(stat.received, 4);
    assert_eq!(stat.last_sequence, 4);
}
