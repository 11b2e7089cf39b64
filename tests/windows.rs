use udt::ack_window::{AckWindow, AckWindowItem, Acknowledgement};
use udt::error::{ConnectionError, ConnectionSetupError};
use udt::stats::{bandwidth_of, median_of, speed_of};
use udt::time_window::{PacketTimeWindow, NO_INTERVAL};

#[test]
fn acknowledge_newest_prunes_older() {
    let mut w = AckWindow::<16>::new();
    w.store_at(1, 100, 10);
    w.store_at(2, 200, 20);
    assert_eq!(w.acknowledge_at(2, 25), Some(Acknowledgement { data_seq_no: 200, rtt: 5 }));
    assert_eq!(w.acknowledge_at(1, 30), None);
}

#[test]
fn acknowledge_middle_keeps_newer() {
    let mut w = AckWindow::<8>::new();
    w.store_at(1, 100, 10);
    w.store_at(2, 200, 20);
    w.store_at(3, 300, 30);
    assert_eq!(w.acknowledge_at(2, 50), Some(Acknowledgement { data_seq_no: 200, rtt: 30 }));
    assert_eq!(w.acknowledge_at(1, 50), None);
    assert_eq!(w.acknowledge_at(3, 50), Some(Acknowledgement { data_seq_no: 300, rtt: 20 }));
    assert_eq!(w.acknowledge_at(3, 50), None);
}

#[test]
fn rtt_saturates_at_zero() {
    let mut w = AckWindow::<4>::new();
    w.store_at(7, 70, 1000);
    assert_eq!(w.acknowledge_at(7, 10), Some(Acknowledgement { data_seq_no: 70, rtt: 0 }));
}

#[test]
fn capacity_evicts_oldest() {
    let mut w = AckWindow::<4>::new();
    for i in 0..5 {
        w.store_at(i, i * 10, i as u64);
    }
    // Four slots hold three records: 2, 3 and 4.
    assert_eq!(w.acknowledge_at(0, 9), None);
    assert_eq!(w.acknowledge_at(1, 9), None);
    assert_eq!(w.acknowledge_at(2, 9), Some(Acknowledgement { data_seq_no: 20, rtt: 7 }));
    assert_eq!(w.acknowledge_at(4, 9), Some(Acknowledgement { data_seq_no: 40, rtt: 5 }));
}

#[test]
fn wrapped_ring_matches_and_empties() {
    let mut w = AckWindow::<3>::new();
    for i in 0..7 {
        w.store_at(i, -i, 0);
    }
    assert_eq!(w.acknowledge_at(6, 1), Some(Acknowledgement { data_seq_no: -6, rtt: 1 }));
    assert_eq!(w.acknowledge_at(5, 1), None);
    w.store_at(8, 80, 2);
    assert_eq!(w.acknowledge_at(8, 2), Some(Acknowledgement { data_seq_no: 80, rtt: 0 }));
}

#[test]
fn single_slot_window_holds_nothing() {
    let mut w = AckWindow::<1>::new();
    w.store_at(1, 1, 0);
    assert_eq!(w.acknowledge_at(1, 0), None);
}

#[test]
fn empty_window_matches_nothing() {
    let mut w = AckWindow::<8>::new();
    assert_eq!(w.acknowledge(-1), None);
    assert_eq!(w.acknowledge(0), None);
}

#[test]
fn clocked_store_and_acknowledge() {
    let mut w = AckWindow::<8>::new();
    w.store(1, 11);
    w.store(2, 22);
    let ack = w.acknowledge(2).unwrap();
    assert_eq!(ack.data_seq_no, 22);
    assert!(ack.rtt < 10_000_000);
    assert!(w.acknowledge(1).is_none());
}

#[test]
fn make_ack_measures_from_timestamp() {
    let item = AckWindowItem { timestamp: 40, seq_no: 3, data_seq_no: 9 };
    assert_eq!(item.make_ack(100), Acknowledgement { data_seq_no: 9, rtt: 60 });
}

#[test]
fn default_windows_estimates() {
    let w = PacketTimeWindow::<16, 16>::new();
    assert_eq!(w.get_packet_receive_speed(), 1);
    assert_eq!(w.get_bandwidth(), 1000);
    assert_eq!(w.min_packet_sending_interval(), NO_INTERVAL);
}

#[test]
fn uniform_arrivals_give_exact_speed() {
    let mut w = PacketTimeWindow::<16, 16>::new();
    for i in 1..=16u64 {
        w.on_packet_arrival_at(i * 1000);
    }
    assert_eq!(w.get_packet_receive_speed(), 1000);
}

#[test]
fn outliers_do_not_move_speed() {
    let mut w = PacketTimeWindow::<16, 16>::new();
    let mut t = 0u64;
    for i in 0..16 {
        t += if i % 5 == 0 { 100_000 } else { 2_000 };
        w.on_packet_arrival_at(t);
    }
    assert_eq!(w.get_packet_receive_speed(), 500);
}

#[test]
fn scattered_samples_give_no_speed() {
    let s: Vec<u64> = vec![1, 100, 10_000, 1_000_000, 1, 100, 10_000, 1_000_000];
    assert_eq!(speed_of(&s), 0);
}

#[test]
fn speed_within_band_averages() {
    // median 400, band [50, 3200): 300, 400, 500, 400 kept, 4000 dropped
    let s: Vec<u64> = vec![300, 400, 500, 4000, 400];
    assert_eq!(median_of(&s), 400);
    assert_eq!(speed_of(&s), 2500);
}

#[test]
fn median_of_small_windows() {
    assert_eq!(median_of(&vec![5, 1, 9, 3]), 5);
    assert_eq!(median_of(&vec![2, 2, 2]), 2);
    assert_eq!(median_of(&vec![7]), 7);
    assert_eq!(median_of(&Vec::new()), 0);
}

#[test]
fn zero_samples_give_unbounded_bandwidth_and_no_speed() {
    let s: Vec<u64> = vec![0, 0, 0, 0];
    assert_eq!(speed_of(&s), 0);
    assert_eq!(bandwidth_of(&s), u64::MAX);
}

#[test]
fn probe_pairs_drive_bandwidth() {
    let mut w = PacketTimeWindow::<16, 16>::new();
    for i in 0..16u64 {
        w.probe1_arrival_at(i * 10_000);
        w.probe2_arrival_at(i * 10_000 + 250);
    }
    assert_eq!(w.get_bandwidth(), 4000);
}

#[test]
fn bandwidth_counts_median_twice() {
    // median 100, band [12, 800): 100, 100, 200 kept plus the median: 500 / 4
    let s: Vec<u64> = vec![100, 5000, 100, 200, 1];
    assert_eq!(bandwidth_of(&s), 8000);
}

#[test]
fn bandwidth_ignores_outliers() {
    let s: Vec<u64> = vec![500, 500, 500, 1, 100_000];
    assert_eq!(bandwidth_of(&s), 2000);
}

#[test]
fn sending_interval_tracks_nonzero_minimum() {
    let mut w = PacketTimeWindow::<4, 4>::new();
    assert_eq!(w.min_packet_sending_interval(), NO_INTERVAL);
    w.on_packet_sent(10);
    assert_eq!(w.min_packet_sending_interval(), 10);
    w.on_packet_sent(15);
    assert_eq!(w.min_packet_sending_interval(), 5);
    w.on_packet_sent(15);
    assert_eq!(w.min_packet_sending_interval(), 5);
    w.on_packet_sent(55);
    assert_eq!(w.min_packet_sending_interval(), 5);
    w.on_packet_sent(57);
    assert_eq!(w.min_packet_sending_interval(), 2);
    w.on_packet_sent(3);
    assert_eq!(w.min_packet_sending_interval(), 2);
}

#[test]
fn sends_at_one_instant_leave_no_interval() {
    let mut w = PacketTimeWindow::<4, 4>::new();
    w.on_packet_sent(0);
    w.on_packet_sent(0);
    assert_eq!(w.min_packet_sending_interval(), NO_INTERVAL);
    let _origin = w.origin();
}

#[test]
fn clocked_arrivals_fill_window() {
    let mut w = PacketTimeWindow::<4, 4>::new();
    for _ in 0..4 {
        w.on_packet_arrival();
        w.probe1_arrival();
        w.probe2_arrival();
    }
    let _ = w.get_packet_receive_speed();
    assert!(w.get_bandwidth() > 0);
}

#[test]
fn error_kinds_are_distinct() {
    assert_ne!(ConnectionSetupError::ConnectionTimeOut, ConnectionSetupError::SecurityAbort);
    assert_ne!(ConnectionError::Broken, ConnectionError::NotExist);
}

#[test]
fn slow_probes_round_bandwidth_down() {
    let s: Vec<u64> = vec![3_000_000; 16];
    assert_eq!(bandwidth_of(&s), 0);
    let h: Vec<u64> = vec![2_000_000; 16];
    assert_eq!(bandwidth_of(&h), 1);
    let t: Vec<u64> = vec![125_000; 16];
    assert_eq!(bandwidth_of(&t), 8);
}

#[test]
fn default_item_is_blank() {
    assert_eq!(AckWindowItem::default(), AckWindowItem { timestamp: 0, seq_no: 0, data_seq_no: 0 });
}

#[test]
fn uniform_speed_rounds_to_nearest() {
    let mut w = PacketTimeWindow::<16, 16>::new();
    for i in 1..=16u64 {
        w.on_packet_arrival_at(i * 6);
    }
    assert_eq!(w.get_packet_receive_speed(), 166_667);
    let s: Vec<u64> = vec![7; 16];
    assert_eq!(speed_of(&s), 142_857);
    let t: Vec<u64> = vec![3_000_000; 4];
    assert_eq!(speed_of(&t), 0);
}

#[test]
fn uniform_bandwidth_rounds_to_nearest() {
    let mut w = PacketTimeWindow::<16, 16>::new();
    for i in 0..16u64 {
        w.probe1_arrival_at(i * 100);
        w.probe2_arrival_at(i * 100 + 6);
    }
    assert_eq!(w.get_bandwidth(), 166_667);
}
