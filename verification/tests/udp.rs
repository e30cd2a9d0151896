//! Cutting batches into datagrams.

use atp_experiment::udp::{cuts, max_segments, received_segment, MAX_GSO_BYTES, MAX_GSO_SEGMENTS};

#[test]
fn batches_hold_what_the_kernel_takes() {
    assert_eq!(max_segments(1244), 52);
    assert_eq!(max_segments(1220), 53);
    assert_eq!(max_segments(100), 64);
    assert_eq!(max_segments(65000), 1);
    assert_eq!(max_segments(65001), 1);
    assert_eq!(max_segments(1), 64);
    for seg in [1usize, 100, 1015, 1016, 1244, 32500, 32501, 65000] {
        assert!(max_segments(seg) * seg <= MAX_GSO_BYTES);
    }
}

#[test]
fn even_batches_are_cut_evenly() {
    let r = cuts(20 * 1000, 1000, MAX_GSO_SEGMENTS);
    assert_eq!(r.len(), 20);
    for (i, (from, to)) in r.iter().enumerate() {
        assert_eq!(*from, i * 1000);
        assert_eq!(*to, (i + 1) * 1000);
    }
}

#[test]
fn a_short_tail_is_the_last_datagram() {
    let r = cuts(1200 * 3 + 100, 1200, MAX_GSO_SEGMENTS);
    let lens: Vec<usize> = r.iter().map(|(from, to)| to - from).collect();
    assert_eq!(lens, vec![1200, 1200, 1200, 100]);
    assert_eq!(r[3].1, 3700);
}

#[test]
fn cuts_stop_at_the_limit() {
    assert_eq!(cuts(100, 1, 64).len(), 64);
    assert_eq!(cuts(64, 1, 64).len(), 64);
    assert_eq!(cuts(0, 5, 64).len(), 0);
    assert_eq!(cuts(10, 5, 0).len(), 0);
    assert_eq!(cuts(3, 5, 64), vec![(0, 3)]);
    assert_eq!(cuts(usize::MAX, usize::MAX, 64), vec![(0, usize::MAX)]);
}

#[test]
fn received_buffers_are_cut_as_announced() {
    assert_eq!(received_segment(&[1200], 3700), 1200);
    assert_eq!(received_segment(&[0, -1, 1200, 100], 3700), 1200);
    assert_eq!(received_segment(&[0], 3700), 3700);
    assert_eq!(received_segment(&[-1], 3700), 3700);
    assert_eq!(received_segment(&[], 3700), 3700);
    assert_eq!(received_segment(&[], 0), 1);
}
