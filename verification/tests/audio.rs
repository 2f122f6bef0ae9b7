use audio_radar::audio::{resync_backlog, CaptureBatch, StereoRings};
use audio_radar::dsp::ring::SpscRing;

#[test]
fn resync_clears_rings_that_drifted() {
    let mut l = SpscRing::<f32>::new(64);
    let mut r = SpscRing::<f32>::new(64);
    l.push(&[1.0; 10]);
    r.push(&[1.0; 7]);
    let done = resync_backlog(&mut l, &mut r, 4, 32);
    assert!(done.cleared);
    assert_eq!(done.dropped, 0);
    assert_eq!(l.available(), 0);
    assert_eq!(r.available(), 0);
}

#[test]
fn resync_cuts_a_backlog_down_to_one_window() {
    let mut l = SpscRing::<u32>::new(64);
    let mut r = SpscRing::<u32>::new(64);
    let data: Vec<u32> = (0..40).collect();
    l.push(&data);
    r.push(&data);
    let done = resync_backlog(&mut l, &mut r, 8, 32);
    assert!(!done.cleared);
    assert_eq!(done.dropped, 32);
    assert_eq!(l.available(), 8);
    let mut out = vec![0u32; 8];
    assert!(r.peek(&mut out));
    assert_eq!(out, (32..40).collect::<Vec<u32>>());
}

#[test]
fn resync_leaves_a_small_backlog() {
    let mut l = SpscRing::<u32>::new(64);
    let mut r = SpscRing::<u32>::new(64);
    l.push(&[1, 2, 3]);
    r.push(&[4, 5, 6]);
    let done = resync_backlog(&mut l, &mut r, 2, 8);
    assert!(!done.cleared);
    assert_eq!(done.dropped, 0);
    assert_eq!(l.available(), 3);
}

#[test]
fn batch_hands_over_whole_batches() {
    let mut rings = StereoRings::<i32>::new(16);
    let mut batch = CaptureBatch::<i32>::new(4);
    for i in 0..3 {
        batch.accept(i, -i, &mut rings);
    }
    assert_eq!(rings.available(), 0);
    batch.accept(3, -3, &mut rings);
    assert_eq!(rings.available(), 4);
    let mut out_l = vec![0; 4];
    let mut out_r = vec![0; 4];
    assert!(rings.peek(&mut out_l, &mut out_r));
    assert_eq!(out_l, vec![0, 1, 2, 3]);
    assert_eq!(out_r, vec![0, -1, -2, -3]);
    assert_eq!(batch.dropped(), 0);
}

#[test]
fn batch_counts_what_a_full_ring_refuses() {
    let mut rings = StereoRings::<i32>::new(4);
    let mut batch = CaptureBatch::<i32>::new(3);
    for i in 0..6 {
        batch.accept(i, i, &mut rings);
    }
    // The first batch fits whole, the second only one sample.
    assert_eq!(rings.available(), 4);
    assert_eq!(batch.dropped(), 2);
}

#[test]
fn batch_flush_hands_over_the_rest() {
    let mut rings = StereoRings::<i32>::new(8);
    let mut batch = CaptureBatch::<i32>::new(4);
    batch.accept(1, 10, &mut rings);
    batch.accept(2, 20, &mut rings);
    batch.flush(&mut rings);
    let mut out_l = vec![0; 2];
    let mut out_r = vec![0; 2];
    assert!(rings.peek(&mut out_l, &mut out_r));
    assert_eq!(out_r, vec![10, 20]);
    batch.flush(&mut rings);
    assert_eq!(rings.available(), 2);
}

#[test]
fn stereo_rings_stay_in_step() {
    let mut rings = StereoRings::<u32>::new(64);
    let l: Vec<u32> = (0..50).collect();
    let r: Vec<u32> = (100..150).collect();
    assert_eq!(rings.push(&l, &r), 50);
    assert_eq!(rings.push(&l, &r), 14);
    let done = rings.resync(8, 32);
    assert!(!done.cleared);
    assert_eq!(done.dropped, 56);
    assert_eq!(rings.available(), 8);
    let mut out_l = vec![0u32; 8];
    let mut out_r = vec![0u32; 8];
    assert!(rings.peek(&mut out_l, &mut out_r));
    assert_eq!(out_l, (6..14).collect::<Vec<u32>>());
    assert_eq!(out_r, (106..114).collect::<Vec<u32>>());
    rings.consume(5);
    assert_eq!(rings.available(), 3);
}

#[test]
fn stereo_peek_needs_both_channels() {
    let mut rings = StereoRings::<u32>::new(16);
    rings.push(&[1, 2, 3], &[4, 5, 6]);
    let mut out_l = vec![0u32; 2];
    let mut out_r = vec![9u32; 4];
    assert!(!rings.peek(&mut out_l, &mut out_r));
    assert_eq!(out_l, vec![1, 2]);
    assert_eq!(out_r, vec![9, 9, 9, 9]);
}
