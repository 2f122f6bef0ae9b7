use audio_radar::dsp::ring::SpscRing;

#[test]
fn capacity_rounds_up_to_power_of_two() {
    assert_eq!(SpscRing::<f32>::new(1000).capacity(), 1024);
    assert_eq!(SpscRing::<f32>::new(1024).capacity(), 1024);
    assert_eq!(SpscRing::<f32>::new(1).capacity(), 2);
}

#[test]
fn peek_does_not_consume() {
    let mut ring = SpscRing::<f32>::new(1024);
    let data: Vec<f32> = (0..300).map(|i| i as f32).collect();
    assert_eq!(ring.push(&data), 300);

    let mut out = vec![0.0; 100];
    assert!(ring.peek(&mut out));
    assert_eq!(out[0], 0.0);
    assert_eq!(out[99], 99.0);
    assert_eq!(ring.available(), 300, "peek must not move the tail");

    ring.consume(50);
    assert!(ring.peek(&mut out));
    assert_eq!(out[0], 50.0);
    assert_eq!(ring.available(), 250);
}

#[test]
fn peek_fails_when_short() {
    let mut ring = SpscRing::<f32>::new(1024);
    ring.push(&[1.0, 2.0, 3.0]);
    let mut out = vec![0.0; 10];
    assert!(!ring.peek(&mut out));
}

#[test]
fn overflow_drops_excess_instead_of_blocking() {
    let mut ring = SpscRing::<f32>::new(64);
    let data = vec![1.0f32; 100];
    assert_eq!(ring.push(&data), 64);
    assert_eq!(ring.push(&data), 0);
    assert_eq!(ring.available(), 64);
}

#[test]
fn survives_wraparound() {
    let mut ring = SpscRing::<f32>::new(64);
    for round in 0..10u32 {
        let data: Vec<f32> = (0..40).map(|i| (round * 100 + i) as f32).collect();
        assert_eq!(ring.push(&data), 40);
        let mut out = vec![0.0; 40];
        assert!(ring.peek(&mut out));
        assert_eq!(out[0], (round * 100) as f32);
        assert_eq!(out[39], (round * 100 + 39) as f32);
        ring.consume(40);
    }
}

#[test]
fn clear_drops_everything() {
    let mut ring = SpscRing::<f32>::new(64);
    ring.push(&vec![1.0f32; 30]);
    ring.clear();
    assert_eq!(ring.available(), 0);
}

#[test]
fn zero_capacity_still_gets_two_slots() {
    assert_eq!(SpscRing::<u8>::new(0).capacity(), 2);
    assert_eq!(SpscRing::<u8>::new(3).capacity(), 4);
    assert_eq!(SpscRing::<u8>::new(5).capacity(), 8);
}

#[test]
fn failed_peek_leaves_output_untouched() {
    let mut ring = SpscRing::<i32>::new(8);
    ring.push(&[7, 8]);
    let mut out = vec![-1; 3];
    assert!(!ring.peek(&mut out));
    assert_eq!(out, vec![-1, -1, -1]);
    let mut two = vec![0; 2];
    assert!(ring.peek(&mut two));
    assert_eq!(two, vec![7, 8]);
}

#[test]
fn partial_push_keeps_the_leading_samples() {
    let mut ring = SpscRing::<i32>::new(4);
    assert_eq!(ring.push(&[1, 2, 3]), 3);
    assert_eq!(ring.push(&[4, 5, 6]), 1);
    let mut out = vec![0; 4];
    assert!(ring.peek(&mut out));
    assert_eq!(out, vec![1, 2, 3, 4]);
}

#[test]
fn consume_more_than_held_empties() {
    let mut ring = SpscRing::<i32>::new(8);
    ring.push(&[1, 2, 3]);
    ring.consume(100);
    assert_eq!(ring.available(), 0);
    assert_eq!(ring.push(&[9]), 1);
    let mut out = vec![0; 1];
    assert!(ring.peek(&mut out));
    assert_eq!(out, vec![9]);
}

#[test]
fn fifo_order_across_many_wraps() {
    let mut ring = SpscRing::<u32>::new(8);
    let mut next_in = 0u32;
    let mut next_out = 0u32;
    for step in 0..500u32 {
        let burst: Vec<u32> = (0..(step % 7)).map(|i| next_in + i).collect();
        let took = ring.push(&burst);
        next_in += took as u32;
        let want = (step % 5) as usize;
        let mut out = vec![0u32; want];
        if ring.peek(&mut out) {
            for (k, v) in out.iter().enumerate() {
                assert_eq!(*v, next_out + k as u32);
            }
            ring.consume(want);
            next_out += want as u32;
        }
        assert!(ring.available() <= ring.capacity());
    }
}
