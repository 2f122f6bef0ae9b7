//! The onset scenarios of the radar, run on the library's onset state with
//! the spectral flux and the median threshold computed here.

use audio_radar::dsp::onset::OnsetState;

struct FluxDetector {
    prev_mag: Vec<f32>,
    state: OnsetState<f32>,
}

impl FluxDetector {
    fn new(bins: usize, lo: usize, hi: usize, history: usize, refractory: usize) -> Self {
        FluxDetector {
            prev_mag: vec![0.0; bins],
            state: OnsetState::new(bins, lo, hi, history, refractory),
        }
    }

    fn push(&mut self, mag: &[f32]) -> bool {
        let (lo, hi) = self.state.band();
        let mut flux = 0.0;
        for k in lo..hi {
            let d = mag[k] - self.prev_mag[k];
            if d > 0.0 {
                flux += d;
            }
        }
        self.prev_mag[..hi].copy_from_slice(&mag[..hi]);
        let mut past = self.state.recorded();
        let median = if past.is_empty() {
            0.0
        } else {
            past.sort_by(|a, b| a.partial_cmp(b).unwrap());
            past[past.len() / 2]
        };
        let threshold = median * 1.8 + 1e-4;
        self.state.push(flux, flux > threshold)
    }
}

fn flat(level: f32, bins: usize) -> Vec<f32> {
    vec![level; bins]
}

#[test]
fn fires_on_a_burst_and_stays_quiet_on_steady_level() {
    let bins = 128;
    let mut det = FluxDetector::new(bins, 4, 100, 64, 4);

    let mut steady_hits = 0;
    for _ in 0..60 {
        if det.push(&flat(0.01, bins)) {
            steady_hits += 1;
        }
    }
    assert_eq!(steady_hits, 0, "a steady level is no attack");

    assert!(det.push(&flat(0.5, bins)), "the jump in level was missed");
}

#[test]
fn refractory_suppresses_immediate_repeat() {
    let bins = 64;
    let mut det = FluxDetector::new(bins, 2, 60, 32, 5);
    for _ in 0..40 {
        det.push(&flat(0.01, bins));
    }
    assert!(det.push(&flat(0.5, bins)));
    for step in 0..5 {
        assert!(!det.push(&flat(1.0, bins)), "fired inside the pause, step {}", step);
    }
}

#[test]
fn decay_is_not_an_onset() {
    let bins = 64;
    let mut det = FluxDetector::new(bins, 2, 60, 32, 0);
    for _ in 0..40 {
        det.push(&flat(0.5, bins));
    }
    assert!(!det.push(&flat(0.01, bins)), "a decay is no attack");
}
