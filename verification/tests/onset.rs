use audio_radar::dsp::onset::OnsetState;

#[test]
fn onset_state_ignores_warmup_then_fires() {
    // 32 slots of history: warmup is max(32 / 4, 4) = 8 frames.
    let mut st = OnsetState::<f32>::new(64, 2, 60, 32, 5);
    for step in 0..8 {
        assert!(!st.push(1.0, true), "warmup frame {} fired", step);
    }
    assert!(st.push(1.0, true));
}

#[test]
fn onset_state_refractory_suppresses_immediate_repeat() {
    let mut st = OnsetState::<f32>::new(64, 2, 60, 32, 5);
    for _ in 0..40 {
        assert!(!st.push(0.0, false));
    }
    assert!(st.push(1.0, true));
    for step in 0..5 {
        assert!(!st.push(1.0, true), "fired inside the pause, step {}", step);
    }
    assert!(st.push(1.0, true));
}

#[test]
fn onset_state_without_pause_fires_on_every_excess() {
    let mut st = OnsetState::<f32>::new(16, 0, 16, 8, 0);
    for _ in 0..4 {
        st.push(0.0, false);
    }
    assert!(st.push(1.0, true));
    assert!(st.push(1.0, true));
    assert!(!st.push(1.0, false));
}

#[test]
fn onset_state_short_history_is_padded_to_four() {
    let mut st = OnsetState::<u32>::new(10, 1, 20, 2, 3);
    assert_eq!(st.band(), (1, 10));
    assert_eq!(st.recorded(), Vec::<u32>::new());
    st.push(5, false);
    st.push(6, false);
    assert_eq!(st.recorded(), vec![5, 6]);
    st.push(7, false);
    st.push(8, false);
    st.push(9, false);
    // Four slots: the fifth value overwrites the first.
    assert_eq!(st.recorded(), vec![9, 6, 7, 8]);
}

#[test]
fn onset_state_warmup_follows_history_length() {
    // 100 slots: warmup is 25 frames.
    let mut st = OnsetState::<f32>::new(128, 4, 100, 100, 4);
    for _ in 0..25 {
        assert!(!st.push(1.0, true));
    }
    assert!(st.push(1.0, true));
}
