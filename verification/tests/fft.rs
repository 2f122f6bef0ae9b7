use audio_radar::dsp::fft::{bit_reverse_permute, bit_reverse_table, is_fft_size};

#[test]
fn reversal_table_of_eight() {
    assert_eq!(bit_reverse_table(8), vec![0, 4, 2, 6, 1, 5, 3, 7]);
    assert_eq!(bit_reverse_table(2), vec![0, 1]);
}

#[test]
fn reversal_table_is_an_involution() {
    let n = 1024;
    let t = bit_reverse_table(n);
    for i in 0..n {
        assert_eq!(t[t[i]], i);
    }
    assert_eq!(t[1], 512);
    assert_eq!(t[3], 768);
}

#[test]
fn permute_reorders_and_restores() {
    let t = bit_reverse_table(16);
    let src: Vec<f32> = (0..16).map(|i| i as f32 * 0.5).collect();
    let mut data = src.clone();
    bit_reverse_permute(&mut data, &t);
    for i in 0..16 {
        assert_eq!(data[i], src[t[i]]);
    }
    bit_reverse_permute(&mut data, &t);
    assert_eq!(data, src);
}

#[test]
fn fft_sizes_are_powers_of_two_from_two() {
    for n in [0usize, 1, 3, 6, 12, 1000, 1025, usize::MAX] {
        assert!(!is_fft_size(n), "{} accepted", n);
    }
    for n in [2usize, 4, 256, 1024, 1 << 20, 1 << (usize::BITS - 1)] {
        assert!(is_fft_size(n), "{} refused", n);
    }
    for n in 0..5000usize {
        assert_eq!(is_fft_size(n), n.is_power_of_two() && n >= 2);
    }
}
