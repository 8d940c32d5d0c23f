use lau_signal_processing::timefreq::stft_geometry;

#[test]
fn stft_geometry_dimensions() {
    let g = stft_geometry(1024, 256, 128, 256);
    assert_eq!(g.fft_size, 256);
    assert_eq!(g.freq_bins, 129);
    assert_eq!(g.time_frames, 7);
}

#[test]
fn stft_geometry_rounds_transform_up() {
    let g = stft_geometry(512, 100, 50, 64);
    assert_eq!(g.fft_size, 128);
    assert_eq!(g.freq_bins, 65);
    assert_eq!(g.time_frames, 9);
}

#[test]
fn stft_frames_fit_signal() {
    for (len, win, hop) in [(512usize, 128usize, 64usize), (1000, 256, 100), (10, 10, 3), (7, 0, 2)] {
        let g = stft_geometry(len, win, hop, 1);
        assert!((g.time_frames - 1) * hop + win <= len);
        assert!(g.time_frames * hop + win > len);
    }
}
