use lau_signal_processing::resampling::{downsample, upsample};

#[test]
fn downsample_length() {
    let signal = vec![1.0; 100];
    assert_eq!(downsample(&signal, 5).len(), 20);
    assert_eq!(downsample(&vec![1.0; 101], 5).len(), 21);
}

#[test]
fn downsample_picks_every_kth() {
    let signal: Vec<i32> = (0..10).collect();
    assert_eq!(downsample(&signal, 3), vec![0, 3, 6, 9]);
    assert_eq!(downsample(&signal, 1), signal);
    assert_eq!(downsample(&signal, 20), vec![0]);
    let empty: [i32; 0] = [];
    assert!(downsample(&empty, 2).is_empty());
}

#[test]
fn upsample_inserts_zeros() {
    assert_eq!(upsample(&[1.0, 2.0], 3, 0.0), vec![1.0, 0.0, 0.0, 2.0, 0.0, 0.0]);
    assert_eq!(upsample(&[1.0, 2.0, 3.0, 4.0], 3, 0.0).len(), 12);
    assert_eq!(upsample(&[1.0, 2.0, 3.0, 4.0], 2, 0.0).len(), 8);
    assert_eq!(upsample(&[5, 6], 1, 0), vec![5, 6]);
}

#[test]
fn downsample_undoes_upsample() {
    let signal: Vec<f64> = (0..37).map(|i| i as f64 * 0.5 - 3.0).collect();
    for factor in 1..6 {
        assert_eq!(downsample(&upsample(&signal, factor, 0.0), factor), signal);
    }
}
