//! Frame layout of the short-time Fourier transform.

use vstd::prelude::*;
use crate::convolution::{is_power_of_two, next_power_of_two};

verus! {

/// Shape of a short-time Fourier transform: the transform length, the number
/// of non-negative frequency bins it yields, and the number of frames.
pub struct StftGeometry {
    pub fft_size: usize,
    pub freq_bins: usize,
    pub time_frames: usize,
}

/// Lays out the frames of a short-time Fourier transform of a signal of
/// `signal_len` samples: frames of `window_size` samples start every
/// `hop_size` samples for as long as a whole frame fits, and each is
/// transformed at the smallest power of two that is at least both `fft_size`
/// and `window_size`, which yields `fft_size / 2 + 1` non-negative frequency
/// bins.
pub fn stft_geometry(signal_len: usize, window_size: usize, hop_size: usize, fft_size: usize) -> (g: StftGeometry)
    requires
        window_size <= signal_len,
        hop_size >= 1,
        (signal_len - window_size) / (hop_size as int) < usize::MAX,
        fft_size <= usize::MAX / 2 + 1,
        window_size <= usize::MAX / 2 + 1,
    ensures
        is_power_of_two(g.fft_size as nat),
        g.fft_size >= fft_size,
        g.fft_size >= window_size,
        g.fft_size == 1 || g.fft_size / 2 < fft_size || g.fft_size / 2 < window_size,
        g.freq_bins == g.fft_size / 2 + 1,
        g.time_frames == (signal_len - window_size) / hop_size as int + 1,
{
    let wanted = if fft_size > window_size { fft_size } else { window_size };
    let n_fft = next_power_of_two(wanted);
    let frames = (signal_len - window_size) / hop_size + 1;
    StftGeometry { fft_size: n_fft, freq_bins: n_fft / 2 + 1, time_frames: frames }
}

/// Every frame of the layout lies inside the signal, and one frame more would
/// not: the frames are exactly those that fit.
pub proof fn lemma_stft_frames_fit(signal_len: nat, window_size: nat, hop_size: nat)
    requires
        window_size <= signal_len,
        hop_size >= 1,
    ensures
        ({
            let frames = (signal_len - window_size) / hop_size as int + 1;
            &&& frames >= 1
            &&& (frames - 1) * hop_size + window_size <= signal_len
            &&& frames * hop_size + window_size > signal_len
        }),
{
    let d = signal_len - window_size;
    let q = d / hop_size as int;
    vstd::arithmetic::div_mod::lemma_fundamental_div_mod(d, hop_size as int);
    assert(q * hop_size <= d < (q + 1) * hop_size) by (nonlinear_arith)
        requires
            d == hop_size * q + d % (hop_size as int),
            0 <= d % (hop_size as int) < hop_size;
}

} // verus!
