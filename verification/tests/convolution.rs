use lau_signal_processing::convolution::{
    bit_reverse, bit_reverse_copy, block_starts, butterfly_pairs, log2_floor, next_power_of_two,
    overlap_fft_size,
};

#[test]
fn bit_reverse_three_bits() {
    assert_eq!(bit_reverse(1, 3), 4);
    assert_eq!(bit_reverse(6, 3), 3);
    assert_eq!(bit_reverse(0b1011, 4), 0b1101);
    assert_eq!(bit_reverse(0, 5), 0);
}

#[test]
fn bit_reverse_ignores_high_digits() {
    assert_eq!(bit_reverse(0b10110, 2), 0b01);
    assert_eq!(bit_reverse(12345, 0), 0);
}

#[test]
fn bit_reverse_is_an_involution() {
    for bits in 0..8usize {
        for x in 0..(1usize << bits) {
            let y = bit_reverse(x, bits);
            assert!(y < (1usize << bits));
            assert_eq!(bit_reverse(y, bits), x);
        }
    }
}

#[test]
fn bit_reverse_wide_word() {
    let top = 1usize << (usize::BITS - 1);
    assert_eq!(bit_reverse(1, usize::BITS as usize), top);
    // One digit past the word: the reversed lowest digit is shifted out.
    assert_eq!(bit_reverse(1, usize::BITS as usize + 1), 0);
    assert_eq!(bit_reverse(2, usize::BITS as usize + 1), top);
}

#[test]
fn log2_floor_values() {
    assert_eq!(log2_floor(0), 0);
    assert_eq!(log2_floor(1), 0);
    assert_eq!(log2_floor(2), 1);
    assert_eq!(log2_floor(3), 1);
    assert_eq!(log2_floor(8), 3);
    assert_eq!(log2_floor(1023), 9);
    assert_eq!(log2_floor(1024), 10);
}

#[test]
fn bit_reverse_copy_power_of_two() {
    let input: Vec<usize> = (0..8).collect();
    assert_eq!(bit_reverse_copy(&input, 99), vec![0, 4, 2, 6, 1, 5, 3, 7]);
    let reals = vec![1.0, 2.0, 3.0, 4.0];
    assert_eq!(bit_reverse_copy(&reals, 0.0), vec![1.0, 3.0, 2.0, 4.0]);
}

#[test]
fn bit_reverse_copy_permutes_entries() {
    let input: Vec<u32> = (0..16).map(|x| x * 10).collect();
    let out = bit_reverse_copy(&input, 0);
    for i in 0..16usize {
        assert_eq!(out[bit_reverse(i, 4)], input[i]);
    }
}

#[test]
fn bit_reverse_copy_other_lengths() {
    assert_eq!(bit_reverse_copy(&[10, 20, 30], 0), vec![30, 20, 0]);
    let empty: [i32; 0] = [];
    assert!(bit_reverse_copy(&empty, 0).is_empty());
    assert_eq!(bit_reverse_copy(&[7], 0), vec![7]);
}

#[test]
fn next_power_of_two_values() {
    assert_eq!(next_power_of_two(0), 1);
    assert_eq!(next_power_of_two(1), 1);
    assert_eq!(next_power_of_two(5), 8);
    assert_eq!(next_power_of_two(16), 16);
    assert_eq!(next_power_of_two(17), 32);
    assert_eq!(next_power_of_two(usize::MAX / 2 + 1), usize::MAX / 2 + 1);
}

#[test]
fn overlap_fft_size_values() {
    assert_eq!(overlap_fft_size(16, 3), 32);
    assert_eq!(overlap_fft_size(16, 0), 16);
    assert_eq!(overlap_fft_size(13, 4), 32);
    assert_eq!(overlap_fft_size(0, 1), 1);
}

#[test]
fn block_starts_values() {
    assert_eq!(block_starts(50, 16), vec![0, 16, 32, 48]);
    assert_eq!(block_starts(48, 16), vec![0, 16, 32]);
    assert!(block_starts(0, 5).is_empty());
    assert_eq!(block_starts(3, 1), vec![0, 1, 2]);
}

#[test]
fn overlap_save_blocks_cover_output() {
    // A 50-sample signal with a 3-tap kernel at a 32-point transform keeps
    // 30 samples per block.
    let fft_size = overlap_fft_size(16, 3);
    let step = fft_size - 2;
    let starts = block_starts(50 + fft_size, step);
    assert!(starts.len() * step >= 50 + 3 - 1);
}

#[test]
fn overlap_add_blocks_tile_without_wrap() {
    let (signal_len, block_size, kernel_len) = (50usize, 16usize, 3usize);
    let fft_size = overlap_fft_size(block_size, kernel_len);
    let starts = block_starts(signal_len, block_size);
    for i in 0..signal_len {
        let owners: Vec<usize> = starts.iter().copied().filter(|&p| p <= i && i < p + block_size).collect();
        assert_eq!(owners, vec![starts[i / block_size]]);
    }
    for &p in &starts {
        let block_len = (signal_len - p).min(block_size);
        assert!(block_len > 0 && block_len + kernel_len - 1 <= fft_size);
    }
}

#[test]
fn butterfly_pairs_of_eight_points() {
    assert_eq!(butterfly_pairs(8, 2), vec![(0, 1, 0), (2, 3, 0), (4, 5, 0), (6, 7, 0)]);
    assert_eq!(butterfly_pairs(8, 4), vec![(0, 2, 0), (1, 3, 1), (4, 6, 0), (5, 7, 1)]);
    assert_eq!(butterfly_pairs(8, 8), vec![(0, 4, 0), (1, 5, 1), (2, 6, 2), (3, 7, 3)]);
    assert!(butterfly_pairs(0, 2).is_empty());
}

#[test]
fn butterflies_touch_each_position_once() {
    for size in [2usize, 4, 8, 16] {
        let pairs = butterfly_pairs(16, size);
        let mut seen = vec![0; 16];
        for (top, bottom, k) in pairs {
            assert!(top < bottom && bottom == top + size / 2 && k < size / 2);
            seen[top] += 1;
            seen[bottom] += 1;
        }
        assert!(seen.iter().all(|&c| c == 1));
    }
}
