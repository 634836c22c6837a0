use breeze_asr::audio::{
    arrange_spectrogram, fit_length, fit_to_window, frame_count, frames_of, N_FFT, N_MELS, N_SAMPLES,
    TARGET_FRAMES,
};

#[test]
fn fit_length_pads_and_truncates() {
    assert_eq!(fit_length(&[1, 2, 3], 5, 0), vec![1, 2, 3, 0, 0]);
    assert_eq!(fit_length(&[1, 2, 3], 2, 0), vec![1, 2]);
    assert_eq!(fit_length::<i32>(&[], 0, 0), Vec::<i32>::new());
}

#[test]
fn window_has_fixed_length() {
    assert_eq!(fit_to_window::<f32>(&[], 0.0).len(), N_SAMPLES);
    assert_eq!(fit_to_window(&vec![1.0f32; N_SAMPLES + 7], 0.0).len(), N_SAMPLES);
}

#[test]
fn frame_counts() {
    assert_eq!(frame_count(N_SAMPLES), 2998);
    assert_eq!(frame_count(N_FFT), 1);
    assert_eq!(frame_count(N_FFT - 1), 0);
    assert_eq!(frame_count(N_FFT + 160), 2);
}

#[test]
fn frames_overlap_by_hop() {
    let audio: Vec<u32> = (0..720).collect();
    let frames = frames_of(&audio);
    assert_eq!(frames.len(), 3);
    assert_eq!(frames[1][0], 160);
    assert_eq!(frames[2][399], 719);
}

#[test]
fn spectrogram_shape_is_fixed() {
    for n in [0usize, 1, 2998, 3000, 3500] {
        let frames: Vec<Vec<f32>> = (0..n).map(|t| vec![t as f32; N_MELS]).collect();
        let grid = arrange_spectrogram(&frames, 0.0);
        assert_eq!(grid.len(), N_MELS);
        assert!(grid.iter().all(|row| row.len() == TARGET_FRAMES));
        if n > 5 {
            assert_eq!(grid[3][5], 5.0);
        }
        if n < TARGET_FRAMES {
            assert_eq!(grid[0][TARGET_FRAMES - 1], 0.0);
        }
    }
}

#[test]
fn ragged_rows_are_fitted() {
    let frames: Vec<Vec<i32>> = vec![vec![1, 2], vec![], vec![7; N_MELS + 5]];
    let grid = arrange_spectrogram(&frames, -1);
    assert_eq!(grid.len(), N_MELS);
    assert!(grid.iter().all(|row| row.len() == TARGET_FRAMES));
    assert_eq!(grid[1][0], 2);
    assert_eq!(grid[2][0], -1);
    assert_eq!(grid[0][1], -1);
    assert_eq!(grid[N_MELS - 1][2], 7);
    assert_eq!(grid[0][3], -1);
}
