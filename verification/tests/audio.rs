use octave::audio::do_short_time_fourier_transform;
use octave::audio::map_windows;
use octave::audio::WindowFunction;

#[test]
fn window_function_from_lowercase_name() {
    assert_eq!(WindowFunction::from_str("square"), Some(WindowFunction::Square));
    assert_eq!(WindowFunction::from_str("hann"), Some(WindowFunction::Hann));
    assert_eq!(WindowFunction::from_str("bellcurve"), Some(WindowFunction::Hann));
}

#[test]
fn window_function_name_ignores_case() {
    assert_eq!(WindowFunction::from_str("SQUARE"), Some(WindowFunction::Square));
    assert_eq!(WindowFunction::from_str("Hann"), Some(WindowFunction::Hann));
    assert_eq!(WindowFunction::from_str("BellCurve"), Some(WindowFunction::Hann));
}

#[test]
fn unknown_window_function_name() {
    assert_eq!(WindowFunction::from_str("triangle"), None);
    assert_eq!(WindowFunction::from_str(""), None);
    assert_eq!(WindowFunction::from_str(" hann"), None);
}

#[test]
fn window_function_from_lowercase_takes_name_as_it_stands() {
    assert_eq!(WindowFunction::from_lowercase("hann"), Some(WindowFunction::Hann));
    assert_eq!(WindowFunction::from_lowercase("square"), Some(WindowFunction::Square));
    assert_eq!(WindowFunction::from_lowercase("Hann"), None);
}

#[test]
fn window_function_display_names() {
    assert_eq!(WindowFunction::Square.to_string(), "Square");
    assert_eq!(WindowFunction::Hann.to_string(), "Hann");
}

#[test]
fn window_function_names_round_trip() {
    for window in [WindowFunction::Square, WindowFunction::Hann] {
        assert_eq!(WindowFunction::from_str(&window.to_string()), Some(window));
    }
}

#[test]
fn window_function_from_index() {
    assert_eq!(WindowFunction::from(0usize), WindowFunction::Square);
    assert_eq!(WindowFunction::from(1usize), WindowFunction::Hann);
    assert_eq!(WindowFunction::from(2usize), WindowFunction::Square);
    assert_eq!(WindowFunction::from(usize::MAX), WindowFunction::Square);
}

#[test]
fn windows_that_tile_the_buffer() {
    let samples = [1, 2, 3, 4, 5, 6];
    let windows = map_windows(&samples, 2, 2, |w: &[i32]| w.to_vec());
    assert_eq!(windows, vec![vec![1, 2], vec![3, 4], vec![5, 6]]);
}

#[test]
fn windows_that_overlap() {
    let samples = [1, 2, 3, 4, 5];
    let windows = map_windows(&samples, 3, 1, |w: &[i32]| w.to_vec());
    assert_eq!(windows, vec![vec![1, 2, 3], vec![2, 3, 4], vec![3, 4, 5]]);
}

#[test]
fn windows_leave_out_an_incomplete_tail() {
    let samples = [1, 2, 3, 4, 5, 6, 7];
    let sums = map_windows(&samples, 3, 3, |w: &[i32]| w.iter().sum::<i32>());
    assert_eq!(sums, vec![6, 15]);
}

#[test]
fn window_as_long_as_the_buffer() {
    let samples = [1.0f32, 2.0, 3.0];
    let windows = map_windows(&samples, 3, 5, |w: &[f32]| w.len());
    assert_eq!(windows, vec![3]);
}

#[test]
fn window_longer_than_the_buffer() {
    let samples = [1.0f32, 2.0, 3.0];
    let windows = map_windows(&samples, 4, 1, |w: &[f32]| w.len());
    assert_eq!(windows, Vec::<usize>::new());
}

#[test]
fn windows_of_no_samples() {
    let windows = map_windows(&[0u8; 0], 0, 1, |w: &[u8]| w.len());
    assert_eq!(windows, vec![0]);
}

#[test]
fn short_time_transform_takes_every_whole_window() {
    let samples: Vec<i32> = (0..10).collect();
    let windows = do_short_time_fourier_transform(&samples, 4, 2, |w: &[i32]| w.to_vec());
    assert_eq!(
        windows,
        vec![vec![0, 1, 2, 3], vec![2, 3, 4, 5], vec![4, 5, 6, 7], vec![6, 7, 8, 9]]
    );
}

#[test]
fn short_time_transform_without_overlap() {
    let samples: Vec<i32> = (0..9).collect();
    let windows = do_short_time_fourier_transform(&samples, 4, 0, |w: &[i32]| w[0]);
    assert_eq!(windows, vec![0, 4]);
}

#[test]
fn short_time_transform_of_barely_more_than_a_window() {
    let samples = [0.5f32, 0.25, 0.125];
    let windows = do_short_time_fourier_transform(&samples, 2, 1, |w: &[f32]| w[0] + w[1]);
    assert_eq!(windows, vec![0.75, 0.375]);
}

#[test]
fn short_time_transform_of_exactly_one_window() {
    let samples = [1, 2, 3, 4];
    let windows = do_short_time_fourier_transform(&samples, 4, 3, |w: &[i32]| w.to_vec());
    assert_eq!(windows, vec![vec![1, 2, 3, 4]]);
}

#[test]
fn short_time_transform_of_a_signal_shorter_than_the_window() {
    let samples = [1, 2, 3];
    let windows = do_short_time_fourier_transform(&samples, 4, 1, |w: &[i32]| w.len());
    assert!(windows.is_empty());
    let nothing = do_short_time_fourier_transform(&[0u8; 0], 1, 0, |w: &[u8]| w.len());
    assert!(nothing.is_empty());
}

#[test]
fn short_time_transform_with_windows_of_one_sample() {
    let samples = [7, 8, 9];
    let windows = do_short_time_fourier_transform(&samples, 1, 0, |w: &[i32]| w[0]);
    assert_eq!(windows, vec![7, 8, 9]);
}

#[test]
fn short_time_transform_at_audio_rate() {
    // 50 ms windows with 40 % overlap over one second at 48 kHz.
    let samples = vec![0.0f32; 48000];
    let samples_per_window = 2400;
    let overlap_size = 960;
    let windows =
        do_short_time_fourier_transform(&samples, samples_per_window, overlap_size, |w: &[f32]| {
            w.len()
        });
    assert_eq!(windows.len(), 32);
    assert!(windows.iter().all(|&len| len == 2400));
}
