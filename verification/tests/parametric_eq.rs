use octave::parametric_eq::calibration_frequencies;
use octave::parametric_eq::FilterType;
use octave::parametric_eq::ParametricEq;

/// A second-order section in transposed direct form II.
#[derive(Clone, Copy, Debug, PartialEq)]
struct Section {
    b0: f32,
    b1: f32,
    b2: f32,
    a1: f32,
    a2: f32,
    z1: f32,
    z2: f32,
}

fn section(b0: f32, b1: f32, b2: f32, a1: f32, a2: f32) -> Section {
    Section { b0, b1, b2, a1, a2, z1: 0.0, z2: 0.0 }
}

fn step(mut s: Section, sample: f32) -> (Section, f32) {
    let out = s.b0 * sample + s.z1;
    s.z1 = s.b1 * sample + s.z2 - s.a1 * out;
    s.z2 = s.b2 * sample - s.a2 * out;
    (s, out)
}

fn rest(mut s: Section) -> Section {
    s.z1 = 0.0;
    s.z2 = 0.0;
    s
}

fn low_pass() -> Section {
    section(0.2, 0.4, 0.2, -0.5, 0.3)
}

fn high_pass() -> Section {
    section(0.6, -1.2, 0.6, -0.3, 0.1)
}

#[test]
fn filter_type_from_lowercase_name() {
    assert_eq!(FilterType::from_string("peak".to_string()), FilterType::PEAK);
    assert_eq!(FilterType::from_string("lpf".to_string()), FilterType::LPF);
    assert_eq!(FilterType::from_string("hpf".to_string()), FilterType::HPF);
    assert_eq!(FilterType::from_string("notch".to_string()), FilterType::NOTCH);
    assert_eq!(FilterType::from_string("low shelf".to_string()), FilterType::LOWSHELF);
    assert_eq!(FilterType::from_string("high shelf".to_string()), FilterType::HIGHSHELF);
}

#[test]
fn filter_type_name_ignores_case() {
    assert_eq!(FilterType::from_string("LPF".to_string()), FilterType::LPF);
    assert_eq!(FilterType::from_string("Notch".to_string()), FilterType::NOTCH);
    assert_eq!(FilterType::from_string("High Shelf".to_string()), FilterType::HIGHSHELF);
}

#[test]
fn filter_type_name_ignores_surrounding_blanks() {
    assert_eq!(FilterType::from_string("  hpf ".to_string()), FilterType::HPF);
    assert_eq!(FilterType::from_string("\tLow Shelf\n".to_string()), FilterType::LOWSHELF);
}

#[test]
fn unknown_filter_type_name_is_a_peak() {
    assert_eq!(FilterType::from_string("bandpass".to_string()), FilterType::PEAK);
    assert_eq!(FilterType::from_string("".to_string()), FilterType::PEAK);
    assert_eq!(FilterType::from_string("lowshelf".to_string()), FilterType::PEAK);
    assert_eq!(FilterType::from_string("low  shelf".to_string()), FilterType::PEAK);
}

#[test]
fn filter_type_from_name_takes_name_as_it_stands() {
    assert_eq!(FilterType::from_name("notch"), FilterType::NOTCH);
    assert_eq!(FilterType::from_name("high shelf"), FilterType::HIGHSHELF);
    assert_eq!(FilterType::from_name("NOTCH"), FilterType::PEAK);
    assert_eq!(FilterType::from_name(" notch"), FilterType::PEAK);
}

#[test]
fn calibration_grid_at_48_khz() {
    let grid = calibration_frequencies(48000);
    assert_eq!(grid.len(), 1000);
    assert_eq!(&grid[..3], &[0, 24, 48]);
    assert_eq!(grid[999], 23976);
}

#[test]
fn calibration_grid_at_44_1_khz() {
    let grid = calibration_frequencies(44100);
    assert_eq!(grid.len(), 1003);
    assert_eq!(grid[1], 22);
    assert_eq!(grid[1002], 22044);
}

#[test]
fn calibration_grid_with_a_step_of_one() {
    let grid = calibration_frequencies(2000);
    assert_eq!(grid, (0..1000).collect::<Vec<u32>>());
    let grid = calibration_frequencies(3999);
    assert_eq!(grid, (0..1999).collect::<Vec<u32>>());
}

#[test]
fn calibration_grid_at_low_rates() {
    assert_eq!(calibration_frequencies(1000), (0..500).collect::<Vec<u32>>());
    assert_eq!(calibration_frequencies(8), vec![0, 1, 2, 3]);
    assert_eq!(calibration_frequencies(3), vec![0]);
    assert_eq!(calibration_frequencies(2), vec![0]);
}

#[test]
fn calibration_grid_without_a_range() {
    assert!(calibration_frequencies(1).is_empty());
    assert!(calibration_frequencies(0).is_empty());
}

#[test]
fn calibration_grid_stays_below_half_the_sample_rate() {
    for rate in [2u32, 5, 999, 1999, 2000, 2001, 3999, 4000, 8000, 22050, 96000, 192000, u32::MAX] {
        let grid = calibration_frequencies(rate);
        let step = (rate / 2 / 1000).max(1);
        for (i, &f) in grid.iter().enumerate() {
            assert_eq!(f, i as u32 * step);
            assert!(f < rate / 2);
        }
        assert!(*grid.last().unwrap() as u64 + step as u64 >= (rate / 2) as u64);
    }
}

#[test]
fn equaliser_keeps_its_sample_rate() {
    let mut eq: ParametricEq<Section> = ParametricEq::new(vec![low_pass()], 44100);
    assert_eq!(eq.sample_rate(), 44100);
    eq.reset();
    assert_eq!(eq.sample_rate(), 44100);
}

#[test]
fn equaliser_without_sections_passes_signal_unchanged() {
    let mut eq: ParametricEq<Section> = ParametricEq::new(vec![], 48000);
    let mut samples = [0.5f32, -0.25, 0.125];
    eq.process(&mut samples, step);
    assert_eq!(samples, [0.5, -0.25, 0.125]);
}

#[test]
fn reset_removes_all_sections() {
    let mut eq = ParametricEq::new(vec![low_pass(), high_pass()], 48000);
    eq.reset();
    let mut samples = [1.0f32, 2.0, 3.0];
    eq.process(&mut samples, step);
    assert_eq!(samples, [1.0, 2.0, 3.0]);
}

#[test]
fn one_section_follows_the_difference_equation() {
    let mut eq = ParametricEq::new(vec![section(0.5, 0.25, 0.125, -0.5, 0.25)], 48000);
    let mut samples = [1.0f32, 0.0, 0.0, 0.0];
    eq.process(&mut samples, step);
    // y[n] = 0.5 x[n] + 0.25 x[n-1] + 0.125 x[n-2] + 0.5 y[n-1] - 0.25 y[n-2]
    assert_eq!(samples, [0.5, 0.5, 0.25, 0.0]);
}

#[test]
fn sections_are_passed_in_their_order() {
    // A section is a pair of a factor and an offset here.
    let apply = |s: (i32, i32), x: i32| (s, s.0 * x + s.1);
    let mut samples = [1, 2, 3];
    ParametricEq::new(vec![(1, 1), (2, 0)], 48000).process(&mut samples, apply);
    assert_eq!(samples, [4, 6, 8]);
    let mut samples = [1, 2, 3];
    ParametricEq::new(vec![(2, 0), (1, 1)], 48000).process(&mut samples, apply);
    assert_eq!(samples, [3, 5, 7]);
}

#[test]
fn sections_remember_the_signal_between_calls() {
    let mut whole = ParametricEq::new(vec![low_pass(), high_pass()], 48000);
    let mut parts = ParametricEq::new(vec![low_pass(), high_pass()], 48000);
    let signal: Vec<f32> = (0..32).map(|t| ((t * 7 % 11) as f32 - 5.0) / 5.0).collect();
    let mut at_once = signal.clone();
    whole.process(&mut at_once, step);
    let mut in_parts = signal.clone();
    let (first, second) = in_parts.split_at_mut(13);
    parts.process(first, step);
    parts.process(second, step);
    assert_eq!(in_parts, at_once);
}

#[test]
fn silence_after_putting_sections_to_rest() {
    let mut eq = ParametricEq::new(vec![low_pass(), high_pass()], 48000);
    let mut signal: Vec<f32> = (0..64).map(|t| (0.3 * t as f32).sin()).collect();
    eq.process(&mut signal, step);
    assert!(signal.iter().any(|&s| s != 0.0));
    eq.reset_mem(rest);
    let mut silence = vec![0.0f32; 64];
    eq.process(&mut silence, step);
    assert!(silence.iter().all(|&s| s == 0.0));
}

#[test]
fn energy_lingers_without_putting_sections_to_rest() {
    let mut eq = ParametricEq::new(vec![low_pass(), high_pass()], 48000);
    let mut signal: Vec<f32> = (0..64).map(|t| (0.3 * t as f32).sin()).collect();
    eq.process(&mut signal, step);
    let mut silence = vec![0.0f32; 64];
    eq.process(&mut silence, step);
    assert!(silence.iter().any(|&s| s != 0.0));
}

#[test]
fn silence_through_a_new_equaliser() {
    let mut eq = ParametricEq::new(vec![high_pass(), low_pass(), high_pass()], 8000);
    let mut silence = vec![0.0f32; 100];
    eq.process(&mut silence, step);
    assert!(silence.iter().all(|&s| s == 0.0));
}

#[test]
fn added_section_is_designed_for_the_rate_of_the_equaliser() {
    let mut eq: ParametricEq<(FilterType, u32, f32, f32, u32)> = ParametricEq::new(vec![], 44100);
    eq.add_node(FilterType::NOTCH, 1000, -3.0f32, 0.7f32, |t, f, g, q, rate| (t, f, g, q, rate));
    eq.add_node(FilterType::LPF, 80, 0.0f32, 1.0f32, |t, f, g, q, rate| (t, f, g, q, rate));
    // Each section records its design and counts the samples it has seen.
    let mut samples = [0u32; 2];
    let seen = std::cell::RefCell::new(Vec::new());
    eq.process(&mut samples, |s: (FilterType, u32, f32, f32, u32), x: u32| {
        seen.borrow_mut().push(s);
        (s, x + 1)
    });
    assert_eq!(samples, [2, 2]);
    assert_eq!(
        seen.borrow()[..2],
        [(FilterType::NOTCH, 1000, -3.0, 0.7, 44100), (FilterType::LPF, 80, 0.0, 1.0, 44100)]
    );
}
