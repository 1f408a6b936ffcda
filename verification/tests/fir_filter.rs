use octave::fir_filter::FIRFilter;

fn mac(acc: f32, coefficient: f32, sample: f32) -> f32 {
    acc + coefficient * sample
}

#[test]
fn degree_is_number_of_coefficients() {
    let filter = FIRFilter::new(3, vec![0.5f32, 0.25, 0.125]);
    assert_eq!(filter.degree(), 3);
}

#[test]
fn process_meets_newest_sample_with_first_coefficient() {
    let filter = FIRFilter::new(3, vec![1.0f32, 10.0, 100.0]);
    let out = filter.process(&[4.0, 5.0, 6.0], 0.0, mac);
    assert_eq!(out, 6.0 + 50.0 + 400.0);
}

#[test]
fn process_is_sum_of_products() {
    let coefficients = vec![0.5f32, -0.25, 2.0, 4.0];
    let history = [1.0f32, 2.0, 3.0, 4.0];
    let filter = FIRFilter::new(4, coefficients.clone());
    let mut expected = 0.0f32;
    for i in 0..4 {
        expected += coefficients[i] * history[3 - i];
    }
    assert_eq!(filter.process(&history, 0.0, mac), expected);
    assert_eq!(expected, 0.5 * 4.0 - 0.25 * 3.0 + 2.0 * 2.0 + 4.0 * 1.0);
}

#[test]
fn process_starts_from_the_given_zero() {
    let filter = FIRFilter::new(2, vec![1.0f32, 1.0]);
    assert_eq!(filter.process(&[2.0, 3.0], 10.0, mac), 15.0);
}

#[test]
fn filter_of_degree_zero_returns_zero() {
    let filter = FIRFilter::new(0, Vec::<f32>::new());
    assert_eq!(filter.process(&[], 0.0, mac), 0.0);
    assert_eq!(filter.process_slices(&[], &[], 7.0, mac), 7.0);
}

#[test]
fn process_slices_agrees_with_process_for_every_split() {
    let coefficients: Vec<f32> = (0..12).map(|k| 0.1 * (k as f32) - 0.4).collect();
    let history: Vec<f32> = (0..12).map(|k| ((k * k) as f32) * 0.01 - 0.3).collect();
    let filter = FIRFilter::new(12, coefficients);
    let whole = filter.process(&history, 0.0, mac);
    for cut in 0..=12 {
        let (older, newer) = history.split_at(cut);
        assert_eq!(filter.process_slices(older, newer, 0.0, mac), whole);
    }
}

#[test]
fn process_slices_counts_steps_in_order() {
    // The accumulator records the order in which the taps are visited.
    let filter = FIRFilter::new(3, vec![1u32, 2, 3]);
    let visit = |acc: u32, coefficient: u32, sample: u32| acc * 100 + coefficient * 10 + sample;
    let out = filter.process_slices(&[7], &[8, 9], 0, visit);
    assert_eq!(out, 19_28_37);
}

#[test]
fn clone_keeps_coefficients() {
    let filter = FIRFilter::new(2, vec![3.0f32, 4.0]);
    let copy = filter.clone();
    assert_eq!(copy.degree(), 2);
    assert_eq!(copy.process(&[1.0, 2.0], 0.0, mac), filter.process(&[1.0, 2.0], 0.0, mac));
    assert_eq!(copy.process(&[1.0, 2.0], 0.0, mac), 3.0 * 2.0 + 4.0 * 1.0);
}
