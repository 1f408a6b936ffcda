use octave::img_generator::blend_rgb;

#[test]
fn blend_is_mean_of_components() {
    assert_eq!(blend_rgb((0, 100, 200), (100, 200, 100)), (50, 150, 150));
}

#[test]
fn blend_rounds_down() {
    assert_eq!(blend_rgb((1, 2, 3), (2, 3, 4)), (1, 2, 3));
    assert_eq!(blend_rgb((0, 0, 0), (1, 1, 1)), (0, 0, 0));
}

#[test]
fn blend_of_brightest_colours_does_not_overflow() {
    assert_eq!(blend_rgb((255, 255, 255), (255, 255, 255)), (255, 255, 255));
    assert_eq!(blend_rgb((255, 0, 255), (0, 255, 254)), (127, 127, 254));
}

#[test]
fn blend_of_a_colour_with_itself() {
    assert_eq!(blend_rgb((12, 34, 56), (12, 34, 56)), (12, 34, 56));
}
