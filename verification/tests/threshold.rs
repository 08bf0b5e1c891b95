use imageproc::{
    apply_cutoff, average_threshold, mean_cutoff, median_cutoff, median_threshold, threshold,
    GrayImage, ThresholdError, ThresholdMode,
};

fn image(width: u32, height: u32, samples: &[u8]) -> GrayImage {
    GrayImage::from_samples(width, height, &samples.to_vec()).expect("sample count matches")
}

#[test]
fn mean_and_median_of_ten_to_fifty_are_thirty() {
    let samples = vec![10, 20, 30, 40, 50];
    assert_eq!(mean_cutoff(&samples), 30);
    assert_eq!(median_cutoff(samples), 30);
}

#[test]
fn both_thresholds_of_ten_to_fifty() {
    let img = image(5, 1, &[10, 20, 30, 40, 50]);
    assert_eq!(average_threshold(&img).to_samples(), vec![0, 0, 0, 255, 255]);
    assert_eq!(median_threshold(&img).to_samples(), vec![0, 0, 0, 255, 255]);
}

#[test]
fn mean_is_rounded_towards_zero() {
    assert_eq!(mean_cutoff(&vec![0, 1]), 0);
    assert_eq!(mean_cutoff(&vec![255, 255, 254]), 254);
    assert_eq!(mean_cutoff(&vec![1, 2, 2]), 1);
    assert_eq!(mean_cutoff(&vec![7]), 7);
}

#[test]
fn mean_of_many_bright_samples_does_not_overflow() {
    assert_eq!(mean_cutoff(&vec![255; 100_000]), 255);
}

#[test]
fn median_sorts_before_it_picks() {
    assert_eq!(median_cutoff(vec![9, 1, 5]), 5);
    assert_eq!(median_cutoff(vec![50, 40, 30, 20, 10]), 30);
}

#[test]
fn median_of_an_even_count_is_the_upper_middle() {
    assert_eq!(median_cutoff(vec![1, 2, 3, 4]), 3);
    assert_eq!(median_cutoff(vec![4, 1, 3, 2]), 3);
    assert_eq!(median_cutoff(vec![8, 2]), 8);
}

#[test]
fn median_of_one_sample_is_that_sample() {
    assert_eq!(median_cutoff(vec![42]), 42);
}

#[test]
fn median_with_repeated_samples() {
    assert_eq!(median_cutoff(vec![3, 3, 3, 1, 1]), 3);
    assert_eq!(median_cutoff(vec![0, 255, 0, 255, 0]), 0);
}

#[test]
fn a_sample_equal_to_the_cutoff_becomes_black() {
    let img = image(3, 1, &[99, 100, 101]);
    assert_eq!(apply_cutoff(&img, 100).to_samples(), vec![0, 0, 255]);
}

#[test]
fn cutoff_at_the_ends_of_the_range() {
    let img = image(3, 1, &[0, 1, 255]);
    assert_eq!(apply_cutoff(&img, 0).to_samples(), vec![0, 255, 255]);
    assert_eq!(apply_cutoff(&img, 255).to_samples(), vec![0, 0, 0]);
}

#[test]
fn thresholds_give_only_black_and_white() {
    let img = image(4, 2, &[3, 250, 17, 99, 180, 181, 0, 255]);
    for out in [average_threshold(&img), median_threshold(&img)] {
        assert!(out.to_samples().iter().all(|s| *s == 0 || *s == 255));
        assert_eq!((out.width(), out.height()), (4, 2));
    }
}

#[test]
fn average_threshold_on_a_grid() {
    // The mean of 1..=9 is 5.
    let img = image(3, 3, &[9, 8, 7, 6, 5, 4, 3, 2, 1]);
    assert_eq!(
        average_threshold(&img).to_samples(),
        vec![255, 255, 255, 255, 0, 0, 0, 0, 0]
    );
}

#[test]
fn median_threshold_on_a_grid_with_an_outlier() {
    // Sorted: 1, 2, 3, 200; the upper middle is 3, while the mean is 51.
    let img = image(2, 2, &[200, 1, 3, 2]);
    assert_eq!(median_threshold(&img).to_samples(), vec![255, 0, 0, 0]);
    assert_eq!(average_threshold(&img).to_samples(), vec![255, 0, 0, 0]);
    let skewed = image(2, 2, &[200, 60, 3, 2]);
    assert_eq!(median_threshold(&skewed).to_samples(), vec![255, 0, 0, 0]);
    assert_eq!(average_threshold(&skewed).to_samples(), vec![255, 0, 0, 0]);
    let split = image(3, 1, &[0, 10, 200]);
    assert_eq!(median_threshold(&split).to_samples(), vec![0, 0, 255]);
    assert_eq!(average_threshold(&split).to_samples(), vec![0, 0, 255]);
    let apart = image(3, 1, &[0, 100, 110]);
    assert_eq!(median_threshold(&apart).to_samples(), vec![0, 0, 255]);
    assert_eq!(average_threshold(&apart).to_samples(), vec![0, 255, 255]);
}

#[test]
fn thresholds_leave_their_input_alone() {
    let samples = vec![5, 1, 4, 2, 3, 9];
    let img = image(3, 2, &samples);
    let _ = median_threshold(&img);
    let _ = average_threshold(&img);
    assert_eq!(img.to_samples(), samples);
}

#[test]
fn threshold_without_a_mode_hands_the_image_back() {
    let samples = vec![5, 1, 4, 2, 3, 9];
    let out = threshold(image(3, 2, &samples), None).expect("nothing to fail");
    assert_eq!(out.to_samples(), samples);
    assert_eq!((out.width(), out.height()), (3, 2));
}

#[test]
fn threshold_without_a_mode_accepts_an_empty_image() {
    let out = threshold(image(0, 0, &[]), None).expect("nothing to fail");
    assert_eq!((out.width(), out.height()), (0, 0));
}

#[test]
fn threshold_by_mode() {
    let samples = [0, 100, 110];
    let by_mean = threshold(image(3, 1, &samples), Some(ThresholdMode::Mean)).expect("not empty");
    assert_eq!(by_mean.to_samples(), vec![0, 255, 255]);
    let by_median =
        threshold(image(3, 1, &samples), Some(ThresholdMode::Median)).expect("not empty");
    assert_eq!(by_median.to_samples(), vec![0, 0, 255]);
}

#[test]
fn threshold_rejects_an_empty_image() {
    for (width, height) in [(0, 0), (0, 3), (3, 0)] {
        for mode in [ThresholdMode::Mean, ThresholdMode::Median] {
            let result = threshold(image(width, height, &[]), Some(mode));
            assert!(matches!(result, Err(ThresholdError::EmptyImage)));
        }
    }
}
