use imageproc::{close, dilate, dilate_sub_erode, erode, open, GrayImage};

const FULL: [[bool; 3]; 3] = [[true; 3]; 3];
const NONE: [[bool; 3]; 3] = [[false; 3]; 3];

fn image(width: u32, height: u32, samples: &[u8]) -> GrayImage {
    GrayImage::from_samples(width, height, &samples.to_vec()).expect("sample count matches")
}

fn complement(img: &GrayImage) -> GrayImage {
    let samples: Vec<u8> = img.to_samples().iter().map(|s| 255 - s).collect();
    image(img.width(), img.height(), &samples)
}

/// A fixed image with a bit of everything: flat parts, spikes and pits.
fn sample_image() -> GrayImage {
    image(
        6,
        5,
        &[
            12, 200, 13, 14, 15, 90, //
            11, 10, 255, 16, 0, 91, //
            40, 41, 42, 43, 44, 92, //
            200, 200, 200, 7, 200, 93, //
            200, 200, 200, 200, 200, 94,
        ],
    )
}

#[test]
fn dilate_of_a_single_pixel_is_the_pixel() {
    for sample in [0u8, 1, 127, 254, 255] {
        let img = image(1, 1, &[sample]);
        assert_eq!(dilate(&img, FULL).to_samples(), vec![sample]);
    }
}

#[test]
fn erode_of_a_single_pixel_is_the_pixel() {
    for sample in [0u8, 1, 127, 254, 255] {
        let img = image(1, 1, &[sample]);
        assert_eq!(erode(&img, FULL).to_samples(), vec![sample]);
    }
}

#[test]
fn dilate_spreads_a_bright_centre_over_its_neighbourhood() {
    let img = image(
        5,
        5,
        &[
            0, 0, 0, 0, 0, //
            0, 0, 0, 0, 0, //
            0, 0, 9, 0, 0, //
            0, 0, 0, 0, 0, //
            0, 0, 0, 0, 0,
        ],
    );
    assert_eq!(
        dilate(&img, FULL).to_samples(),
        vec![
            0, 0, 0, 0, 0, //
            0, 9, 9, 9, 0, //
            0, 9, 9, 9, 0, //
            0, 9, 9, 9, 0, //
            0, 0, 0, 0, 0,
        ]
    );
}

#[test]
fn dilate_spreads_a_bright_corner_over_four_pixels() {
    let img = image(3, 3, &[0, 0, 0, 0, 0, 0, 0, 0, 200]);
    assert_eq!(
        dilate(&img, FULL).to_samples(),
        vec![0, 0, 0, 0, 200, 200, 0, 200, 200]
    );
}

#[test]
fn erode_spreads_a_dark_centre_over_its_neighbourhood() {
    let img = image(
        5,
        5,
        &[
            9, 9, 9, 9, 9, //
            9, 9, 9, 9, 9, //
            9, 9, 2, 9, 9, //
            9, 9, 9, 9, 9, //
            9, 9, 9, 9, 9,
        ],
    );
    assert_eq!(
        erode(&img, FULL).to_samples(),
        vec![
            9, 9, 9, 9, 9, //
            9, 2, 2, 2, 9, //
            9, 2, 2, 2, 9, //
            9, 2, 2, 2, 9, //
            9, 9, 9, 9, 9,
        ]
    );
}

#[test]
fn erode_at_the_border_ignores_what_lies_outside() {
    let img = image(3, 3, &[50, 60, 70, 80, 90, 100, 110, 120, 130]);
    assert_eq!(
        erode(&img, FULL).to_samples(),
        vec![50, 50, 60, 50, 50, 60, 80, 80, 90]
    );
}

#[test]
fn dilate_at_the_border_ignores_what_lies_outside() {
    let img = image(3, 3, &[50, 60, 70, 80, 90, 100, 110, 120, 130]);
    assert_eq!(
        dilate(&img, FULL).to_samples(),
        vec![90, 100, 100, 120, 130, 130, 120, 130, 130]
    );
}

#[test]
fn dilate_takes_the_largest_of_the_enabled_neighbours_only() {
    // A plus-shaped kernel leaves the diagonals out.
    let plus = [[false, true, false], [true, true, true], [false, true, false]];
    let img = image(3, 3, &[9, 1, 9, 1, 2, 1, 9, 1, 9]);
    assert_eq!(
        dilate(&img, plus).to_samples(),
        vec![9, 9, 9, 9, 2, 9, 9, 9, 9]
    );
    assert_eq!(dilate(&img, plus).get(1, 1), Some(2));
    assert_eq!(dilate(&img, FULL).get(1, 1), Some(9));
}

#[test]
fn dilate_and_erode_without_any_neighbour_give_their_seeds() {
    let img = image(2, 2, &[10, 20, 30, 40]);
    assert_eq!(dilate(&img, NONE).to_samples(), vec![0; 4]);
    assert_eq!(erode(&img, NONE).to_samples(), vec![255; 4]);
}

#[test]
fn open_removes_a_bright_speck() {
    let img = image(
        5,
        5,
        &[
            0, 0, 0, 0, 0, //
            0, 0, 0, 0, 0, //
            0, 0, 255, 0, 0, //
            0, 0, 0, 0, 0, //
            0, 0, 0, 0, 0,
        ],
    );
    assert_eq!(open(&img, FULL).to_samples(), vec![0; 25]);
}

#[test]
fn close_fills_a_dark_pit() {
    let img = image(
        5,
        5,
        &[
            255, 255, 255, 255, 255, //
            255, 255, 255, 255, 255, //
            255, 255, 0, 255, 255, //
            255, 255, 255, 255, 255, //
            255, 255, 255, 255, 255,
        ],
    );
    assert_eq!(close(&img, FULL).to_samples(), vec![255; 25]);
}

#[test]
fn open_is_erosion_then_dilation() {
    let img = sample_image();
    assert_eq!(
        open(&img, FULL).to_samples(),
        dilate(&erode(&img, FULL), FULL).to_samples()
    );
}

#[test]
fn close_is_dilation_then_erosion() {
    let img = sample_image();
    assert_eq!(
        close(&img, FULL).to_samples(),
        erode(&dilate(&img, FULL), FULL).to_samples()
    );
}

#[test]
fn open_keeps_a_block_as_large_as_the_kernel() {
    let img = image(
        5,
        5,
        &[
            0, 0, 0, 0, 0, //
            0, 7, 7, 7, 0, //
            0, 7, 7, 7, 0, //
            0, 7, 7, 7, 0, //
            0, 0, 0, 0, 0,
        ],
    );
    assert_eq!(open(&img, FULL).to_samples(), img.to_samples());
}

#[test]
fn opening_twice_is_opening_once() {
    let once = open(&sample_image(), FULL);
    let twice = open(&once, FULL);
    assert_eq!(twice.to_samples(), once.to_samples());
}

#[test]
fn closing_twice_is_closing_once() {
    let once = close(&sample_image(), FULL);
    let twice = close(&once, FULL);
    assert_eq!(twice.to_samples(), once.to_samples());
}

#[test]
fn eroding_the_complement_is_the_complement_of_dilating() {
    let img = sample_image();
    assert_eq!(
        erode(&complement(&img), FULL).to_samples(),
        complement(&dilate(&img, FULL)).to_samples()
    );
}

#[test]
fn closing_the_complement_is_the_complement_of_opening() {
    let img = sample_image();
    assert_eq!(
        close(&complement(&img), FULL).to_samples(),
        complement(&open(&img, FULL)).to_samples()
    );
}

#[test]
fn dilation_is_never_below_and_erosion_never_above_the_image() {
    let img = sample_image();
    let input = img.to_samples();
    let high = dilate(&img, FULL).to_samples();
    let low = erode(&img, FULL).to_samples();
    for i in 0..input.len() {
        assert!(high[i] >= input[i]);
        assert!(input[i] >= low[i]);
    }
}

#[test]
fn dilate_sub_erode_of_a_flat_image_is_zero() {
    let img = image(4, 3, &[37; 12]);
    assert_eq!(dilate_sub_erode(&img, FULL).to_samples(), vec![0; 12]);
}

#[test]
fn dilate_sub_erode_marks_a_step_edge() {
    let img = image(
        4,
        3,
        &[
            10, 10, 50, 50, //
            10, 10, 50, 50, //
            10, 10, 50, 50,
        ],
    );
    assert_eq!(
        dilate_sub_erode(&img, FULL).to_samples(),
        vec![
            0, 40, 40, 0, //
            0, 40, 40, 0, //
            0, 40, 40, 0,
        ]
    );
}

#[test]
fn dilate_sub_erode_is_the_plain_difference_under_the_full_kernel() {
    let img = sample_image();
    let high = dilate(&img, FULL).to_samples();
    let low = erode(&img, FULL).to_samples();
    let edge = dilate_sub_erode(&img, FULL).to_samples();
    for i in 0..edge.len() {
        assert!(high[i] >= low[i]);
        assert_eq!(edge[i], high[i] - low[i]);
    }
}

#[test]
fn dilate_sub_erode_takes_both_passes_of_the_input() {
    // The erosion of the input is 0 everywhere, so the dilation, 100
    // everywhere, is all that is left. The erosion of the dilation would be
    // 100 everywhere and leave nothing.
    let img = image(3, 3, &[0, 0, 0, 0, 100, 0, 0, 0, 0]);
    assert_eq!(dilate_sub_erode(&img, FULL).to_samples(), vec![100; 9]);
}

#[test]
fn dilate_sub_erode_stops_at_zero_where_erosion_is_larger() {
    // Only the left neighbour is enabled: the first column has no neighbour,
    // so its dilation is 0 and its erosion 255.
    let mut kernel = NONE;
    kernel[1][0] = true;
    let img = image(3, 1, &[5, 6, 7]);
    assert_eq!(dilate(&img, kernel).to_samples(), vec![0, 5, 6]);
    assert_eq!(erode(&img, kernel).to_samples(), vec![255, 5, 6]);
    assert_eq!(dilate_sub_erode(&img, kernel).to_samples(), vec![0, 0, 0]);
}

#[test]
fn every_operator_keeps_the_dimensions() {
    for (width, height) in [(1u32, 1u32), (1, 7), (7, 1), (2, 2), (6, 5), (0, 0), (0, 3), (3, 0)] {
        let img = image(width, height, &vec![3; (width * height) as usize]);
        for out in [
            dilate(&img, FULL),
            erode(&img, FULL),
            open(&img, FULL),
            close(&img, FULL),
            dilate_sub_erode(&img, FULL),
        ] {
            assert_eq!((out.width(), out.height()), (width, height));
            assert_eq!(out.to_samples().len(), (width * height) as usize);
        }
    }
}

#[test]
fn operators_leave_their_input_alone() {
    let img = sample_image();
    let before = img.to_samples();
    let _ = dilate(&img, FULL);
    let _ = erode(&img, FULL);
    let _ = open(&img, FULL);
    let _ = close(&img, FULL);
    let _ = dilate_sub_erode(&img, FULL);
    assert_eq!(img.to_samples(), before);
}
