use imageproc::{
    apply_operator, close, dilate, dilate_sub_erode, erode, open, GrayImage, Operator,
};

const FULL: [[bool; 3]; 3] = [[true; 3]; 3];

fn image(width: u32, height: u32, samples: &[u8]) -> GrayImage {
    GrayImage::from_samples(width, height, &samples.to_vec()).expect("sample count matches")
}

fn sample_image() -> GrayImage {
    image(4, 3, &[1, 9, 2, 8, 3, 7, 4, 6, 5, 5, 0, 255])
}

#[test]
fn apply_operator_runs_the_operator_it_names() {
    let img = sample_image();
    assert_eq!(
        apply_operator(&img, Operator::Dilate, FULL).to_samples(),
        dilate(&img, FULL).to_samples()
    );
    assert_eq!(
        apply_operator(&img, Operator::Erode, FULL).to_samples(),
        erode(&img, FULL).to_samples()
    );
    assert_eq!(
        apply_operator(&img, Operator::Open, FULL).to_samples(),
        open(&img, FULL).to_samples()
    );
    assert_eq!(
        apply_operator(&img, Operator::Close, FULL).to_samples(),
        close(&img, FULL).to_samples()
    );
    assert_eq!(
        apply_operator(&img, Operator::DilateSubErode, FULL).to_samples(),
        dilate_sub_erode(&img, FULL).to_samples()
    );
}

#[test]
fn the_operators_differ_on_an_image_with_detail() {
    let img = sample_image();
    let results: Vec<Vec<u8>> = [
        Operator::Dilate,
        Operator::Erode,
        Operator::Open,
        Operator::Close,
        Operator::DilateSubErode,
    ]
    .iter()
    .map(|op| apply_operator(&img, *op, FULL).to_samples())
    .collect();
    for a in 0..results.len() {
        for b in a + 1..results.len() {
            assert_ne!(results[a], results[b]);
        }
    }
}

#[test]
fn apply_operator_keeps_the_dimensions() {
    let img = sample_image();
    let out = apply_operator(&img, Operator::Close, FULL);
    assert_eq!((out.width(), out.height()), (4, 3));
}
