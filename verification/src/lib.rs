//! Grayscale thresholding and binary morphology on raster images.
//!
//! The heart of the crate is a sliding-window fold over a 3x3 structuring
//! element ([`fold::fold_over_structuring_element`]). Neighbours that fall
//! outside the image are left out of the fold rather than padded. Dilation,
//! erosion, opening, closing and the dilate-minus-erode edge operator are
//! built on it ([`morphology`]), and [`threshold`] turns a grayscale image
//! into a black-and-white one. What holds of the operators for every image
//! is proved in [`laws`].

pub mod raster;
pub mod window;
pub mod fold;
pub mod morphology;
pub mod operator;
pub mod threshold;
pub mod laws;

pub use fold::fold_over_structuring_element;
pub use morphology::{close, dilate, dilate_sub_erode, erode, open};
pub use operator::{apply_operator, Operator};
pub use raster::GrayImage;
pub use threshold::{
    apply_cutoff, average_threshold, mean_cutoff, median_cutoff, median_threshold, threshold,
    ThresholdError, ThresholdMode,
};
pub use window::{clamp_axis, AxisSpan};
