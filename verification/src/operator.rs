//! Choosing a morphological operator by name.

use crate::morphology::{
    close, closing, dilate, dilate_sub_erode, dilated, dilated_sub_eroded, erode, eroded, open,
    opening,
};
use crate::raster::GrayImage;
use vstd::prelude::*;

verus! {

/// The morphological operators.
#[derive(Clone, Copy, Debug, PartialEq, Eq, Structural)]
pub enum Operator {
    /// Every sample becomes the largest in its neighbourhood.
    Dilate,
    /// Every sample becomes the smallest in its neighbourhood.
    Erode,
    /// Erosion, then dilation.
    Open,
    /// Dilation, then erosion.
    Close,
    /// Dilation minus erosion, sample by sample.
    DilateSubErode,
}

/// What `op` makes of a grid under `kernel`.
pub open spec fn operated(g: Seq<Seq<u8>>, op: Operator, kernel: [[bool; 3]; 3]) -> Seq<Seq<u8>> {
    match op {
        Operator::Dilate => dilated(g, kernel),
        Operator::Erode => eroded(g, kernel),
        Operator::Open => opening(g, kernel),
        Operator::Close => closing(g, kernel),
        Operator::DilateSubErode => dilated_sub_eroded(g, kernel),
    }
}

/// Applies the chosen operator to an image.
pub fn apply_operator(img: &GrayImage, op: Operator, structuring_element: [[bool; 3]; 3]) -> (out:
    GrayImage)
    ensures
        out.spec_width() == img.spec_width(),
        out@.len() == img@.len(),
        out@ == operated(img@, op, structuring_element),
{
    match op {
        Operator::Dilate => dilate(img, structuring_element),
        Operator::Erode => erode(img, structuring_element),
        Operator::Open => open(img, structuring_element),
        Operator::Close => close(img, structuring_element),
        Operator::DilateSubErode => dilate_sub_erode(img, structuring_element),
    }
}

} // verus!
