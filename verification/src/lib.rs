//! Engraving renderer: turns a grayscale image into a pen-and-ink style
//! hatching, where each region of near-constant brightness is painted with
//! periodic stripes whose width encodes the region's shade and whose
//! orientation follows the direction of least brightness change.

use vstd::prelude::*;

pub mod direction_field;
pub mod grid;
pub mod image_processor;
pub mod pixel_subset;
pub mod quantize;
pub mod region;
pub mod trig;

verus! {

/// The ways a run of the pipeline can fail. All are fatal: the computation is
/// deterministic, so a retry with the same input cannot go differently.
#[derive(Clone, Copy, PartialEq, Eq, Structural, Debug)]
pub enum EngraveError {
    /// Fewer than two shades were requested.
    InvalidShadeCount,
    /// Zero gradient directions were requested.
    InvalidDirectionCount,
    /// A stroke width of zero was requested.
    InvalidStrokeWidth,
    /// Some pixel's window gives no direction with two valid samples.
    DegenerateWindow,
}

/// The program's inputs: where to read the image, where to write the result,
/// and the three parameters of the engraving.
pub struct Input {
    /// Path to the image file to engrave.
    pub img_path: String,
    /// Name of the output file, without its extension.
    pub out_file_name: String,
    /// Number of gray shades to interpret in the image.
    pub n_shades: u8,
    /// Number of gradient directions to evaluate.
    pub n_grad_dir: u32,
    /// Period of the stripe pattern, in pixels.
    pub stroke_width: u32,
}

/// The orientation of a region's stripes, held as the cosine and sine of the
/// stripe angle in fixed-point form, scaled by `trig::SCALE`.
#[derive(Clone, Copy, PartialEq, Eq, Structural, Debug)]
pub struct StrokeDirection {
    /// Cosine of the stripe angle, scaled by `trig::SCALE`.
    pub cos_fp: i64,
    /// Sine of the stripe angle, scaled by `trig::SCALE`.
    pub sin_fp: i64,
}

impl StrokeDirection {
    /// The direction of angle zero: stripes of constant projected distance
    /// along the horizontal axis.
    pub fn zero() -> (d: StrokeDirection)
        ensures
            d.cos_fp == crate::trig::SCALE,
            d.sin_fp == 0,
    {
        StrokeDirection { cos_fp: crate::trig::SCALE, sin_fp: 0 }
    }
}

} // verus!
