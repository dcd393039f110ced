//! An image in memory: its sides, the depths it is stored at, and its pixels
//! at full precision.

use vstd::prelude::*;
use crate::format::{ImageView, Rgb};
use crate::quantization::QuantizationSpec;

verus! {

/// An RGB image together with the depths at which a file keeps its channels.
///
/// The pixels are held as 8-bit samples whatever the depths are: the depths
/// say how the image is written, not how it is kept. Every value of this type
/// has exactly `width * height` pixels.
#[derive(Debug, PartialEq, Eq)]
pub struct Image {
    width: u32,
    height: u32,
    quantization: QuantizationSpec,
    pixels: Vec<Rgb>,
}

impl View for Image {
    type V = ImageView;

    closed spec fn view(&self) -> ImageView {
        ImageView {
            width: self.width as nat,
            height: self.height as nat,
            depths: self.quantization@,
            pixels: self.pixels@,
        }
    }
}

impl Image {
    #[verifier::type_invariant]
    spec fn one_pixel_for_every_place(&self) -> bool {
        self@.valid()
    }

    /// Makes an image of `width` by `height` pixels, given row by row from the
    /// top. There is no image unless `pixels` holds one pixel for every place.
    pub fn new(width: u32, height: u32, quantization: QuantizationSpec, pixels: Vec<Rgb>) -> (made:
        Option<Image>)
        ensures
            made is Some <==> pixels@.len() == width * height,
            made matches Some(image) ==> image@ == (ImageView {
                width: width as nat,
                height: height as nat,
                depths: quantization@,
                pixels: pixels@,
            }) && image@.valid(),
    {
        // Asking a `QuantizationSpec` for anything tells that its depths are valid.
        let _ = quantization.pixel_bit_size();
        assert(width * height <= u64::MAX) by (nonlinear_arith)
            requires
                width <= u32::MAX,
                height <= u32::MAX,
        ;
        let places: u64 = width as u64 * height as u64;
        if pixels.len() as u64 == places {
            Some(Image { width, height, quantization, pixels })
        } else {
            None
        }
    }

    /// The width in pixels.
    pub fn width(&self) -> (width: u32)
        ensures
            width == self@.width,
    {
        self.width
    }

    /// The height in pixels.
    pub fn height(&self) -> (height: u32)
        ensures
            height == self@.height,
    {
        self.height
    }

    /// The width and the height, in pixels.
    pub fn dimensions(&self) -> (sides: (u32, u32))
        ensures
            sides.0 == self@.width,
            sides.1 == self@.height,
    {
        (self.width, self.height)
    }

    /// The depths at which the image is written.
    pub fn quantization(&self) -> (quantization: QuantizationSpec)
        ensures
            quantization@ == self@.depths,
            self@.valid(),
    {
        proof {
            use_type_invariant(self);
        }
        self.quantization
    }

    /// The pixels, row by row from the top.
    pub fn pixels(&self) -> (pixels: &Vec<Rgb>)
        ensures
            pixels@ == self@.pixels,
            self@.valid(),
    {
        proof {
            use_type_invariant(self);
        }
        &self.pixels
    }
}

} // verus!
