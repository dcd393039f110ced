//! The figures of an image that are worth showing: its sides, its depths and
//! the size of its pixels in a file.

use vstd::prelude::*;
use crate::format::{payload_bit_len, payload_byte_len, ImageView};
use crate::image::Image;
use crate::quantization::QuantizationSpec;

verus! {

/// The figures of one image.
#[derive(Clone, Copy, Debug, PartialEq, Eq)]
pub struct Report {
    /// The width in pixels.
    pub width: u32,
    /// The height in pixels.
    pub height: u32,
    /// The depths of the three channels.
    pub quantization: QuantizationSpec,
    /// The number of pixels: width times height.
    pub num_pixels: u64,
    /// The number of bits that one pixel takes in a file.
    pub pixel_bit_size: u8,
    /// The number of bits that all the pixels take in a file.
    pub data_bit_size: u128,
    /// The number of bytes that all the pixels take in a file: the bits,
    /// rounded up to whole bytes.
    pub data_byte_size: u128,
}

impl Report {
    /// The report holds the figures of `image`.
    pub open spec fn describes(self, image: ImageView) -> bool {
        &&& self.width == image.width
        &&& self.height == image.height
        &&& self.quantization@ == image.depths
        &&& self.num_pixels == image.width * image.height
        &&& self.pixel_bit_size == image.depths.pixel_bit_size()
        &&& self.data_bit_size == payload_bit_len(image.width, image.height, image.depths)
        &&& self.data_byte_size == payload_byte_len(image.width, image.height, image.depths)
    }
}

/// The figures of an image. Nothing is changed and nothing can fail.
pub fn inspect(image: &Image) -> (report: Report)
    ensures
        report.describes(image@),
{
    let width = image.width();
    let height = image.height();
    let quantization = image.quantization();
    let pixel_bit_size = quantization.pixel_bit_size();
    assert(width * height <= u64::MAX) by (nonlinear_arith)
        requires
            width <= u32::MAX,
            height <= u32::MAX,
    ;
    let num_pixels: u64 = width as u64 * height as u64;
    assert(num_pixels * pixel_bit_size <= 24 * u64::MAX) by (nonlinear_arith)
        requires
            num_pixels <= u64::MAX,
            pixel_bit_size <= 24,
    ;
    let data_bit_size: u128 = num_pixels as u128 * pixel_bit_size as u128;
    let data_byte_size: u128 = (data_bit_size + 7) / 8;
    Report {
        width,
        height,
        quantization,
        num_pixels,
        pixel_bit_size,
        data_bit_size,
        data_byte_size,
    }
}

} // verus!
