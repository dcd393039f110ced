//! A codec for the greenfield raster-image container.
//!
//! A greenfield file stores an RGB image whose red, green and blue channels
//! are each kept at their own bit depth, between one and eight bits. The file
//! is a single bitstream, most significant bit first:
//!
//! | bits                 | field                                            |
//! |----------------------|--------------------------------------------------|
//! | 64                   | the magic bytes `grnfld42`                       |
//! | 32                   | width in pixels, big-endian                      |
//! | 32                   | height in pixels, big-endian                     |
//! | 3 + 3 + 3            | red, green and blue depth, each stored minus one |
//! | 7                    | zero padding up to the next byte                 |
//! | width * height * d   | the pixels, row by row, `d` bits each            |
//! | 0 to 7               | zero padding up to the next byte                 |
//!
//! Every function of the library is verified against a contract that is
//! stated over this bitstream.

pub mod bits;
pub mod codec;
pub mod commands;
pub mod format;
pub mod image;
pub mod laws;
pub mod quantization;
pub mod reader;
pub mod report;
pub mod table;
pub mod writer;
