//! The figures of an image as the rows of a table of text.

use vstd::prelude::*;
use vstd::string::StringExecFns;
use crate::quantization::{Depths, QuantizationSpec};
use crate::report::Report;

verus! {

/// The text of one decimal digit.
pub open spec fn digit_text(digit: nat) -> Seq<char> {
    if digit == 0 {
        "0"@
    } else if digit == 1 {
        "1"@
    } else if digit == 2 {
        "2"@
    } else if digit == 3 {
        "3"@
    } else if digit == 4 {
        "4"@
    } else if digit == 5 {
        "5"@
    } else if digit == 6 {
        "6"@
    } else if digit == 7 {
        "7"@
    } else if digit == 8 {
        "8"@
    } else {
        "9"@
    }
}

/// The decimal text of a number, without leading zeros.
pub open spec fn decimal_text(number: nat) -> Seq<char>
    decreases number,
{
    if number < 10 {
        digit_text(number)
    } else {
        decimal_text(number / 10) + digit_text(number % 10)
    }
}

/// The text of three depths: `(r, g, b)`.
pub open spec fn depths_text(depths: Depths) -> Seq<char> {
    "("@ + decimal_text(depths.r as nat) + ", "@ + decimal_text(depths.g as nat) + ", "@
        + decimal_text(depths.b as nat) + ")"@
}

/// The text of two sides and the kind of pixel: `WxH [RGB]`.
pub open spec fn data_text(width: nat, height: nat) -> Seq<char> {
    decimal_text(width) + "x"@ + decimal_text(height) + " [RGB]"@
}

/// The text of a size in bits with a size in bytes beside it: `N b (label)`.
pub open spec fn size_text(bits: nat, label: Seq<char>) -> Seq<char> {
    decimal_text(bits) + " b ("@ + label + ")"@
}

/// One row of the table: a label, then a cell for each part of a file.
#[derive(Debug, PartialEq, Eq)]
pub struct Row {
    pub label: String,
    pub magic: String,
    pub width: String,
    pub height: String,
    pub quantization: String,
    pub data: String,
}

/// What a row holds, as plain text.
pub struct RowView {
    pub label: Seq<char>,
    pub magic: Seq<char>,
    pub width: Seq<char>,
    pub height: Seq<char>,
    pub quantization: Seq<char>,
    pub data: Seq<char>,
}

impl View for Row {
    type V = RowView;

    open spec fn view(&self) -> RowView {
        RowView {
            label: self.label@,
            magic: self.magic@,
            width: self.width@,
            height: self.height@,
            quantization: self.quantization@,
            data: self.data@,
        }
    }
}

/// The row of headings.
pub open spec fn heading_row_text() -> RowView {
    RowView {
        label: ""@,
        magic: "Magic"@,
        width: "Width"@,
        height: "Height"@,
        quantization: "Quantization"@,
        data: "Data"@,
    }
}

/// The row that gives the value of each part.
pub open spec fn value_row_text(report: Report) -> RowView {
    RowView {
        label: "Value"@,
        magic: "b'grnfld42'"@,
        width: decimal_text(report.width as nat),
        height: decimal_text(report.height as nat),
        quantization: depths_text(report.quantization@),
        data: data_text(report.width as nat, report.height as nat),
    }
}

/// The row that gives the size of each part in bits, with the size in bytes
/// in brackets; `byte_label` is the text for the size of the pixels in bytes.
pub open spec fn size_row_text(report: Report, byte_label: Seq<char>) -> RowView {
    RowView {
        label: "Size"@,
        magic: "64 b (8 B)"@,
        width: "32 b (4 B)"@,
        height: "32 b (4 B)"@,
        quantization: "9 b (~1 B)"@,
        data: size_text(report.data_bit_size as nat, byte_label),
    }
}

/// The text that the crate `byte_unit` gives for a number of bytes in the
/// unit that suits it, with binary multiples.
pub uninterp spec fn appropriate_unit_text(bytes: u128) -> Seq<char>;

/// Calls `byte_unit::Byte::from_bytes`, `Byte::get_appropriate_unit` with
/// binary multiples, and the `Display` of the `AdjustedByte` that comes back.
/// What is claimed: the text depends on the number of bytes alone. The call
/// picks a unit by comparing the number with powers of 1024, divides in
/// floating point and formats the quotient; it does not panic.
#[verifier::external_body]
fn appropriate_unit(bytes: u128) -> (text: String)
    ensures
        text@ == appropriate_unit_text(bytes),
{
    byte_unit::Byte::from_bytes(bytes).get_appropriate_unit(true).to_string()
}

/// The text of one decimal digit.
fn digit_str(digit: u8) -> (text: &'static str)
    requires
        digit < 10,
    ensures
        text@ == digit_text(digit as nat),
{
    match digit {
        0 => "0",
        1 => "1",
        2 => "2",
        3 => "3",
        4 => "4",
        5 => "5",
        6 => "6",
        7 => "7",
        8 => "8",
        _ => "9",
    }
}

/// The decimal text of a number, without leading zeros.
pub fn decimal(number: u128) -> (text: String)
    ensures
        text@ == decimal_text(number as nat),
    decreases number,
{
    if number < 10 {
        String::from_str(digit_str(number as u8))
    } else {
        decimal(number / 10).concat(digit_str((number % 10) as u8))
    }
}

/// The text of three depths: `(r, g, b)`.
pub fn depths_label(quantization: QuantizationSpec) -> (text: String)
    ensures
        text@ == depths_text(quantization@),
{
    let red = decimal(quantization.bits_r() as u128);
    let green = decimal(quantization.bits_g() as u128);
    let blue = decimal(quantization.bits_b() as u128);
    String::from_str("(").concat(red.as_str()).concat(", ").concat(green.as_str()).concat(
        ", ",
    ).concat(blue.as_str()).concat(")")
}

/// The row of headings.
pub fn heading_row() -> (row: Row)
    ensures
        row@ == heading_row_text(),
{
    Row {
        label: String::from_str(""),
        magic: String::from_str("Magic"),
        width: String::from_str("Width"),
        height: String::from_str("Height"),
        quantization: String::from_str("Quantization"),
        data: String::from_str("Data"),
    }
}

/// The row that gives the value of each part.
pub fn value_row(report: &Report) -> (row: Row)
    ensures
        row@ == value_row_text(*report),
{
    let width = decimal(report.width as u128);
    let height = decimal(report.height as u128);
    let data = String::from_str(width.as_str()).concat("x").concat(height.as_str()).concat(
        " [RGB]",
    );
    Row {
        label: String::from_str("Value"),
        magic: String::from_str("b'grnfld42'"),
        width,
        height,
        quantization: depths_label(report.quantization),
        data,
    }
}

/// The row of sizes, given the text for the size of the pixels in bytes.
pub fn size_row_with(report: &Report, byte_label: &str) -> (row: Row)
    ensures
        row@ == size_row_text(*report, byte_label@),
{
    let data = decimal(report.data_bit_size).concat(" b (").concat(byte_label).concat(")");
    Row {
        label: String::from_str("Size"),
        magic: String::from_str("64 b (8 B)"),
        width: String::from_str("32 b (4 B)"),
        height: String::from_str("32 b (4 B)"),
        quantization: String::from_str("9 b (~1 B)"),
        data,
    }
}

/// The row of sizes, the size of the pixels in bytes being given in the unit
/// that suits it.
pub fn size_row(report: &Report) -> (row: Row)
    ensures
        row@ == size_row_text(*report, appropriate_unit_text(report.data_byte_size)),
{
    let byte_label = appropriate_unit(report.data_byte_size);
    size_row_with(report, byte_label.as_str())
}

} // verus!
