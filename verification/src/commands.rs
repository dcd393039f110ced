//! The three things that can be asked about a file, from its bytes to an
//! answer.

use vstd::prelude::*;
use crate::codec::{load_image, save_image};
use crate::format::{converted, decoded, DecodeError};
use crate::quantization::{first_invalid_depth, valid_depth, QuantizationError, QuantizationSpec};
use crate::report::{inspect, Report};

verus! {

/// What can be asked about a file.
#[derive(Clone, Copy, Debug, PartialEq, Eq)]
pub enum Commands {
    /// Read the file and write it again, after checking the three depths
    /// given.
    Quantize { bits_r: u8, bits_g: u8, bits_b: u8 },
    /// Give the figures of the file.
    Inspect,
    /// Read the file and write it again.
    Convert,
}

/// The answer to a command.
#[derive(Debug, PartialEq, Eq)]
pub enum Outcome {
    /// The bytes of the file to write.
    File(Vec<u8>),
    /// The figures to show.
    Figures(Report),
}

/// Why a command has no answer.
#[derive(Clone, Copy, Debug, PartialEq, Eq)]
pub enum CommandError {
    /// The depths given with the command are not valid.
    Quantization(QuantizationError),
    /// The input is not a greenfield file.
    Decode(DecodeError),
}

impl Commands {
    /// The figures of the file held in `input`.
    pub fn inspect(input: &[u8]) -> (answer: Result<Report, DecodeError>)
        ensures
            match decoded(input@) {
                Ok(image) => answer matches Ok(report) && report.describes(image),
                Err(error) => answer matches Err(e) && e == error,
            },
    {
        match load_image(input, QuantizationSpec::full()) {
            Ok(image) => Ok(inspect(&image)),
            Err(error) => Err(error),
        }
    }

    /// Reads the file held in `input` and writes it again. The depths of the
    /// header are the ones that count: `uniform_quantization` is valid by
    /// construction and gives way to them.
    pub fn quantize(uniform_quantization: QuantizationSpec, input: &[u8]) -> (answer: Result<
        Vec<u8>,
        DecodeError,
    >)
        ensures
            match converted(input@) {
                Ok(bytes) => answer matches Ok(output) && output@ == bytes,
                Err(error) => answer matches Err(e) && e == error,
            },
    {
        match load_image(input, uniform_quantization) {
            Ok(image) => Ok(save_image(&image)),
            Err(error) => Err(error),
        }
    }

    /// Reads the file held in `input` and writes it again: the same image at
    /// the same depths, with every padding bit zero and nothing after the last
    /// pixel.
    pub fn convert(input: &[u8]) -> (answer: Result<Vec<u8>, DecodeError>)
        ensures
            match converted(input@) {
                Ok(bytes) => answer matches Ok(output) && output@ == bytes,
                Err(error) => answer matches Err(e) && e == error,
            },
    {
        match load_image(input, QuantizationSpec::full()) {
            Ok(image) => Ok(save_image(&image)),
            Err(error) => Err(error),
        }
    }

    /// Whether the depths that come with the command are valid; a command
    /// without depths has nothing to check.
    pub open spec fn depths_valid(self) -> bool {
        match self {
            Commands::Quantize { bits_r, bits_g, bits_b } => valid_depth(bits_r as int)
                && valid_depth(bits_g as int) && valid_depth(bits_b as int),
            _ => true,
        }
    }

    /// Answers the command for the file held in `input`. Depths that are not
    /// valid are refused before the input is looked at.
    pub fn run(self, input: &[u8]) -> (answer: Result<Outcome, CommandError>)
        ensures
            match self {
                Commands::Quantize { bits_r, bits_g, bits_b } if !self.depths_valid() => answer
                    == Err::<Outcome, CommandError>(
                    CommandError::Quantization(
                        first_invalid_depth(bits_r as int, bits_g as int, bits_b as int),
                    ),
                ),
                Commands::Inspect => match decoded(input@) {
                    Ok(image) => answer matches Ok(Outcome::Figures(report)) && report.describes(
                        image,
                    ),
                    Err(error) => answer == Err::<Outcome, CommandError>(
                        CommandError::Decode(error),
                    ),
                },
                _ => match converted(input@) {
                    Ok(bytes) => answer matches Ok(Outcome::File(output)) && output@ == bytes,
                    Err(error) => answer == Err::<Outcome, CommandError>(
                        CommandError::Decode(error),
                    ),
                },
            },
    {
        match self {
            Commands::Quantize { bits_r, bits_g, bits_b } => {
                match QuantizationSpec::new(bits_r, bits_g, bits_b) {
                    Err(error) => Err(CommandError::Quantization(error)),
                    Ok(uniform_quantization) => match Commands::quantize(
                        uniform_quantization,
                        input,
                    ) {
                        Ok(output) => Ok(Outcome::File(output)),
                        Err(error) => Err(CommandError::Decode(error)),
                    },
                }
            },
            Commands::Inspect => match Commands::inspect(input) {
                Ok(report) => Ok(Outcome::Figures(report)),
                Err(error) => Err(CommandError::Decode(error)),
            },
            Commands::Convert => match Commands::convert(input) {
                Ok(output) => Ok(Outcome::File(output)),
                Err(error) => Err(CommandError::Decode(error)),
            },
        }
    }
}

} // verus!
