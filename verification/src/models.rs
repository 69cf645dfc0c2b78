//! The data model of the splitter: raw options, the validated split
//! specifications, the byte unit, and the failure taxonomy.

use vstd::prelude::*;

verus! {

/// The unit letter accepted at the end of a byte-count option: `k` for
/// kilobytes or `m` for megabytes. One megabyte counts as exactly 1000
/// kilobytes here (decimal, not 1024-based); the engine measures parts in
/// kilobyte-sized buffer fills, so this choice fixes the observable part
/// sizes and is kept deliberately.
#[derive(Debug, Clone, Copy, PartialEq, Eq, Structural)]
pub enum ByteUnit {
    KB,
    MB,
}

/// Why a configuration was rejected: a closed set of kinds, each carrying
/// the offending values, so that callers can handle or test every case
/// without matching on message strings.
#[derive(Debug, PartialEq, Eq)]
pub enum InvalidConfigDetail {
    /// A line length and a byte count were both supplied; the two modes
    /// are mutually exclusive.
    BothModesSupplied { line_length: u32, byte_count: String },
    /// The byte-count string does not end in `k`/`K` or `m`/`M`.
    /// `suffix` is its lower-cased last character, or `None` when the
    /// string is empty.
    InvalidByteUnitSuffix { suffix: Option<char> },
    /// The characters before the unit letter are not a decimal number
    /// representable in the engine's unsigned 64-bit counter.
    NotANumber { digits: String },
    /// The byte count, scaled by its unit's multiplier, does not fit the
    /// engine's unsigned 64-bit counter.
    ByteCountTooLarge { byte_length: u64 },
}

/// The failure taxonomy of a whole split run. Every failure is detected
/// where it occurs and propagated to the caller without retry.
#[allow(non_camel_case_types)]
#[derive(Debug, PartialEq, Eq)]
pub enum SplitErrors {
    /// The source path does not exist.
    FILE_NOT_FOUND,
    /// The source contained zero input units (zero lines, or zero bytes).
    EMPTY_FILE,
    /// Any other I/O failure, with a human-readable description of the
    /// underlying cause.
    InternalError(String),
    /// The configuration is self-contradictory or malformed; detected
    /// before any I/O against the source begins.
    InvalidConfig(InvalidConfigDetail),
}

/// Raw user-supplied options, prior to validation. At most one of
/// `line_Length` and `byte_count` may be present; when neither is,
/// the line length defaults to 1000.
#[allow(non_snake_case)]
#[derive(Debug, PartialEq, Eq)]
pub struct Config {
    /// Number of lines per part, when splitting by lines.
    pub line_Length: Option<u32>,
    /// Appended verbatim to every output file name; empty by default.
    pub additional_suffix: String,
    /// Path of the file to be split.
    pub file_name: String,
    /// Size of each part as digits followed by a unit letter, e.g. `500k`.
    pub byte_count: Option<String>,
}

/// A validated, immutable split specification: exactly one of the two
/// modes, produced by the config resolver before any engine logic runs.
#[derive(Debug, PartialEq, Eq)]
pub enum SplitOptions {
    SplitByLines { line_length: u32, additional_suffix: String, file_name: String },
    SplitByBytes { byte_length: u64, additional_suffix: String, file_name: String, byte_unit: ByteUnit },
}

impl SplitErrors {
    /// Classifies the outcome of a failed attempt to open the source file:
    /// a missing source is `FILE_NOT_FOUND`, every other cause is an
    /// `InternalError` carrying the caller's description of it. The caller
    /// passes `is_not_found` from the I/O error's own classification, so a
    /// missing file is never conflated with an internal failure.
    pub fn from_io_kind(is_not_found: bool, detail: String) -> (r: SplitErrors)
        ensures
            is_not_found ==> r == SplitErrors::FILE_NOT_FOUND,
            !is_not_found ==> r == SplitErrors::InternalError(detail),
    {
        if is_not_found {
            SplitErrors::FILE_NOT_FOUND
        } else {
            SplitErrors::InternalError(detail)
        }
    }
}

impl ByteUnit {
    /// Interprets the lower-cased unit letter at the end of a byte-count
    /// option: `k` is kilobytes, `m` is megabytes, anything else is an
    /// invalid suffix.
    pub fn parse(byte_unit_char: char) -> (r: Result<ByteUnit, InvalidConfigDetail>)
        ensures
            byte_unit_char == 'k' ==> r == Ok::<ByteUnit, InvalidConfigDetail>(ByteUnit::KB),
            byte_unit_char == 'm' ==> r == Ok::<ByteUnit, InvalidConfigDetail>(ByteUnit::MB),
            byte_unit_char != 'k' && byte_unit_char != 'm' ==> r == Err::<ByteUnit, InvalidConfigDetail>(
                InvalidConfigDetail::InvalidByteUnitSuffix { suffix: Some(byte_unit_char) },
            ),
    {
        match byte_unit_char {
            'k' => Ok(ByteUnit::KB),
            'm' => Ok(ByteUnit::MB),
            _ => Err(InvalidConfigDetail::InvalidByteUnitSuffix { suffix: Some(byte_unit_char) }),
        }
    }
}

} // verus!
