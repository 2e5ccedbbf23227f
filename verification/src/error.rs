//! What can go wrong while messages are read or written.
use vstd::prelude::*;

verus! {

/// The input/output error of `std`, which `zstd` reports its failures by.
#[verifier::external_type_specification]
#[verifier::external_body]
pub struct ExIoError(std::io::Error);

/// The error of `roead`.
#[verifier::external_type_specification]
#[verifier::external_body]
pub struct ExRoeadError(roead::Error);

/// Why a section name is not written.
#[derive(Clone, Copy, Debug, PartialEq, Eq, Structural)]
pub enum NameFault {
    /// It has no characters.
    Empty,
    /// It has more than 512 characters.
    TooLong,
    /// It contains `..`.
    ParentPath,
    /// It contains a control character.
    ControlCharacter,
}

/// Why messages are not written.
#[derive(Clone, Copy, Debug, PartialEq, Eq, Structural)]
pub enum Refusal {
    /// There is no language.
    EmptyLanguage,
    /// The language has more than 64 characters.
    LongLanguage,
    /// There are no sections.
    NoEntries,
    /// The stated number of sections is not their number.
    CountMismatch,
    /// The name of the section at this position is faulty.
    SectionName { index: usize, fault: NameFault },
}

/// A failure of the library.
#[derive(Debug)]
pub enum MessageError {
    /// The messages are not fit to be written.
    Refused(Refusal),
    /// The entries of a section could not be written as JSON.
    Json(serde_json::Error),
    /// The messages are too many bytes for the compressor.
    TooLarge,
    /// Compression or decompression failed.
    Zstd(std::io::Error),
    /// The data has one Yaz0 layer inside another.
    NestedYaz0,
    /// The data is not a readable SARC archive.
    Sarc(roead::Error),
}

} // verus!
