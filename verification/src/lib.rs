//! Message files of UKMM mods, converted to editable JSON and back.
//!
//! A message file is a zstd frame, possibly with a Yaz0 layer inside, around
//! a SARC archive of MSBT files or a CBOR document of JSON texts. Reading
//! goes through [`compression`] and [`convert`], writing through
//! [`messages`]. [`mods`], [`session`] and [`rebuild`] hold the decisions of
//! the program around that: which mods are offered, which step follows which,
//! and what a rebuilt mod consists of.
//!
//! Files, archives of mods and the MSBT and Yaz0 formats are left to the
//! program.
use vstd::prelude::*;

pub mod cbor;
pub mod compression;
pub mod convert;
pub mod error;
pub mod json;
pub mod language;
pub mod messages;
pub mod mods;
pub mod names;
pub mod reading;
pub mod rebuild;
pub mod sarc;
pub mod sections;
pub mod session;
pub mod structure;
pub mod text;

verus! {

} // verus!
