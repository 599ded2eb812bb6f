//! A lookup engine for StarDict dictionaries.
//!
//! A dictionary is a triplet: a binary index of headwords, a compressed blob of
//! definitions and a textual metadata file. This crate decodes the three from
//! bytes, answers exact and fuzzy queries against the index, and merges the
//! answers of several dictionaries. Reading the files themselves is left to
//! the caller.
//!
//! - [`library`] puts a query to every dictionary and merges the answers.
//! - [`dictionary`] makes a dictionary of its three files and answers a query.
//! - [`dict_index`] holds the headwords and finds the exact and the fuzzy
//!   matches; [`index_format`] says what an index file holds, and [`fuzzy`]
//!   which headwords a fuzzy query admits and in which order it hands them
//!   out.
//! - [`dict_info`] reads the metadata, [`dict_content`] the definitions.
//! - [`text`] and [`util`] compare strings, read numbers and walk bytes.

pub mod consult_option;
pub mod consult_result;
pub mod dict_content;
pub mod dict_index;
pub mod dict_info;
pub mod dictionary;
pub mod fuzzy;
pub mod index_format;
pub mod library;
pub mod sd_error;
pub mod text;
pub mod util;

pub use consult_option::ConsultOption;
pub use consult_result::ConsultResult;
pub use dictionary::Dictionary;
pub use library::Library;
pub use sd_error::SdError;
