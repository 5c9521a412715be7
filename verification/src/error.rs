//! Error kinds of the library.

use vstd::prelude::*;

verus! {

/// `std::io::Error`, carried through without being inspected.
#[verifier::external_type_specification]
#[verifier::external_body]
pub struct ExIoError(std::io::Error);

/// `serde_json::Error`, carried through without being inspected.
#[verifier::external_type_specification]
#[verifier::external_body]
pub struct ExJsonError(serde_json::Error);

/// Every error the library reports.
#[derive(Debug)]
pub enum TrexError {
    /// Reading or parsing the PDF failed.
    PdfParse(String),
    /// Table detection failed.
    Detection(String),
    /// Merging cells failed.
    Merge(String),
    /// Producing output failed.
    Output(String),
    /// The router pipeline failed.
    Dl(String),
    /// File I/O failed.
    Io(std::io::Error),
    /// JSON serialization failed.
    Json(serde_json::Error),
}

} // verus!
