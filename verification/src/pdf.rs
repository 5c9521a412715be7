//! What the library decides about a PDF before reading its pages.

use vstd::prelude::*;

use crate::TrexError;

verus! {

/// Direction of a ruling line.
#[derive(Debug, Clone, Copy, PartialEq, Eq, Structural)]
pub enum LineDirection {
    /// Horizontal line.
    Horizontal,
    /// Vertical line.
    Vertical,
}

/// The message for an encrypted document.
pub open spec fn encrypted_message() -> Seq<char> {
    "암호화된 PDF는 현재 지원하지 않습니다"@
}

/// Rejects encrypted documents, which are not supported.
pub fn check_supported(encrypted: bool) -> (r: Result<(), TrexError>)
    ensures
        encrypted ==> (r matches Err(TrexError::PdfParse(m)) && m@ == encrypted_message()),
        !encrypted ==> r is Ok,
{
    if encrypted {
        return Err(TrexError::PdfParse(String::from_str("암호화된 PDF는 현재 지원하지 않습니다")));
    }
    Ok(())
}

} // verus!
