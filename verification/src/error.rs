use vstd::prelude::*;

verus! {

/// Why an element could not be decoded.
#[derive(Debug)]
pub enum DecodeError {
    /// The input ended before the element was closed.
    UnexpectedEndOfInput,
    /// The XML reader failed; its error is handed on as it came.
    Xml(quick_xml::Error),
}

} // verus!
