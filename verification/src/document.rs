//! The in-memory record of an open text document, as a language-server
//! front end tracks it.

use vstd::prelude::*;

verus! {

/// One open document: its version counter and its full text.
#[derive(Debug)]
pub struct TextDocumentItemValue {
    pub version: i32,
    pub text: String,
}

} // verus!
