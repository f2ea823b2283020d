//! Incremental prose checking for an editor: a text buffer with a line index in bytes and
//! UTF-16 units, the lines changed since the last check, the payload built for them, and the
//! matches kept in step with edits.
use vstd::prelude::*;

pub mod actions;
pub mod annotated;
pub mod changes;
pub mod diagnostics;
pub mod dictionary;
pub mod document;
pub mod issues;
pub mod plaintext;
pub mod service;
pub mod source;
pub mod synonyms;
pub mod text;
pub mod util;

verus! {

} // verus!
