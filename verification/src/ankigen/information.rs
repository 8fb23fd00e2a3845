//! A word with its definitions.

use vstd::prelude::*;

verus! {

/// A word and what it means.
#[derive(Debug, Clone, Default)]
pub struct SimpleInformation {
    pub word: String,
    pub definitions: Vec<String>,
}

} // verus!
