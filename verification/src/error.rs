//! Why an engine cannot be built.

use vstd::prelude::*;

verus! {

/// A key string and an alphabet that no engine can work with.
#[derive(Debug, Clone, Copy, PartialEq, Eq, Structural)]
pub enum ConfigurationError {
    /// The alphabet names a symbol more than once.
    DuplicateSymbol,
    /// The key string holds no character of the alphabet.
    EmptyKey,
}

} // verus!
