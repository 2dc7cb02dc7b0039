use vstd::prelude::*;

verus! {

/// A broad classification of data.
#[derive(Debug, PartialEq, Eq, Clone, Copy, Structural)]
pub enum Classification {
    /// Data that shows no discernable pattern.
    Binary,
    /// Data that is predominantly ASCII values.
    Utf8Text,
    /// Data with many '<' and '>' characters in roughly equal amounts.
    Xml,
}

} // verus!
