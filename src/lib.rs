use vstd::prelude::*;

pub mod codec;
pub mod merge;
pub mod pairs;
pub mod train;

verus! {

/// A merge rule `(new_id, left, right)`: the adjacent symbols `left`, `right`
/// become the symbol `new_id`.
pub type Rule = (usize, usize, usize);

/// Why an operation on byte-pair encodings failed.
#[derive(Debug, Clone, Copy, PartialEq, Eq, Structural)]
pub enum BpeError {
    /// A rule's id is out of sequence, or it refers to a symbol not defined before it.
    MalformedRules,
    /// A token has no entry in the vocabulary that the rules define.
    UnknownToken,
    /// The symbol sequence ran out of pairs before the requested number of merges.
    InsufficientData,
}

} // verus!
