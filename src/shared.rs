use vstd::prelude::*;

verus! {

/// One decoded instruction of a program. `Jump` and `Back` carry the index of
/// their partner bracket once the program has been preprocessed.
#[derive(Clone, Copy, Debug, PartialEq, Eq, Structural)]
pub enum Instruction {
    Right,
    Left,
    Increment,
    Decrement,
    Output,
    Input,
    Jump(Option<usize>),
    Back(Option<usize>),
}

/// Every way in which reading, preprocessing or running a program can fail.
#[derive(Clone, Copy, Debug, PartialEq, Eq, Structural)]
pub enum Error {
    /// The source file could not be opened or read.
    SourceUnreadable,
    /// A `]` came with no open `[` before it.
    UnmatchedCloseBracket,
    /// The `[` at this instruction index was never closed.
    UnmatchedOpenBracket(usize),
    /// The index taken from the bracket stack did not hold a `Jump`.
    InvalidJumpPairing,
    /// A `Jump` or `Back` without a target was about to run.
    UnresolvedBranchTarget,
    /// An `Input` instruction found no byte left to read.
    InputStreamExhausted,
}

} // verus!
