use vstd::prelude::*;

verus! {

/// Everything that can end a run early: an input/output failure surfaced by
/// the caller's ports, a bracket imbalance found by the syntax check before
/// any token runs, a data-pointer move that would leave the tape, or a cell
/// step past the representable range.
#[derive(Debug, Clone, Copy, PartialEq, Eq, Structural)]
pub enum BFIError {
    Io,
    MissingClosingBrackets,
    MissingOpeningBrackets,
    OutOfMemory,
    ArithmeticOverflow,
}

impl BFIError {
    /// The one-line rendering of each failure.
    pub open spec fn message_spec(self) -> Seq<char> {
        match self {
            BFIError::Io => "I/O error"@,
            BFIError::MissingClosingBrackets => "Missing closing bracket(s)"@,
            BFIError::MissingOpeningBrackets => "Missing opening bracket(s)"@,
            BFIError::OutOfMemory => "Pointer moved to out of range of memory"@,
            BFIError::ArithmeticOverflow => "Byte overflow"@,
        }
    }

    /// A human-readable description of the failure.
    pub fn message(&self) -> (r: &'static str)
        ensures
            r@ == self.message_spec(),
    {
        match *self {
            BFIError::Io => "I/O error",
            BFIError::MissingClosingBrackets => "Missing closing bracket(s)",
            BFIError::MissingOpeningBrackets => "Missing opening bracket(s)",
            BFIError::OutOfMemory => "Pointer moved to out of range of memory",
            BFIError::ArithmeticOverflow => "Byte overflow",
        }
    }
}

} // verus!
