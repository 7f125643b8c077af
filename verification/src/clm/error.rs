//! The ways in which an operation of the model can fail.

use vstd::prelude::*;

verus! {

/// Why an operation failed. Every failure ends the operation; none is
/// recovered from.
#[derive(Debug, Clone, Copy, PartialEq, Eq, Structural)]
pub enum ClmError {
    /// A training or test file cannot be opened.
    InputMissing,
    /// Options or a persisted run are malformed.
    ParseError,
    /// Ensemble training was given a shard without tokens.
    EmptyShard,
    /// The dictionary trainer was given fewer than five sub-chunks.
    InsufficientSubChunks,
    /// The dictionary buffer would be under 256 bytes.
    BufferTooSmall,
    /// The compression primitive reported an error.
    CompressionPrimitiveError,
    /// A distribution lacks the ground-truth token, or holds a value that is
    /// not a probability.
    DistributionViolation,
    /// No persisted model matches the name asked for.
    UnknownModel,
}

impl ClmError {
    /// The one-line description of each failure.
    pub open spec fn message_spec(self) -> Seq<char> {
        match self {
            ClmError::InputMissing => "input file cannot be opened"@,
            ClmError::ParseError => "malformed options or persisted run"@,
            ClmError::EmptyShard => "a training shard holds no tokens"@,
            ClmError::InsufficientSubChunks => "fewer than five sub-chunks to train on"@,
            ClmError::BufferTooSmall => "dictionary buffer under 256 bytes"@,
            ClmError::CompressionPrimitiveError => "the compression primitive failed"@,
            ClmError::DistributionViolation => "the distribution violates its contract"@,
            ClmError::UnknownModel => "no persisted model matches"@,
        }
    }

    /// A one-line description of the failure.
    pub fn message(&self) -> (text: String)
        ensures
            text@ == self.message_spec(),
            text@.len() > 0,
    {
        let text = match self {
            ClmError::InputMissing => "input file cannot be opened",
            ClmError::ParseError => "malformed options or persisted run",
            ClmError::EmptyShard => "a training shard holds no tokens",
            ClmError::InsufficientSubChunks => "fewer than five sub-chunks to train on",
            ClmError::BufferTooSmall => "dictionary buffer under 256 bytes",
            ClmError::CompressionPrimitiveError => "the compression primitive failed",
            ClmError::DistributionViolation => "the distribution violates its contract",
            ClmError::UnknownModel => "no persisted model matches",
        };
        proof {
            reveal_strlit("input file cannot be opened");
            reveal_strlit("malformed options or persisted run");
            reveal_strlit("a training shard holds no tokens");
            reveal_strlit("fewer than five sub-chunks to train on");
            reveal_strlit("dictionary buffer under 256 bytes");
            reveal_strlit("the compression primitive failed");
            reveal_strlit("the distribution violates its contract");
            reveal_strlit("no persisted model matches");
        }
        text.to_owned()
    }
}

} // verus!
