use vstd::prelude::*;

verus! {

/// Why an operation produced no result.
#[derive(Clone, Copy, Debug, PartialEq, Eq, Structural)]
pub enum AudioError {
    /// There are no samples to work on.
    InputUnavailable,
    /// The requested chunk starts at or behind the end of the samples.
    ChunkOutOfRange,
    /// The selection holds no sample.
    InvalidSelection,
}

impl AudioError {
    /// The words in which the error is told to a user.
    pub open spec fn message_spec(self) -> Seq<char> {
        match self {
            AudioError::InputUnavailable => "No audio loaded"@,
            AudioError::ChunkOutOfRange => "Chunk index out of range"@,
            AudioError::InvalidSelection => "Invalid selection range"@,
        }
    }

    /// The words in which the error is told to a user.
    pub fn message(&self) -> (text: String)
        ensures
            text@ == self.message_spec(),
    {
        match self {
            AudioError::InputUnavailable => "No audio loaded".to_owned(),
            AudioError::ChunkOutOfRange => "Chunk index out of range".to_owned(),
            AudioError::InvalidSelection => "Invalid selection range".to_owned(),
        }
    }
}

} // verus!
