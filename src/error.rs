use vstd::prelude::*;

verus! {

/// Why a record could not be taken.
#[derive(Debug)]
pub enum ShardError {
    /// A record could not be encoded.
    Csv(csv::Error),
    /// An output file could not be created or written.
    IO(std::io::Error),
    /// The record needs a new file, but its key has used up every file number.
    SequenceExhausted,
}

impl From<csv::Error> for ShardError {
    fn from(e: csv::Error) -> (r: ShardError)
        ensures
            r == ShardError::Csv(e),
    {
        ShardError::Csv(e)
    }
}

impl vstd::std_specs::convert::FromSpecImpl<csv::Error> for ShardError {
    open spec fn obeys_from_spec() -> bool {
        true
    }

    open spec fn from_spec(e: csv::Error) -> ShardError {
        ShardError::Csv(e)
    }
}

impl From<std::io::Error> for ShardError {
    fn from(e: std::io::Error) -> (r: ShardError)
        ensures
            r == ShardError::IO(e),
    {
        ShardError::IO(e)
    }
}

impl vstd::std_specs::convert::FromSpecImpl<std::io::Error> for ShardError {
    open spec fn obeys_from_spec() -> bool {
        true
    }

    open spec fn from_spec(e: std::io::Error) -> ShardError {
        ShardError::IO(e)
    }
}

} // verus!
