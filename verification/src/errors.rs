//! What can go wrong in the index.

use vstd::prelude::*;

verus! {

/// Which kind of component a run of bytes failed to be.
#[derive(Clone, Copy, Debug, PartialEq, Eq, Structural)]
pub enum DecodeError {
    /// Not the encoding of a 32-bit unsigned integer.
    Integer,
    /// Not the encoding of a time bucket.
    Bucket,
    /// Not the encoding of an index name.
    Text,
}

#[derive(Clone, Copy, Debug, PartialEq, Eq)]
pub enum IndexError {
    /// Bytes that should hold a component do not.
    Serialization(DecodeError),
    /// The store reported a failure.
    Wasm(&'static str),
    /// The tree or a path does not have the shape the index builds.
    InternalError(&'static str),
    /// The caller asked for something the index cannot serve.
    RequestError(&'static str),
}

pub type IndexResult<T> = Result<T, IndexError>;

pub const MSG_EMPTY_PATH: &'static str = "Cannot get Index from empty path";

pub const MSG_NO_NAME: &'static str = "Expected at least one path element";

pub const MSG_NO_YEAR: &'static str = "Expected at least two elements to convert to DateTime";

pub const MSG_NO_CHILDREN: &'static str = "Could not find any time paths for path";

pub const MSG_SHORT_CHILD: &'static str = "Expected a time component below the searched path";

pub const MSG_PATH_LENGTH: &'static str = "Expected path to be length 2-7";

pub const MSG_OVERFLOW: &'static str = "Should not overflow";

pub const MSG_NAME_TOO_LONG: &'static str = "Index name is too long to encode";

pub const MSG_SMALL_FRAME: &'static str = "Time frame is smaller than index interval";

pub const MSG_FUTURE: &'static str = "Time index cannot start in the future";

pub const MSG_PERIOD: &'static str =
    "Time index should use period equal to max interval set by DNA";

pub const MSG_ORDERING: &'static str = "Time index does not follow index interval ordering";

pub const MSG_GRAPH_FULL: &'static str = "Search graph cannot hold more nodes";

pub const MSG_NO_NODE: &'static str = "Search graph has no such node";

pub const MSG_ENTRY_TIME: &'static str = "Entry time is not a time of the calendar";

pub const MSG_NO_GENESIS: &'static str =
    "Time chunk cannot be created until gensis chunk has been created";

pub const MSG_GENESIS_ORDERING: &'static str =
    "Time chunk does not follow chunk interval ordering since genesis";

pub const MSG_NO_ENTRY: &'static str = "Expected link target to contain point to an entry";

impl IndexError {
    /// The text that describes this error to a caller.
    pub fn message(&self) -> (r: &'static str)
        ensures
            r == match *self {
                IndexError::Serialization(DecodeError::Integer) => "Bytes do not hold a time index",
                IndexError::Serialization(DecodeError::Bucket) => "Bytes do not hold an index",
                IndexError::Serialization(DecodeError::Text) => "Bytes do not hold an index name",
                IndexError::Wasm(m) => m,
                IndexError::InternalError(m) => m,
                IndexError::RequestError(m) => m,
            },
    {
        match *self {
            IndexError::Serialization(DecodeError::Integer) => "Bytes do not hold a time index",
            IndexError::Serialization(DecodeError::Bucket) => "Bytes do not hold an index",
            IndexError::Serialization(DecodeError::Text) => "Bytes do not hold an index name",
            IndexError::Wasm(m) => m,
            IndexError::InternalError(m) => m,
            IndexError::RequestError(m) => m,
        }
    }
}

} // verus!
