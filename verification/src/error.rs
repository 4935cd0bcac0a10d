//! What can go wrong in a store.

use vstd::prelude::*;

verus! {

/// `std::io::Error`, which is handed through to the caller as it came from the outside.
/// Nothing is claimed of it.
#[verifier::external_type_specification]
#[verifier::external_body]
pub struct ExIoError(std::io::Error);

/// Why a snapshot could not be read back.
#[derive(Debug)]
pub enum DecodeError<E> {
    /// The serializer refused it.
    Serializer(E),
    /// The serializer found no data in it.
    Corrupted,
}

/// An error of the store. `J` is the serializer's error for journal entries, `S` the one for
/// snapshots.
#[derive(Debug)]
pub enum StoreError<J, S> {
    /// A transaction could not be encoded.
    EncodeJournalEntry(J),
    /// An entry of a journal could not be decoded.
    DecodeJournalEntry(J),
    /// The data could not be encoded for a snapshot.
    EncodeSnapshot(S),
    /// A snapshot could not be decoded. Once it is removed, the data is rebuilt from the
    /// journals.
    DecodeSnapshot(DecodeError<S>),
    /// Access to a journal failed.
    JournalIO(std::io::Error),
    /// Access to a snapshot failed.
    SnapshotIO(std::io::Error),
    /// Access to the directory failed.
    FileIO(std::io::Error),
    /// A file in the directory has a name whose stem, which is given, is no version.
    JournalInvalidFileName(Option<Vec<u8>>),
    /// The store lost its data in an operation that failed and has not reloaded it yet.
    StatePoisoned,
}

/// Result of an operation of the store.
pub type StoreResult<R, J, S> = Result<R, StoreError<J, S>>;

impl<J, S> StoreError<J, S> {
    /// Does the error blame a file name with this stem?
    pub open spec fn blames_name(self, stem: Option<Seq<u8>>) -> bool {
        match self {
            StoreError::JournalInvalidFileName(Some(text)) => stem == Some(text@),
            StoreError::JournalInvalidFileName(None) => stem is None,
            _ => false,
        }
    }
}

} // verus!
