//! What the store asks its surroundings to do, and what they answer.
//!
//! The store itself touches no file. Its operations are machines that name the next thing to
//! be done to the store's directory, and go on when they are told how it went.

use vstd::prelude::*;
use crate::error::StoreError;

verus! {

/// Something to be done to the store's directory. All names are names of files in it.
#[derive(Debug)]
pub enum Request<'a> {
    /// Create the directory, with its parents, unless it is there.
    CreateDir,
    /// Start to list the directory.
    OpenDir,
    /// Give the next entry of the listing.
    NextEntry,
    /// Open this file to append to it through a buffer, and create it unless it is there. It
    /// becomes the journal that the requests below speak of.
    OpenJournal { name: Vec<u8> },
    /// Read the whole of a snapshot.
    ReadSnapshot { name: Vec<u8> },
    /// Read the whole of a journal.
    ReadJournal { name: Vec<u8> },
    /// Append to the journal, through its buffer.
    Append { bytes: &'a [u8] },
    /// Write the buffer of the journal to its file.
    Flush,
    /// Have the journal file written to the disk.
    Sync,
    /// Write these bytes to the start of this file, which is created unless it is there, and
    /// have it written to the disk.
    WriteSnapshot { name: Vec<u8>, bytes: &'a [u8] },
}

/// How a request went.
#[derive(Debug)]
pub enum Reply {
    /// It is done, and there is nothing more to say.
    Done,
    /// The name of the next entry; `None` if there are no more.
    Entry(Option<Vec<u8>>),
    /// What the file holds.
    Contents(Vec<u8>),
    /// It could not be done.
    Failed(std::io::Error),
}

/// A [Request] as contracts see it.
#[verifier::ext_equal]
pub enum RequestView {
    CreateDir,
    OpenDir,
    NextEntry,
    OpenJournal { name: Seq<u8> },
    ReadSnapshot { name: Seq<u8> },
    ReadJournal { name: Seq<u8> },
    Append { bytes: Seq<u8> },
    Flush,
    Sync,
    WriteSnapshot { name: Seq<u8>, bytes: Seq<u8> },
}

/// A [Reply] as contracts see it.
#[verifier::ext_equal]
pub enum ReplyView {
    Done,
    Entry(Option<Seq<u8>>),
    Contents(Seq<u8>),
    Failed(std::io::Error),
}

impl<'a> View for Request<'a> {
    type V = RequestView;

    open spec fn view(&self) -> RequestView {
        match self {
            Request::CreateDir => RequestView::CreateDir,
            Request::OpenDir => RequestView::OpenDir,
            Request::NextEntry => RequestView::NextEntry,
            Request::OpenJournal { name } => RequestView::OpenJournal { name: name@ },
            Request::ReadSnapshot { name } => RequestView::ReadSnapshot { name: name@ },
            Request::ReadJournal { name } => RequestView::ReadJournal { name: name@ },
            Request::Append { bytes } => RequestView::Append { bytes: bytes@ },
            Request::Flush => RequestView::Flush,
            Request::Sync => RequestView::Sync,
            Request::WriteSnapshot { name, bytes } => RequestView::WriteSnapshot {
                name: name@,
                bytes: bytes@,
            },
        }
    }
}

impl View for Reply {
    type V = ReplyView;

    open spec fn view(&self) -> ReplyView {
        match self {
            Reply::Done => ReplyView::Done,
            Reply::Entry(Some(name)) => ReplyView::Entry(Some(name@)),
            Reply::Entry(None) => ReplyView::Entry(None),
            Reply::Contents(bytes) => ReplyView::Contents(bytes@),
            Reply::Failed(error) => ReplyView::Failed(*error),
        }
    }
}

/// A request, if there is one, as contracts see it.
pub open spec fn asked(request: Option<Request>) -> Option<RequestView> {
    match request {
        Some(request) => Some(request@),
        None => None,
    }
}

impl RequestView {
    /// Is `reply` of the kind that this request is answered with?
    pub open spec fn answered_by(self, reply: ReplyView) -> bool {
        match self {
            RequestView::NextEntry => reply is Entry || reply is Failed,
            RequestView::ReadSnapshot { .. } | RequestView::ReadJournal { .. } => reply is Contents
                || reply is Failed,
            _ => reply is Done || reply is Failed,
        }
    }

    /// The error of the store if this request fails with `error`.
    pub open spec fn failure<J, S>(self, error: std::io::Error) -> StoreError<J, S> {
        match self {
            RequestView::CreateDir => StoreError::FileIO(error),
            RequestView::ReadSnapshot { .. } | RequestView::WriteSnapshot { .. } => StoreError::SnapshotIO(
                error,
            ),
            _ => StoreError::JournalIO(error),
        }
    }
}

impl<'a> Request<'a> {
    /// Is `reply` of the kind that this request is answered with?
    pub fn answered_by(&self, reply: &Reply) -> (answer: bool)
        ensures
            answer == self@.answered_by(reply@),
    {
        match reply {
            Reply::Failed(_) => true,
            Reply::Entry(_) => matches!(self, Request::NextEntry),
            Reply::Contents(_) => matches!(self, Request::ReadSnapshot { .. } | Request::ReadJournal { .. }),
            Reply::Done => !matches!(
                self,
                Request::NextEntry | Request::ReadSnapshot { .. } | Request::ReadJournal { .. }
            ),
        }
    }

    /// The error of the store if this request fails with `error`.
    pub fn failure<J, S>(&self, error: std::io::Error) -> (failure: StoreError<J, S>)
        ensures
            failure == self@.failure::<J, S>(error),
    {
        match self {
            Request::CreateDir => StoreError::FileIO(error),
            Request::ReadSnapshot { .. } | Request::WriteSnapshot { .. } => StoreError::SnapshotIO(error),
            _ => StoreError::JournalIO(error),
        }
    }
}

} // verus!
