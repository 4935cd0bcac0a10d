//! The journal: transactions, one after the other, in the order in which they were committed.

use vstd::prelude::*;
use crate::error::{StoreError, StoreResult};
use crate::options::JournalFlushMethod;
use crate::request::{Reply, ReplyView, Request, RequestView};
use crate::serializer::Serializer;

verus! {

/// The journal file that is being written.
#[derive(Debug)]
pub struct JournalFile {
    written_entries: usize,
}

impl View for JournalFile {
    type V = nat;

    /// How many entries were written to the file.
    closed spec fn view(&self) -> nat {
        self.written_entries as nat
    }
}

/// May `txs` be what a serializer decodes from the front of `bytes`? What is left before each
/// of them, and behind the last, is `lefts`.
pub open spec fn reads<T, S: Serializer<T>>(
    serializer: S,
    bytes: Seq<u8>,
    txs: Seq<T>,
    lefts: Seq<Seq<u8>>,
) -> bool {
    &&& lefts.len() == txs.len() + 1
    &&& lefts[0] == bytes
    &&& forall|i: int|
        0 <= i < txs.len() ==> serializer.decodes(lefts[i], Ok(Some(#[trigger] txs[i])), lefts[i + 1])
}

/// May `txs` be what a serializer decodes from the front of `bytes` until the outcome is `end`?
pub open spec fn reads_until<T, S: Serializer<T>>(
    serializer: S,
    bytes: Seq<u8>,
    txs: Seq<T>,
    lefts: Seq<Seq<u8>>,
    end: Result<Option<T>, S::Error>,
    rest: Seq<u8>,
) -> bool {
    &&& reads(serializer, bytes, txs, lefts)
    &&& serializer.decodes(lefts[txs.len() as int], end, rest)
}

/// May `txs` be all the transactions of the journal `bytes`, up to where the serializer finds no
/// more?
pub open spec fn holds<T, S: Serializer<T>>(serializer: S, bytes: Seq<u8>, txs: Seq<T>) -> bool {
    exists|lefts: Seq<Seq<u8>>, rest: Seq<u8>| reads_until(serializer, bytes, txs, lefts, Ok(None), rest)
}

/// May the serializer refuse an entry of the journal `bytes`, having decoded those before it?
pub open spec fn refuses<T, S: Serializer<T>>(serializer: S, bytes: Seq<u8>, error: S::Error) -> bool {
    exists|txs: Seq<T>, lefts: Seq<Seq<u8>>, rest: Seq<u8>|
        reads_until(serializer, bytes, txs, lefts, Err(error), rest)
}

/// May parsing the journal `bytes` have this outcome?
pub open spec fn parses<T, S: Serializer<T>>(serializer: S, bytes: Seq<u8>, outcome: Result<Seq<T>, S::Error>) -> bool {
    match outcome {
        Ok(txs) => holds(serializer, bytes, txs),
        Err(error) => refuses::<T, S>(serializer, bytes, error),
    }
}

/// The journal is being written to its file.
#[derive(Debug, Clone, Copy, PartialEq, Eq, Structural)]
pub enum Persist {
    /// The buffer is being flushed, and the file is to be synced then or not.
    Flushing { then_sync: bool },
    /// The file is being synced.
    Syncing,
    /// All is done.
    Persisted,
}

impl Persist {
    /// What has to be done next.
    pub open spec fn spec_request(self) -> Option<RequestView> {
        match self {
            Persist::Flushing { .. } => Some(RequestView::Flush),
            Persist::Syncing => Some(RequestView::Sync),
            Persist::Persisted => None,
        }
    }

    /// Where it goes on once that is done.
    pub open spec fn next(self) -> Persist {
        match self {
            Persist::Flushing { then_sync: true } => Persist::Syncing,
            _ => Persist::Persisted,
        }
    }

    /// How many requests are left.
    pub open spec fn steps_left(self) -> nat {
        match self {
            Persist::Flushing { then_sync: true } => 2,
            Persist::Flushing { then_sync: false } => 1,
            Persist::Syncing => 1,
            Persist::Persisted => 0,
        }
    }

    /// What has to be done next; `None` if nothing has.
    pub fn request<'a>(&self) -> (request: Option<Request<'a>>)
        ensures
            crate::request::asked(request) == self.spec_request(),
    {
        match self {
            Persist::Flushing { .. } => Some(Request::Flush),
            Persist::Syncing => Some(Request::Sync),
            Persist::Persisted => None,
        }
    }

    /// Goes on with what the last request was answered.
    pub fn resume<J, S>(self, reply: Reply) -> (outcome: StoreResult<Persist, J, S>)
        ensures
            match reply@ {
                ReplyView::Failed(error) => outcome == Err::<Persist, StoreError<J, S>>(
                    StoreError::JournalIO(error),
                ),
                _ => outcome == Ok::<Persist, StoreError<J, S>>(self.next()),
            },
    {
        match reply {
            Reply::Failed(error) => Err(StoreError::JournalIO(error)),
            _ => match self {
                Persist::Flushing { then_sync } => if then_sync {
                    Ok(Persist::Syncing)
                } else {
                    Ok(Persist::Persisted)
                },
                _ => Ok(Persist::Persisted),
            },
        }
    }
}

impl JournalFile {
    /// The way to flush the journal that a method stands for.
    pub open spec fn spec_persist(method: JournalFlushMethod) -> Persist {
        match method {
            JournalFlushMethod::FlushAndSync => Persist::Flushing { then_sync: true },
            JournalFlushMethod::Flush => Persist::Flushing { then_sync: false },
        }
    }

    /// A journal file that was just opened, and holds this many entries.
    pub fn open(written_entries: usize) -> (journal: Self)
        ensures
            journal@ == written_entries,
    {
        JournalFile { written_entries }
    }

    /// How many entries were written to the file.
    pub fn written_entries(&self) -> (entries: usize)
        ensures
            entries == self@,
    {
        self.written_entries
    }

    /// Counts an entry that was appended.
    pub fn append(&mut self)
        requires
            old(self)@ < usize::MAX,
        ensures
            final(self)@ == old(self)@ + 1,
    {
        self.written_entries = self.written_entries + 1;
    }

    /// Flushes the buffer of the journal.
    pub fn flush(&self) -> (persist: Persist)
        ensures
            persist == (Persist::Flushing { then_sync: false }),
    {
        Persist::Flushing { then_sync: false }
    }

    /// Flushes the buffer of the journal, then syncs its file.
    pub fn flush_and_sync(&self) -> (persist: Persist)
        ensures
            persist == (Persist::Flushing { then_sync: true }),
    {
        Persist::Flushing { then_sync: true }
    }

    /// Flushes the journal by the given method.
    pub fn persist(&self, flush_method: JournalFlushMethod) -> (persist: Persist)
        ensures
            persist == Self::spec_persist(flush_method),
    {
        match flush_method {
            JournalFlushMethod::FlushAndSync => self.flush_and_sync(),
            JournalFlushMethod::Flush => self.flush(),
        }
    }

    /// Decodes the transactions of a journal.
    pub fn parse<T, S: Serializer<T>, E>(serializer: &S, buf: &[u8]) -> (outcome: StoreResult<Vec<T>, S::Error, E>)
        ensures
            match outcome {
                Ok(txs) => parses(*serializer, buf@, Ok(txs@)),
                Err(StoreError::DecodeJournalEntry(error)) => parses(
                    *serializer,
                    buf@,
                    Err::<Seq<T>, S::Error>(error),
                ),
                Err(_) => false,
            },
    {
        let mut cursor: &[u8] = buf;
        let mut transactions: Vec<T> = Vec::new();
        let ghost mut lefts: Seq<Seq<u8>> = seq![buf@];
        loop
            invariant
                reads(*serializer, buf@, transactions@, lefts),
                lefts[transactions@.len() as int] == cursor@,
            decreases cursor@.len(),
        {
            let ghost before = lefts;
            let ghost found = transactions@;
            match serializer.deserialize(&mut cursor) {
                Ok(Some(tx)) => {
                    transactions.push(tx);
                    proof {
                        lefts = lefts.push(cursor@);
                        assert forall|i: int| 0 <= i < transactions@.len() implies serializer.decodes(
                            lefts[i],
                            Ok(Some(#[trigger] transactions@[i])),
                            lefts[i + 1],
                        ) by {
                            if i < found.len() {
                                assert(serializer.decodes(before[i], Ok(Some(found[i])), before[i + 1]));
                            }
                        }
                    }
                },
                Ok(None) => {
                    assert(reads_until(*serializer, buf@, transactions@, lefts, Ok(None), cursor@));
                    return Ok(transactions);
                },
                Err(error) => {
                    assert(reads_until(*serializer, buf@, transactions@, lefts, Err(error), cursor@));
                    return Err(StoreError::DecodeJournalEntry(error));
                },
            }
        }
    }
}

} // verus!
