//! Options of a store.

use std::time::Duration;
use vstd::prelude::*;

verus! {

/// A number that is not zero.
#[derive(Debug, Clone, Copy, PartialEq, Eq)]
pub struct NonZeroUsize {
    value: usize,
}

impl View for NonZeroUsize {
    type V = nat;

    closed spec fn view(&self) -> nat {
        self.value as nat
    }
}

impl NonZeroUsize {
    #[verifier::type_invariant]
    spec fn is_not_zero(self) -> bool {
        self.value > 0
    }

    /// The number `value`, unless it is zero.
    pub fn new(value: usize) -> (number: Option<Self>)
        ensures
            match number {
                Some(number) => value > 0 && number@ == value,
                None => value == 0,
            },
    {
        if value > 0 {
            Some(NonZeroUsize { value })
        } else {
            None
        }
    }

    /// The number as an ordinary integer.
    pub fn get(self) -> (value: usize)
        ensures
            value == self@,
            value > 0,
    {
        proof {
            use_type_invariant(&self);
        }
        self.value
    }
}

/// How transactions get from the buffer to the journal file.
#[derive(Debug, Clone, Copy, PartialEq, Eq, Structural)]
pub enum JournalFlushMethod {
    /// Flushes the data and syncs the file. Slowest, but most durable.
    FlushAndSync,
    /// Flushes the data. Faster, but less durable in case of a system crash.
    Flush,
}

/// When transactions get from the buffer to the journal file.
#[derive(Debug, Clone, Copy)]
pub enum JournalFlushPolicy {
    /// With every commit. Slowest, but safest.
    EveryCommit { journal_flush_method: JournalFlushMethod },
    /// From time to time. Transactions committed in between may be lost in a crash.
    Every { duration: Duration, journal_flush_method: JournalFlushMethod },
    /// When the owner of the store asks for it.
    Manually,
}

/// How a store works.
#[derive(Debug, Clone)]
pub struct StoreOptions {
    max_journal_entries: NonZeroUsize,
    journal_flush_policy: JournalFlushPolicy,
    flush_synchronously_on_drop: bool,
}

/// [StoreOptions] as contracts see them.
pub struct OptionsView {
    pub max_journal_entries: nat,
    pub journal_flush_policy: JournalFlushPolicy,
    pub flush_synchronously_on_drop: bool,
}

impl View for StoreOptions {
    type V = OptionsView;

    closed spec fn view(&self) -> OptionsView {
        OptionsView {
            max_journal_entries: self.max_journal_entries@,
            journal_flush_policy: self.journal_flush_policy,
            flush_synchronously_on_drop: self.flush_synchronously_on_drop,
        }
    }
}

impl OptionsView {
    /// Has the journal to be flushed when the data goes away? Never if every commit flushes it
    /// anyway.
    pub open spec fn flushes_on_drop(self) -> bool {
        self.flush_synchronously_on_drop && !(self.journal_flush_policy is EveryCommit)
    }

    /// How a commit flushes the journal, if it does.
    pub open spec fn commit_flush(self) -> Option<JournalFlushMethod> {
        match self.journal_flush_policy {
            JournalFlushPolicy::EveryCommit { journal_flush_method } => Some(journal_flush_method),
            _ => None,
        }
    }

    /// How often, and how, the journal is flushed in the background, if it is.
    pub open spec fn background_flush(self) -> Option<(Duration, JournalFlushMethod)> {
        match self.journal_flush_policy {
            JournalFlushPolicy::Every { duration, journal_flush_method } => Some(
                (duration, journal_flush_method),
            ),
            _ => None,
        }
    }
}

impl StoreOptions {
    /// Maximal amount of persisted transactions in a journal file before a snapshot is created
    /// and a new journal file.
    pub fn max_journal_entries(self, value: NonZeroUsize) -> (options: Self)
        ensures
            options@ == (OptionsView { max_journal_entries: value@, ..self@ }),
    {
        StoreOptions { max_journal_entries: value, ..self }
    }

    /// Dictates when transactions are saved to the journal file.
    pub fn journal_flush_policy(self, value: JournalFlushPolicy) -> (options: Self)
        ensures
            options@ == (OptionsView { journal_flush_policy: value, ..self@ }),
    {
        StoreOptions { journal_flush_policy: value, ..self }
    }

    /// Should the journal be flushed and synced when the store goes away? Has no effect with
    /// [JournalFlushPolicy::EveryCommit].
    pub fn flush_synchronously_on_drop(self, value: bool) -> (options: Self)
        ensures
            options@ == (OptionsView { flush_synchronously_on_drop: value, ..self@ }),
    {
        StoreOptions { flush_synchronously_on_drop: value, ..self }
    }

    /// Has the journal to be flushed and synced when the store goes away?
    pub fn can_flush_synchronously_on_drop(&self) -> (answer: bool)
        ensures
            answer == self@.flushes_on_drop(),
    {
        self.flush_synchronously_on_drop && !matches!(
            self.journal_flush_policy,
            JournalFlushPolicy::EveryCommit { .. }
        )
    }

    /// How many transactions a journal file takes.
    pub fn journal_capacity(&self) -> (entries: usize)
        ensures
            entries == self@.max_journal_entries,
            entries > 0,
    {
        self.max_journal_entries.get()
    }

    /// How a commit flushes the journal, if it does.
    pub fn commit_flush(&self) -> (method: Option<JournalFlushMethod>)
        ensures
            method == self@.commit_flush(),
    {
        match self.journal_flush_policy {
            JournalFlushPolicy::EveryCommit { journal_flush_method } => Some(journal_flush_method),
            _ => None,
        }
    }

    /// How often, and how, the journal is flushed in the background, if it is.
    pub fn background_flush(&self) -> (flush: Option<(Duration, JournalFlushMethod)>)
        ensures
            flush == self@.background_flush(),
    {
        match self.journal_flush_policy {
            JournalFlushPolicy::Every { duration, journal_flush_method } => Some(
                (duration, journal_flush_method),
            ),
            _ => None,
        }
    }
}

impl Default for StoreOptions {
    /// Flushes and syncs the journal with every commit, and takes 65535 transactions into a
    /// journal file.
    fn default() -> (options: Self)
        ensures
            options@ == (OptionsView {
                max_journal_entries: 65535,
                journal_flush_policy: JournalFlushPolicy::EveryCommit {
                    journal_flush_method: JournalFlushMethod::FlushAndSync,
                },
                flush_synchronously_on_drop: true,
            }),
    {
        StoreOptions {
            max_journal_entries: NonZeroUsize { value: 65535 },
            journal_flush_policy: JournalFlushPolicy::EveryCommit {
                journal_flush_method: JournalFlushMethod::FlushAndSync,
            },
            flush_synchronously_on_drop: true,
        }
    }
}

} // verus!
