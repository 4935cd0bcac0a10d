//! The store: how a transaction gets into the journal and to the data.

use std::marker::PhantomData;
use std::time::Duration;
use vstd::prelude::*;
use crate::error::{StoreError, StoreResult};
use crate::journal::{JournalFile, Persist};
use crate::names;
use crate::names::{file_name, FileKind};
use crate::options::{JournalFlushMethod, OptionsView, StoreOptions};
use crate::persistent;
use crate::persistent::{Load, LoadView, PersistentData, PersistentView};
use crate::request::{Reply, ReplyView, Request, RequestView};
use crate::serializer::Serializer;
use crate::tx::Tx;

verus! {

/// What a store is made of besides its data: a serializer and options.
///
/// The data is with the caller, in an `Option<PersistentData<D>>` that is `None` while it is
/// not loaded, or lost in an operation that failed.
#[derive(Debug)]
pub struct Store<D, T, S> {
    serializer: S,
    options: StoreOptions,
    _phantom: PhantomData<(D, T)>,
}

/// The data of a store, if it is loaded, as contracts see it.
pub open spec fn held<D>(holder: Option<PersistentData<D>>) -> Option<PersistentView<D>> {
    match holder {
        Some(persistent) => Some(persistent@),
        None => None,
    }
}

/// What a query gets.
#[derive(Debug)]
pub enum Query<'a, D> {
    /// The data.
    Data(&'a D),
    /// The data is not loaded. This has to be done first.
    Reload(Load<D>),
}

/// May `tx` be what `tx_query` is wrapped into?
pub open spec fn wraps<Q: Into<T>, T>(tx_query: Q, tx: T) -> bool {
    call_ensures(<Q as Into<T>>::into, (tx_query,), tx)
}

/// May `tx_query` be what was wrapped into `tx`?
pub open spec fn unwraps<Q: From<T>, T>(tx: T, tx_query: Q) -> bool {
    call_ensures(<Q as From<T>>::from, (tx,), tx_query)
}

/// May wrapping `tx_query` and encoding it fail with `error`?
pub open spec fn encoding_fails<Q: Into<T>, T, S: Serializer<T>>(serializer: S, tx_query: Q, error: S::Error) -> bool {
    exists|tx: T| #[trigger] wraps(tx_query, tx) && serializer.encodes(tx, Err(error))
}

/// A transaction on its way into the journal and to the data.
#[derive(Debug)]
pub struct Commit<D, T> {
    tx: T,
    entry: Vec<u8>,
    stage: Stage<D>,
}

#[derive(Debug)]
enum Stage<D> {
    Encoded,
    Loading { load: Load<D> },
    Sealing { persistent: PersistentData<D>, persist: Persist },
    Snapshotting { persistent: PersistentData<D>, bytes: Vec<u8> },
    Opening { persistent: PersistentData<D> },
    Appending { persistent: PersistentData<D> },
    Persisting { persistent: PersistentData<D>, persist: Persist },
    Persisted { persistent: PersistentData<D> },
}

/// Where a commit is, as contracts see it.
#[verifier::ext_equal]
pub enum StageView<D> {
    /// The transaction is encoded. Nothing was done with it yet.
    Encoded,
    /// The data is being loaded.
    Loading { load: LoadView<D> },
    /// The journal is full and is being written to the disk.
    Sealing { persistent: PersistentView<D>, persist: Persist },
    /// A snapshot with these bytes is being written.
    Snapshotting { persistent: PersistentView<D>, bytes: Seq<u8> },
    /// The new journal is being opened.
    Opening { persistent: PersistentView<D> },
    /// The entry is being appended to the journal.
    Appending { persistent: PersistentView<D> },
    /// The journal is being flushed.
    Persisting { persistent: PersistentView<D>, persist: Persist },
    /// The entry is in the journal. The transaction can be executed.
    Persisted { persistent: PersistentView<D> },
}

/// [Commit] as contracts see it.
#[verifier::ext_equal]
pub struct CommitView<D, T> {
    /// The transaction, wrapped.
    pub tx: T,
    /// Its entry in the journal.
    pub entry: Seq<u8>,
    /// Where the commit is.
    pub stage: StageView<D>,
}

impl<D> Stage<D> {
    spec fn view(self) -> StageView<D> {
        match self {
            Stage::Encoded => StageView::Encoded,
            Stage::Loading { load } => StageView::Loading { load: load@ },
            Stage::Sealing { persistent, persist } => StageView::Sealing {
                persistent: persistent@,
                persist,
            },
            Stage::Snapshotting { persistent, bytes } => StageView::Snapshotting {
                persistent: persistent@,
                bytes: bytes@,
            },
            Stage::Opening { persistent } => StageView::Opening { persistent: persistent@ },
            Stage::Appending { persistent } => StageView::Appending { persistent: persistent@ },
            Stage::Persisting { persistent, persist } => StageView::Persisting {
                persistent: persistent@,
                persist,
            },
            Stage::Persisted { persistent } => StageView::Persisted { persistent: persistent@ },
        }
    }

    /// Is there something to be done as long as the data is being loaded or flushed, and can an
    /// entry still be counted when it is appended?
    spec fn is_sound(self) -> bool {
        match self {
            Stage::Loading { load } => !load@.is_loaded(),
            Stage::Sealing { persist, .. } => !(persist is Persisted),
            Stage::Appending { persistent } => persistent@.written_entries < usize::MAX,
            Stage::Persisting { persist, .. } => !(persist is Persisted),
            _ => true,
        }
    }
}

impl<D, T> View for Commit<D, T> {
    type V = CommitView<D, T>;

    closed spec fn view(&self) -> CommitView<D, T> {
        CommitView { tx: self.tx, entry: self.entry@, stage: self.stage.view() }
    }
}

impl<D> StageView<D> {
    /// What has to be done to the journal if the commit is given up.
    pub open spec fn spec_on_drop(self) -> Option<Persist> {
        match self {
            StageView::Encoded => None,
            StageView::Loading { load } => match load {
                LoadView::Read { persistent, .. } => persistent.spec_on_drop(),
                _ => None,
            },
            StageView::Sealing { persistent, .. } => persistent.spec_on_drop(),
            StageView::Snapshotting { persistent, .. } => persistent.spec_on_drop(),
            StageView::Opening { persistent } => persistent.spec_on_drop(),
            StageView::Appending { persistent } => persistent.spec_on_drop(),
            StageView::Persisting { persistent, .. } => persistent.spec_on_drop(),
            StageView::Persisted { persistent } => persistent.spec_on_drop(),
        }
    }

    /// Where a commit goes once the data is there: to a new journal if the old one is full.
    pub open spec fn prepared(persistent: PersistentView<D>, options: OptionsView) -> StageView<D> {
        if persistent.written_entries >= options.max_journal_entries {
            StageView::Sealing { persistent, persist: Persist::Flushing { then_sync: true } }
        } else {
            StageView::Appending { persistent }
        }
    }
}

impl<D, T> CommitView<D, T> {
    /// What has to be done next; `None` if it is the caller's turn.
    pub open spec fn request(self) -> Option<RequestView> {
        match self.stage {
            StageView::Encoded => None,
            StageView::Loading { load } => load.request(),
            StageView::Sealing { persist, .. } => persist.spec_request(),
            StageView::Snapshotting { persistent, bytes } => Some(
                RequestView::WriteSnapshot {
                    name: names::spec_file_name(FileKind::Snapshot, persistent.next_snapshot_version),
                    bytes,
                },
            ),
            StageView::Opening { persistent } => Some(
                RequestView::OpenJournal {
                    name: names::spec_file_name(FileKind::Journal, persistent.next_snapshot_version),
                },
            ),
            StageView::Appending { .. } => Some(RequestView::Append { bytes: self.entry }),
            StageView::Persisting { persist, .. } => persist.spec_request(),
            StageView::Persisted { .. } => None,
        }
    }

    /// Can the commit go on with `reply`? It has to answer the request. And when a snapshot was
    /// written, or the directory listed, there has to be a version behind it.
    pub open spec fn accepts(self, reply: ReplyView) -> bool {
        match self.stage {
            StageView::Loading { load } => load.accepts(reply),
            StageView::Snapshotting { persistent, .. } => (reply is Done || reply is Failed) && (reply is Done
                ==> persistent.next_snapshot_version < u32::MAX),
            _ => self.request() matches Some(request) && request.answered_by(reply),
        }
    }

    /// The same transaction at another stage.
    pub open spec fn at(self, stage: StageView<D>) -> CommitView<D, T> {
        CommitView { stage, ..self }
    }
}

/// May the stage `after` come next, once the data is loaded as far as `load` says?
pub open spec fn load_goes_on<D>(load: LoadView<D>, options: OptionsView, after: StageView<D>) -> bool {
    if load.is_loaded() {
        load matches LoadView::Read { persistent, .. } && after == StageView::prepared(persistent, options)
    } else {
        after == (StageView::Loading { load })
    }
}

/// May a step of loading lead to the stage `after`?
pub open spec fn loading_leads_to<D: Default, T: Tx<D>, S: Serializer<D> + Serializer<T>>(
    serializer: S,
    options: OptionsView,
    before: LoadView<D>,
    reply: ReplyView,
    after: StageView<D>,
) -> bool {
    exists|load: LoadView<D>| #[trigger]
        persistent::load_step::<D, T, S>(serializer, before, reply, Ok(load)) && load_goes_on(
            load,
            options,
            after,
        )
}

/// May a commit go on from `before`, with this reply, to this outcome?
///
/// A failed request ends it with the error of that request. Else the data is loaded, if need
/// be; a full journal is flushed and synced, a snapshot of the data is encoded and written, and
/// a new journal is opened; the entry is appended; and the journal is flushed if every commit
/// has to do so.
pub open spec fn commit_step<D: Default, T: Tx<D>, S: Serializer<D> + Serializer<T>>(
    serializer: S,
    options: OptionsView,
    before: CommitView<D, T>,
    reply: ReplyView,
    outcome: Result<CommitView<D, T>, StoreError<<S as Serializer<T>>::Error, <S as Serializer<D>>::Error>>,
) -> bool {
    match before.stage {
        StageView::Loading { load } => match outcome {
            Ok(after) => after == before.at(after.stage) && loading_leads_to::<D, T, S>(
                serializer,
                options,
                load,
                reply,
                after.stage,
            ),
            Err(error) => persistent::load_step::<D, T, S>(serializer, load, reply, Err(error)),
        },
        _ => match reply {
            ReplyView::Failed(error) => before.request() matches Some(request) && outcome == Err::<
                CommitView<D, T>,
                _,
            >(request.failure::<<S as Serializer<T>>::Error, <S as Serializer<D>>::Error>(error)),
            _ => match before.stage {
                StageView::Sealing { persistent, persist } => match persist.next() {
                    Persist::Persisted => match outcome {
                        Ok(after) => after.stage matches StageView::Snapshotting { persistent: same, bytes }
                            && same == persistent && after == before.at(after.stage) && serializer.encodes(
                            persistent.data,
                            Ok(bytes),
                        ),
                        Err(StoreError::EncodeSnapshot(error)) => serializer.encodes(persistent.data, Err(error)),
                        Err(_) => false,
                    },
                    next => outcome matches Ok(after) && after == before.at(
                        StageView::Sealing { persistent, persist: next },
                    ),
                },
                StageView::Snapshotting { persistent, .. } => outcome matches Ok(after) && after == before.at(
                    StageView::Opening {
                        persistent: PersistentView {
                            next_snapshot_version: (persistent.next_snapshot_version + 1) as u32,
                            ..persistent
                        },
                    },
                ),
                StageView::Opening { persistent } => outcome matches Ok(after) && after == before.at(
                    StageView::Appending { persistent: PersistentView { written_entries: 0, ..persistent } },
                ),
                StageView::Appending { persistent } => outcome matches Ok(after) && {
                    let appended = PersistentView {
                        written_entries: persistent.written_entries + 1,
                        ..persistent
                    };
                    after == before.at(
                        match options.commit_flush() {
                            Some(method) => StageView::Persisting {
                                persistent: appended,
                                persist: JournalFile::spec_persist(method),
                            },
                            None => StageView::Persisted { persistent: appended },
                        },
                    )
                },
                StageView::Persisting { persistent, persist } => outcome matches Ok(after) && after == before.at(
                    match persist.next() {
                        Persist::Persisted => StageView::Persisted { persistent },
                        next => StageView::Persisting { persistent, persist: next },
                    },
                ),
                _ => false,
            },
        },
    }
}

/// The outcome of a step of a commit, as contracts see it.
pub open spec fn step_view<D, T, J, S>(outcome: StoreResult<Commit<D, T>, J, S>) -> StoreResult<
    CommitView<D, T>,
    J,
    S,
> {
    match outcome {
        Ok(commit) => Ok(commit@),
        Err(error) => Err(error),
    }
}

/// May executing what was wrapped into `tx` turn the data `before` into `after` and answer
/// `result`?
pub open spec fn executes<D, T, Q: Tx<D, R> + From<T>, R>(tx: T, before: D, after: D, result: R) -> bool {
    exists|tx_query: Q| #[trigger] unwraps(tx, tx_query) && tx_query.turns(before, after, result)
}

impl<D, T, S> Store<D, T, S> {
    /// The serializer.
    pub closed spec fn serializer(self) -> S {
        self.serializer
    }

    /// The options.
    pub closed spec fn options(self) -> OptionsView {
        self.options@
    }

    /// Opens a store. The data has to be loaded before it is of use.
    pub fn open(serializer: S, options: StoreOptions) -> (opened: (Self, Load<D>))
        ensures
            opened.0.serializer() == serializer,
            opened.0.options() == options@,
            opened.1@ == (LoadView::<D>::CreateDir { flush_on_drop: options@.flushes_on_drop() }),
    {
        let store = Store { serializer, options, _phantom: PhantomData };
        let load = store.load_persistent_data();
        (store, load)
    }

    /// Starts to load the data from the store's directory.
    pub fn load_persistent_data(&self) -> (load: Load<D>)
        ensures
            load@ == (LoadView::<D>::CreateDir { flush_on_drop: self.options().flushes_on_drop() }),
    {
        PersistentData::load(self.options.can_flush_synchronously_on_drop())
    }

    /// How often, and how, the journal has to be flushed in the background, if it has.
    pub fn flusher(&self) -> (flush: Option<(Duration, JournalFlushMethod)>)
        ensures
            flush == self.options().background_flush(),
    {
        self.options.background_flush()
    }

    /// What the background task has to do when its time has come: flush the journal by the
    /// given method, if there is one.
    pub fn background_flush(
        holder: &Option<PersistentData<D>>,
        journal_flush_method: JournalFlushMethod,
    ) -> (persist: Option<Persist>)
        ensures
            persist == if held(*holder) is Some {
                Some(JournalFile::spec_persist(journal_flush_method))
            } else {
                None
            },
    {
        match holder {
            Some(persistent) => Some(persistent.journal().persist(journal_flush_method)),
            None => None,
        }
    }

    /// The data, for reading; or what has to be done to have it.
    pub fn query<'a>(&self, holder: &'a Option<PersistentData<D>>) -> (query: Query<'a, D>)
        ensures
            match held(*holder) {
                Some(persistent) => query matches Query::Data(data) && *data == persistent.data,
                None => query matches Query::Reload(load) && load@ == (LoadView::<D>::CreateDir {
                    flush_on_drop: self.options().flushes_on_drop(),
                }),
            },
    {
        match holder {
            Some(persistent) => Query::Data(persistent.data()),
            None => Query::Reload(self.load_persistent_data()),
        }
    }

    /// Flushes the buffered transactions to the journal file. Faster than
    /// [Store::flush_and_sync], but less durable in case of a system crash.
    pub fn flush<J, E>(&self, holder: &Option<PersistentData<D>>) -> (outcome: StoreResult<Persist, J, E>)
        ensures
            outcome == if held(*holder) is Some {
                Ok(Persist::Flushing { then_sync: false })
            } else {
                Err(StoreError::<J, E>::StatePoisoned)
            },
    {
        match holder {
            Some(persistent) => Ok(persistent.journal().flush()),
            None => Err(StoreError::StatePoisoned),
        }
    }

    /// Flushes the buffered transactions to the journal file, and syncs it.
    pub fn flush_and_sync<J, E>(&self, holder: &Option<PersistentData<D>>) -> (outcome: StoreResult<Persist, J, E>)
        ensures
            outcome == if held(*holder) is Some {
                Ok(Persist::Flushing { then_sync: true })
            } else {
                Err(StoreError::<J, E>::StatePoisoned)
            },
    {
        match holder {
            Some(persistent) => Ok(persistent.journal().flush_and_sync()),
            None => Err(StoreError::StatePoisoned),
        }
    }
}

impl<D, T, S> Store<D, T, S> where D: Default, T: Tx<D>, S: Serializer<D> + Serializer<T> {
    /// Goes on to load the data with what the last request was answered.
    pub fn resume_load(&self, load: Load<D>, reply: Reply) -> (outcome: StoreResult<
        Load<D>,
        <S as Serializer<T>>::Error,
        <S as Serializer<D>>::Error,
    >)
        requires
            load@.accepts(reply@),
        ensures
            persistent::load_step::<D, T, S>(
                self.serializer(),
                load@,
                reply@,
                persistent::step_view(outcome),
            ),
    {
        load.resume::<T, S>(&self.serializer, reply)
    }

    /// Wraps a transaction and encodes it. This does not touch the data.
    pub fn commit<Q, R>(&self, tx_query: Q) -> (outcome: StoreResult<
        Commit<D, T>,
        <S as Serializer<T>>::Error,
        <S as Serializer<D>>::Error,
    >) where Q: Tx<D, R> + Into<T> + From<T>
        ensures
            match outcome {
                Ok(commit) => {
                    &&& commit@.stage == StageView::<D>::Encoded
                    &&& wraps(tx_query, commit@.tx)
                    &&& self.serializer().encodes(commit@.tx, Ok(commit@.entry))
                },
                Err(StoreError::EncodeJournalEntry(error)) => encoding_fails::<Q, T, S>(
                    self.serializer(),
                    tx_query,
                    error,
                ),
                Err(_) => false,
            },
    {
        let tx: T = tx_query.into();
        assert(wraps(tx_query, tx));
        match self.serializer.serialize(&tx) {
            Ok(entry) => Ok(Commit { tx, entry, stage: Stage::Encoded }),
            Err(error) => Err(StoreError::EncodeJournalEntry(error)),
        }
    }

    /// Decides whether the journal takes another entry.
    fn writable_journal(&self, persistent: PersistentData<D>) -> (stage: Stage<D>)
        ensures
            stage.view() == StageView::prepared(persistent@, self.options()),
            stage.is_sound(),
    {
        if persistent.written_entries() >= self.options.journal_capacity() {
            let persist = persistent.journal().flush_and_sync();
            Stage::Sealing { persistent, persist }
        } else {
            Stage::Appending { persistent }
        }
    }
}

impl<D, T> Commit<D, T> {
    #[verifier::type_invariant]
    spec fn is_sound(self) -> bool {
        self.stage.is_sound()
    }

    /// What has to be done next; `None` if it is the caller's turn: to [Commit::begin], or to
    /// [Commit::finish].
    pub fn request(&self) -> (request: Option<Request<'_>>)
        ensures
            crate::request::asked(request) == self@.request(),
            request is None ==> self@.stage is Encoded || self@.stage is Persisted,
    {
        proof {
            use_type_invariant(self);
        }
        match &self.stage {
            Stage::Encoded => None,
            Stage::Loading { load } => load.request(),
            Stage::Sealing { persist, .. } => persist.request(),
            Stage::Snapshotting { persistent, bytes } => Some(
                Request::WriteSnapshot {
                    name: file_name(FileKind::Snapshot, persistent.next_snapshot_version()),
                    bytes: bytes.as_slice(),
                },
            ),
            Stage::Opening { persistent } => Some(
                Request::OpenJournal {
                    name: file_name(FileKind::Journal, persistent.next_snapshot_version()),
                },
            ),
            Stage::Appending { .. } => Some(Request::Append { bytes: self.entry.as_slice() }),
            Stage::Persisting { persist, .. } => persist.request(),
            Stage::Persisted { .. } => None,
        }
    }

    /// Is the entry in the journal, so that the commit can be finished?
    pub fn is_persisted(&self) -> (answer: bool)
        ensures
            answer == (self@.stage is Persisted),
    {
        matches!(self.stage, Stage::Persisted { .. })
    }

    /// What has to be done to the journal if the commit is given up, which includes that it
    /// fails.
    pub fn on_drop(&self) -> (persist: Option<Persist>)
        ensures
            persist == self@.stage.spec_on_drop(),
    {
        match &self.stage {
            Stage::Encoded => None,
            Stage::Loading { load } => load.on_drop(),
            Stage::Sealing { persistent, .. } => persistent.on_drop(),
            Stage::Snapshotting { persistent, .. } => persistent.on_drop(),
            Stage::Opening { persistent } => persistent.on_drop(),
            Stage::Appending { persistent } => persistent.on_drop(),
            Stage::Persisting { persistent, .. } => persistent.on_drop(),
            Stage::Persisted { persistent } => persistent.on_drop(),
        }
    }

    /// Can the commit go on with `reply`? It has to answer the request. And when a snapshot was
    /// written, or the directory listed, there has to be a version behind it.
    pub fn accepts(&self, reply: &Reply) -> (answer: bool)
        ensures
            answer == self@.accepts(reply@),
    {
        match &self.stage {
            Stage::Loading { load } => load.accepts(reply),
            Stage::Snapshotting { persistent, .. } => match reply {
                Reply::Done => persistent.next_snapshot_version() < u32::MAX,
                Reply::Failed(_) => true,
                _ => false,
            },
            _ => match self.request() {
                Some(request) => request.answered_by(reply),
                None => false,
            },
        }
    }

    /// Takes the data out of the store, where it is missed until the commit is finished. If it
    /// is missing already it is loaded first.
    pub fn begin<S>(self, store: &Store<D, T, S>, holder: &mut Option<PersistentData<D>>) -> (commit: Self)
        where D: Default, T: Tx<D>, S: Serializer<D> + Serializer<T>
        requires
            self@.stage is Encoded,
        ensures
            *final(holder) is None,
            commit@ == self@.at(
                match held(*old(holder)) {
                    Some(persistent) => StageView::prepared(persistent, store.options()),
                    None => StageView::Loading {
                        load: LoadView::CreateDir { flush_on_drop: store.options().flushes_on_drop() },
                    },
                },
            ),
    {
        let stage = match holder.take() {
            Some(persistent) => store.writable_journal(persistent),
            None => Stage::Loading { load: store.load_persistent_data() },
        };
        Commit { tx: self.tx, entry: self.entry, stage }
    }

    /// Goes on with what the last request was answered.
    pub fn resume<S>(self, store: &Store<D, T, S>, reply: Reply) -> (outcome: StoreResult<
        Commit<D, T>,
        <S as Serializer<T>>::Error,
        <S as Serializer<D>>::Error,
    >) where D: Default, T: Tx<D>, S: Serializer<D> + Serializer<T>
        requires
            self@.accepts(reply@),
        ensures
            commit_step::<D, T, S>(store.serializer(), store.options(), self@, reply@, step_view(outcome)),
    {
        proof {
            use_type_invariant(&self);
        }
        let ghost before = self@;
        if let Reply::Failed(error) = reply {
            if let Stage::Loading { load } = self.stage {
                return match load.resume::<T, S>(&store.serializer, Reply::Failed(error)) {
                    Ok(_) => vstd::pervasive::unreached(),
                    Err(error) => Err(error),
                };
            }
            return match self.request() {
                Some(request) => Err(request.failure(error)),
                None => vstd::pervasive::unreached(),
            };
        }
        let stage = match self.stage {
            Stage::Loading { load } => {
                let ghost at = load@;
                match load.resume::<T, S>(&store.serializer, reply) {
                    Ok(load) => {
                        assert(persistent::load_step::<D, T, S>(store.serializer(), at, reply@, Ok(load@)));
                        if load.is_loaded() {
                            store.writable_journal(load.into_persistent())
                        } else {
                            Stage::Loading { load }
                        }
                    },
                    Err(error) => return Err(error),
                }
            },
            Stage::Sealing { persistent, persist } => match persist.resume(reply) {
                Ok(Persist::Persisted) => match persistent.snapshot(&store.serializer) {
                    Ok(bytes) => Stage::Snapshotting { persistent, bytes },
                    Err(error) => return Err(error),
                },
                Ok(persist) => Stage::Sealing { persistent, persist },
                Err(error) => return Err(error),
            },
            Stage::Snapshotting { persistent, .. } => {
                let mut persistent = persistent;
                persistent.snapshot_written();
                Stage::Opening { persistent }
            },
            Stage::Opening { persistent } => {
                let mut persistent = persistent;
                persistent.journal_opened();
                Stage::Appending { persistent }
            },
            Stage::Appending { persistent } => {
                let mut persistent = persistent;
                persistent.entry_appended();
                match store.options.commit_flush() {
                    Some(method) => {
                        let persist = persistent.journal().persist(method);
                        Stage::Persisting { persistent, persist }
                    },
                    None => Stage::Persisted { persistent },
                }
            },
            Stage::Persisting { persistent, persist } => match persist.resume(reply) {
                Ok(Persist::Persisted) => Stage::Persisted { persistent },
                Ok(persist) => Stage::Persisting { persistent, persist },
                Err(error) => return Err(error),
            },
            _ => vstd::pervasive::unreached(),
        };
        Ok(Commit { tx: self.tx, entry: self.entry, stage })
    }

    /// Executes the transaction, which is in the journal now, and puts the data back into the
    /// store. `Q` is what the transaction is unwrapped to: the type that was committed.
    pub fn finish<Q, R>(self, holder: &mut Option<PersistentData<D>>) -> (result: R) where Q: Tx<D, R> + From<T>
        requires
            self@.stage is Persisted,
        ensures
            match (self@.stage, held(*final(holder))) {
                (StageView::Persisted { persistent }, Some(after)) => after == (PersistentView {
                    data: after.data,
                    ..persistent
                }) && executes::<D, T, Q, R>(self@.tx, persistent.data, after.data, result),
                _ => false,
            },
    {
        match self.stage {
            Stage::Persisted { persistent } => {
                let mut persistent = persistent;
                let tx_query = Q::from(self.tx);
                assert(unwraps(self.tx, tx_query));
                let result = persistent.execute(tx_query);
                *holder = Some(persistent);
                result
            },
            _ => vstd::pervasive::unreached(),
        }
    }
}

/// Does the commit go by what the data was at its start, `first`? A journal that has room is
/// written on, and one that is full is followed by the next, which is new.
pub open spec fn is_on_course<D, T>(first: PersistentView<D>, options: OptionsView, commit: CommitView<D, T>) -> bool {
    let full = first.written_entries >= options.max_journal_entries;
    let next = PersistentView { next_snapshot_version: (first.next_snapshot_version + 1) as u32, ..first };
    let ready = if full {
        PersistentView { written_entries: 0, ..next }
    } else {
        first
    };
    let appended = PersistentView { written_entries: ready.written_entries + 1, ..ready };
    match commit.stage {
        StageView::Encoded | StageView::Loading { .. } => false,
        StageView::Sealing { persistent, .. } => full && persistent == first,
        StageView::Snapshotting { persistent, .. } => full && persistent == first,
        StageView::Opening { persistent } => full && persistent == next,
        StageView::Appending { persistent } => persistent == ready,
        StageView::Persisting { persistent, .. } => persistent == appended,
        StageView::Persisted { persistent } => persistent == appended,
    }
}

/// A commit goes by what the data was when it got it, and stays on that course.
pub proof fn commits_stay_on_course<D: Default, T: Tx<D>, S: Serializer<D> + Serializer<T>>(
    serializer: S,
    options: OptionsView,
    first: PersistentView<D>,
    before: CommitView<D, T>,
    reply: ReplyView,
    after: CommitView<D, T>,
)
    requires
        before.accepts(reply),
        commit_step::<D, T, S>(serializer, options, before, reply, Ok(after)),
    ensures
        is_on_course(first, options, before.at(StageView::prepared(first, options))),
        is_on_course(first, options, before) ==> is_on_course(first, options, after),
{
}

/// A commit leaves the data itself alone until it is finished, and adds one entry to a journal
/// that has room for it: behind it, the journal has no more entries than the options allow,
/// those included that it had before it was opened. The version goes up by one if the journal
/// was full, and stays if not.
pub proof fn journals_have_a_capacity<D, T>(
    options: OptionsView,
    first: PersistentView<D>,
    commit: CommitView<D, T>,
    persistent: PersistentView<D>,
)
    requires
        options.max_journal_entries > 0,
        first.next_snapshot_version < u32::MAX,
        is_on_course(first, options, commit),
        commit.stage == (StageView::Persisted { persistent }),
    ensures
        persistent.data == first.data,
        0 < persistent.written_entries <= options.max_journal_entries,
        first.written_entries < options.max_journal_entries ==> persistent.written_entries == first.written_entries
            + 1 && persistent.next_snapshot_version == first.next_snapshot_version,
        first.written_entries >= options.max_journal_entries ==> persistent.written_entries == 1
            && persistent.next_snapshot_version == first.next_snapshot_version + 1,
{
}

/// How many requests a commit still makes once the data is there.
pub open spec fn steps_left<D>(options: OptionsView, stage: StageView<D>) -> nat {
    let persisting: nat = match options.commit_flush() {
        Some(JournalFlushMethod::FlushAndSync) => 2,
        Some(JournalFlushMethod::Flush) => 1,
        None => 0,
    };
    match stage {
        StageView::Encoded | StageView::Loading { .. } | StageView::Persisted { .. } => 0,
        StageView::Sealing { persist, .. } => persist.steps_left() + 3 + persisting,
        StageView::Snapshotting { .. } => 3 + persisting,
        StageView::Opening { .. } => 2 + persisting,
        StageView::Appending { .. } => 1 + persisting,
        StageView::Persisting { persist, .. } => persist.steps_left(),
    }
}

/// Once the data is there, a commit comes to its end: with every request that is done, one less
/// is left, and when none is, the entry is in the journal.
pub proof fn commits_come_to_an_end<D: Default, T: Tx<D>, S: Serializer<D> + Serializer<T>>(
    serializer: S,
    options: OptionsView,
    before: CommitView<D, T>,
    after: CommitView<D, T>,
)
    requires
        !(before.stage is Loading),
        before.accepts(ReplyView::Done),
        commit_step::<D, T, S>(serializer, options, before, ReplyView::Done, Ok(after)),
    ensures
        steps_left(options, before.stage) == steps_left(options, after.stage) + 1,
        steps_left(options, after.stage) == 0 ==> after.stage is Persisted,
{
}

/// Does wrapping a transaction and unwrapping it give it back?
pub open spec fn is_given_back<T, Q: Into<T> + From<T>>(tx_query: Q) -> bool {
    forall|tx: T, back: Q| #[trigger] wraps(tx_query, tx) && #[trigger] unwraps(tx, back) ==> back == tx_query
}

/// What is executed when a commit is finished is the very transaction that was committed.
pub proof fn the_committed_transaction_is_executed<D, T, Q: Tx<D, R> + Into<T> + From<T>, R>(
    tx_query: Q,
    tx: T,
    before: D,
    after: D,
    result: R,
)
    requires
        is_given_back::<T, Q>(tx_query),
        wraps(tx_query, tx),
        executes::<D, T, Q, R>(tx, before, after, result),
    ensures
        tx_query.turns(before, after, result),
{
}

} // verus!
