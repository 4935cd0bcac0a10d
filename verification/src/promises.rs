//! What the operations of a store promise, said of their inputs and results.

use std::time::Duration;
use vstd::prelude::*;
use crate::action;
use crate::action::ActionView;
use crate::directory;
use crate::durability;
use crate::durability::Disk;
use crate::error::{DecodeError, StoreError, StoreResult};
use crate::journal;
use crate::journal::{JournalFile, Persist};
use crate::lifetime;
use crate::names;
use crate::names::{FileKind, SnapshotVersion};
use crate::options::{JournalFlushMethod, JournalFlushPolicy, NonZeroUsize, OptionsView, StoreOptions};
use crate::persistent;
use crate::persistent::{Load, LoadView, PersistentData, PersistentView};
use crate::recovery;
use crate::reopening;
use crate::request::{Reply, ReplyView, Request, RequestView};
use crate::serializer::Serializer;
use crate::store;
use crate::store::{Commit, CommitView, Query, StageView, Store};
use crate::tx;
use crate::tx::Tx;

verus! {

/// Every policy but [JournalFlushPolicy::Manually] has the journal persisted by its method: by
/// every commit, or in the background; and no policy has both. The other options do not matter.
pub proof fn policies_say_when_the_journal_is_persisted(
    options: &StoreOptions,
    by_commit: Option<JournalFlushMethod>,
    in_background: Option<(Duration, JournalFlushMethod)>,
)
    requires
        call_ensures(StoreOptions::commit_flush, (options,), by_commit),
        call_ensures(StoreOptions::background_flush, (options,), in_background),
    ensures
        by_commit == options@.commit_flush(),
        in_background == options@.background_flush(),
        match options@.journal_flush_policy {
            JournalFlushPolicy::EveryCommit { journal_flush_method } => by_commit == Some(journal_flush_method)
                && in_background is None,
            JournalFlushPolicy::Every { duration, journal_flush_method } => by_commit is None && in_background
                == Some((duration, journal_flush_method)),
            JournalFlushPolicy::Manually => by_commit is None && in_background is None,
        },
{
}

/// Options with the same policy have the journal persisted in the same way, whatever else they
/// say.
pub proof fn only_the_policy_says_when_the_journal_is_persisted(one: OptionsView, other: OptionsView)
    requires
        one.journal_flush_policy == other.journal_flush_policy,
    ensures
        one.commit_flush() == other.commit_flush(),
        one.background_flush() == other.background_flush(),
        one.flush_synchronously_on_drop == other.flush_synchronously_on_drop ==> one.flushes_on_drop()
            == other.flushes_on_drop(),
        one.journal_flush_policy is EveryCommit ==> one.flushes_on_drop() == other.flushes_on_drop(),
{
}

/// A store has a background task if and only if its policy is [JournalFlushPolicy::Every], and the
/// task goes by the policy's duration and method.
pub proof fn the_flusher_goes_by_the_policy<D, T, S>(
    store: &Store<D, T, S>,
    flusher: Option<(Duration, JournalFlushMethod)>,
)
    requires
        call_ensures(Store::<D, T, S>::flusher, (store,), flusher),
    ensures
        match flusher {
            Some((duration, journal_flush_method)) => store.options().journal_flush_policy == (
            JournalFlushPolicy::Every { duration, journal_flush_method }),
            None => !(store.options().journal_flush_policy is Every),
        },
{
}

/// The journal is flushed when the store goes away if that option is set, but never if every
/// commit flushes.
pub proof fn every_commit_makes_flushing_on_drop_pointless(options: &StoreOptions, answer: bool)
    requires
        call_ensures(StoreOptions::can_flush_synchronously_on_drop, (options,), answer),
    ensures
        answer == options@.flushes_on_drop(),
        options@.journal_flush_policy is EveryCommit ==> !answer,
        !(options@.journal_flush_policy is EveryCommit) ==> answer == options@.flush_synchronously_on_drop,
{
}

/// What is set is what is asked for, and nothing else changes.
pub proof fn options_are_what_was_set(
    options: StoreOptions,
    number: usize,
    entries: NonZeroUsize,
    policy: JournalFlushPolicy,
    flag: bool,
    limited: StoreOptions,
    capacity: usize,
    timed: StoreOptions,
    flagged: StoreOptions,
)
    requires
        call_ensures(NonZeroUsize::new, (number,), Some(entries)),
        call_ensures(StoreOptions::max_journal_entries, (options, entries), limited),
        call_ensures(StoreOptions::journal_capacity, (&limited,), capacity),
        call_ensures(StoreOptions::journal_flush_policy, (options, policy), timed),
        call_ensures(StoreOptions::flush_synchronously_on_drop, (options, flag), flagged),
    ensures
        number > 0,
        capacity == number,
        limited@.max_journal_entries == number,
        limited@.journal_flush_policy == options@.journal_flush_policy,
        limited@.flush_synchronously_on_drop == options@.flush_synchronously_on_drop,
        timed@.max_journal_entries == options@.max_journal_entries,
        timed@.journal_flush_policy == policy,
        timed@.flush_synchronously_on_drop == options@.flush_synchronously_on_drop,
        flagged@.max_journal_entries == options@.max_journal_entries,
        flagged@.journal_flush_policy == options@.journal_flush_policy,
        flagged@.flush_synchronously_on_drop == flag,
{
}

/// A number of entries is refused if and only if it is zero.
pub proof fn only_zero_is_refused(number: usize, entries: Option<NonZeroUsize>, value: usize)
    requires
        call_ensures(NonZeroUsize::new, (number,), entries),
        entries matches Some(entries) ==> call_ensures(NonZeroUsize::get, (entries,), value),
    ensures
        entries is None <==> number == 0,
        entries is Some ==> value == number,
{
}

/// One step of flushing the journal: the buffer is flushed, then the file is synced, if it has to
/// be; an error of either is one of the journal.
pub proof fn flushing_goes_step_by_step<'a, J, S>(
    persist: Persist,
    request: Option<Request<'a>>,
    reply: Reply,
    outcome: StoreResult<Persist, J, S>,
)
    requires
        call_ensures(Persist::request, (&persist,), request),
        call_ensures(Persist::resume::<J, S>, (persist, reply), outcome),
    ensures
        persist is Flushing <==> request == Some(Request::<'a>::Flush),
        persist is Syncing <==> request == Some(Request::<'a>::Sync),
        persist is Persisted <==> request is None,
        match reply {
            Reply::Failed(error) => outcome == Err::<Persist, StoreError<J, S>>(StoreError::JournalIO(error)),
            _ => outcome == Ok::<Persist, StoreError<J, S>>(
                if persist == (Persist::Flushing { then_sync: true }) {
                    Persist::Syncing
                } else {
                    Persist::Persisted
                },
            ) && outcome == Ok::<Persist, StoreError<J, S>>(persist.next()),
        },
{
}

/// Flushing by either method leaves nothing in the buffer, and nothing else about the files
/// changes; [JournalFlushMethod::FlushAndSync] syncs the journal, and [JournalFlushMethod::Flush]
/// asks for nothing but the flush.
pub proof fn flushing_does_what_the_method_says(
    journal: &JournalFile,
    method: JournalFlushMethod,
    persist: Persist,
    persists: Seq<Persist>,
    disks: Seq<Disk>,
)
    requires
        call_ensures(JournalFile::persist, (journal, method), persist),
        lifetime::is_persist_run(persists, disks),
        persists[0] == persist,
        disks[0].files.contains_key(disks[0].journal),
    ensures
        disks.last().pending.len() == 0,
        disks.last().files == disks[0].flushed(),
        method == JournalFlushMethod::FlushAndSync ==> disks.last().synced && persists.len() == 3,
        method == JournalFlushMethod::Flush ==> persists.len() == 2,
{
    lifetime::lemma_persist_run(persists, disks, persists.len() - 1);
    durability::lemma_nothing_to_flush(disks.last());
    assert(lifetime::is_persist_run_step(persists[0], disks[0], persists[1], disks[1]));
    if persists.len() > 2 {
        assert(lifetime::is_persist_run_step(persists[1], disks[1], persists[2], disks[2]));
    }
    if persists.len() > 3 {
        assert(lifetime::is_persist_run_step(persists[2], disks[2], persists[3], disks[3]));
    }
}

/// The background task flushes by the method that it is given, if there is data.
pub proof fn the_background_task_flushes_by_its_method<D, T, S>(
    holder: &Option<PersistentData<D>>,
    method: JournalFlushMethod,
    persist: Option<Persist>,
    journal: &JournalFile,
    by_method: Persist,
)
    requires
        call_ensures(Store::<D, T, S>::background_flush, (holder, method), persist),
        call_ensures(JournalFile::persist, (journal, method), by_method),
    ensures
        *holder is Some ==> persist == Some(by_method) && by_method == (Persist::Flushing {
            then_sync: method == JournalFlushMethod::FlushAndSync,
        }),
        *holder is None ==> persist is None,
{
}

/// Flushing by hand leaves nothing in the buffer, and if it is to be synced, the journal is synced;
/// a store that lost its data refuses both.
pub proof fn flushing_by_hand_empties_the_buffer<D, T, S, J, E>(
    store: &Store<D, T, S>,
    holder: &Option<PersistentData<D>>,
    flush: StoreResult<Persist, J, E>,
    sync: StoreResult<Persist, J, E>,
    persists: Seq<Persist>,
    disks: Seq<Disk>,
)
    requires
        call_ensures(Store::<D, T, S>::flush::<J, E>, (store, holder), flush),
        call_ensures(Store::<D, T, S>::flush_and_sync::<J, E>, (store, holder), sync),
        lifetime::is_persist_run(persists, disks),
        disks[0].files.contains_key(disks[0].journal),
    ensures
        *holder is None ==> flush == Err::<Persist, StoreError<J, E>>(StoreError::StatePoisoned) && sync == Err::<
            Persist,
            StoreError<J, E>,
        >(StoreError::StatePoisoned),
        *holder is Some ==> flush is Ok && sync is Ok,
        flush matches Ok(persist) && persists[0] == persist ==> disks.last().pending.len() == 0 && disks.last().files
            == disks[0].flushed() && persists.len() == 2,
        sync matches Ok(persist) && persists[0] == persist ==> disks.last().pending.len() == 0 && disks.last().files
            == disks[0].flushed() && disks.last().synced,
{
    lifetime::lemma_persist_run(persists, disks, persists.len() - 1);
    if disks.last().pending.len() == 0 {
        durability::lemma_nothing_to_flush(disks.last());
    }
    if persists.len() > 1 {
        assert(lifetime::is_persist_run_step(persists[0], disks[0], persists[1], disks[1]));
    }
    if persists.len() > 2 {
        assert(lifetime::is_persist_run_step(persists[1], disks[1], persists[2], disks[2]));
    }
}

/// Has the journal to be flushed when the data that is being loaded goes away?
pub open spec fn flushes<D>(load: LoadView<D>) -> bool {
    match load {
        LoadView::CreateDir { flush_on_drop } => flush_on_drop,
        LoadView::OpenDir { flush_on_drop } => flush_on_drop,
        LoadView::NextEntry { flush_on_drop, .. } => flush_on_drop,
        LoadView::OpenJournal { flush_on_drop, .. } => flush_on_drop,
        LoadView::Read { persistent, .. } => persistent.flush_on_drop,
    }
}

proof fn lemma_loading_remembers<D: Default, T: Tx<D>, S: Serializer<D> + Serializer<T>>(
    serializer: S,
    files: directory::Files,
    loads: Seq<LoadView<D>>,
    replies: Seq<ReplyView>,
    i: int,
)
    requires
        recovery::is_load_run::<D, T, S>(serializer, files, loads, replies),
        0 <= i <= replies.len(),
    ensures
        flushes(loads[i]) == flushes(loads[0]),
    decreases i,
{
    if i > 0 {
        lemma_loading_remembers::<D, T, S>(serializer, files, loads, replies, i - 1);
        assert(recovery::is_load_run_step::<D, T, S>(
            serializer,
            files,
            loads[i - 1],
            loads[i],
            replies,
            i - 1,
        ));
    }
}

/// Data that is loaded for a store remembers whether it has to be flushed when it goes away: if
/// the option is set, and the policy is not that every commit flushes.
pub proof fn opened_stores_remember_whether_to_flush<D: Default, T: Tx<D>, S: Serializer<D> + Serializer<T>>(
    serializer: S,
    options: StoreOptions,
    opened: (Store<D, T, S>, Load<D>),
    reload: Load<D>,
    files: directory::Files,
    loads: Seq<LoadView<D>>,
    replies: Seq<ReplyView>,
    persistent: PersistentView<D>,
)
    requires
        call_ensures(Store::<D, T, S>::open, (serializer, options), opened),
        call_ensures(Store::<D, T, S>::load_persistent_data, (&opened.0,), reload),
        loads[0] == opened.1@ || loads[0] == reload@,
        recovery::is_load_run::<D, T, S>(serializer, files, loads, replies),
        loads.last() == (LoadView::Read { persistent, remaining: Seq::empty() }),
    ensures
        opened.0.serializer() == serializer,
        opened.0.options() == options@,
        opened.1@ is CreateDir,
        reload@ is CreateDir,
        persistent.flush_on_drop == (options@.flush_synchronously_on_drop && !(options@.journal_flush_policy
            is EveryCommit)),
{
    lemma_loading_remembers::<D, T, S>(serializer, files, loads, replies, replies.len() as int);
}

/// Data that goes away asks for the journal to be flushed and synced if it has to be, whatever
/// else it is: its data, its version, and how many entries there are do not matter.
pub proof fn data_that_goes_away_is_flushed_if_it_has_to_be<D>(
    data: &PersistentData<D>,
    asked: Option<Persist>,
    persists: Seq<Persist>,
    disks: Seq<Disk>,
)
    requires
        call_ensures(PersistentData::<D>::on_drop, (data,), asked),
        lifetime::is_persist_run(persists, disks),
        asked == Some(persists[0]),
        disks[0].files.contains_key(disks[0].journal),
    ensures
        data@.flush_on_drop,
        disks.last().pending.len() == 0,
        disks.last().files == disks[0].flushed(),
        disks.last().synced,
{
    lifetime::lemma_persist_run(persists, disks, persists.len() - 1);
    durability::lemma_nothing_to_flush(disks.last());
}

/// Data that has to be flushed asks for it, and other data for nothing, when it goes away: alone,
/// while it is being loaded, or while a commit is under way.
pub proof fn flushing_is_asked_for_at_every_stage<D, T>(
    data: &PersistentData<D>,
    by_data: Option<Persist>,
    load: &Load<D>,
    by_load: Option<Persist>,
    options: OptionsView,
    first: PersistentView<D>,
    commit: &Commit<D, T>,
    by_commit: Option<Persist>,
)
    requires
        call_ensures(PersistentData::<D>::on_drop, (data,), by_data),
        call_ensures(Load::<D>::on_drop, (load,), by_load),
        call_ensures(Commit::<D, T>::on_drop, (commit,), by_commit),
    ensures
        by_data == if data@.flush_on_drop {
            Some(Persist::Flushing { then_sync: true })
        } else {
            None
        },
        by_load == if load@ is Read && flushes(load@) {
            Some(Persist::Flushing { then_sync: true })
        } else {
            None
        },
        store::is_on_course(first, options, commit@) ==> by_commit == if first.flush_on_drop {
            Some(Persist::Flushing { then_sync: true })
        } else {
            None
        },
        commit@.stage matches StageView::Loading { load } ==> by_commit == if load is Read && flushes(load) {
            Some(Persist::Flushing { then_sync: true })
        } else {
            None
        },
        commit@.stage is Encoded ==> by_commit is None,
{
}

/// Wrapping and encoding a transaction does nothing to it but that.
pub proof fn committing_wraps_and_encodes<D, T, S, Q, R>(
    store: &Store<D, T, S>,
    tx_query: Q,
    outcome: StoreResult<Commit<D, T>, <S as Serializer<T>>::Error, <S as Serializer<D>>::Error>,
) where D: Default, T: Tx<D>, S: Serializer<D> + Serializer<T>, Q: Tx<D, R> + Into<T> + From<T>
    requires
        call_ensures(Store::<D, T, S>::commit::<Q, R>, (store, tx_query), outcome),
    ensures
        match outcome {
            Ok(commit) => {
                &&& commit@.stage is Encoded
                &&& call_ensures(<Q as Into<T>>::into, (tx_query,), commit@.tx)
                &&& store.serializer().encodes(commit@.tx, Ok(commit@.entry))
            },
            Err(StoreError::EncodeJournalEntry(error)) => exists|tx: T| #[trigger]
                call_ensures(<Q as Into<T>>::into, (tx_query,), tx) && store.serializer().encodes(tx, Err(error)),
            Err(_) => false,
        },
{
    if let Err(StoreError::EncodeJournalEntry(error)) = outcome {
        let tx = choose|tx: T| #[trigger]
            store::wraps(tx_query, tx) && store.serializer().encodes(tx, Err(error));
        assert(call_ensures(<Q as Into<T>>::into, (tx_query,), tx));
    }
}

/// A commit that begins takes the data out of the store. It goes to a new journal if and only if
/// the current one has as many entries as it may have, and loads the data if it is lost.
pub proof fn beginning_a_commit_takes_the_data<D, T, S>(
    commit: Commit<D, T>,
    store: &Store<D, T, S>,
    before: Option<PersistentData<D>>,
    after: Option<PersistentData<D>>,
    begun: Commit<D, T>,
) where D: Default, T: Tx<D>, S: Serializer<D> + Serializer<T>
    requires
        commit@.stage is Encoded,
        exists|holder: &mut Option<PersistentData<D>>| #[trigger]
            call_ensures(Commit::<D, T>::begin::<S>, (commit, store, holder), begun) && *holder == before
                && *final(holder) == after,
    ensures
        after is None,
        begun@.tx == commit@.tx,
        begun@.entry == commit@.entry,
        match before {
            Some(data) => if data@.written_entries < store.options().max_journal_entries {
                begun@.stage == (StageView::Appending { persistent: data@ })
            } else {
                begun@.stage == (StageView::Sealing {
                    persistent: data@,
                    persist: Persist::Flushing { then_sync: true },
                })
            },
            None => begun@.stage matches StageView::Loading { load: LoadView::CreateDir { flush_on_drop } }
                && flush_on_drop == (store.options().flush_synchronously_on_drop
                && !(store.options().journal_flush_policy is EveryCommit)),
        },
{
}

/// A commit that is finished executes the transaction that was committed, on the data as it was,
/// hands out its result, and puts the data back.
pub proof fn finishing_a_commit_executes_it<D, T, Q: Tx<D, R> + Into<T> + From<T>, R>(
    tx_query: Q,
    commit: Commit<D, T>,
    persistent: PersistentView<D>,
    before: Option<PersistentData<D>>,
    after: Option<PersistentData<D>>,
    result: R,
)
    requires
        commit@.stage == (StageView::Persisted { persistent }),
        call_ensures(<Q as Into<T>>::into, (tx_query,), commit@.tx),
        forall|back: Q| #[trigger]
            call_ensures(<Q as From<T>>::from, (commit@.tx,), back) ==> back == tx_query,
        exists|holder: &mut Option<PersistentData<D>>| #[trigger]
            call_ensures(Commit::<D, T>::finish::<Q, R>, (commit, holder), result) && *holder == before
                && *final(holder) == after,
    ensures
        after matches Some(data) && tx_query.turns(persistent.data, data@.data, result)
            && data@.next_snapshot_version == persistent.next_snapshot_version && data@.written_entries
            == persistent.written_entries && data@.flush_on_drop == persistent.flush_on_drop,
{
}

/// What a commit asks for at each stage. It asks for nothing only before it begins, and when its
/// entry is in the journal.
pub proof fn commits_ask_for_what_they_need<'a, D, T>(
    commit: &'a Commit<D, T>,
    request: Option<Request<'a>>,
    snapshot: Vec<u8>,
    journal: Vec<u8>,
    version: SnapshotVersion,
)
    requires
        call_ensures(Commit::<D, T>::request, (commit,), request),
        call_ensures(names::file_name, (FileKind::Snapshot, version), snapshot),
        call_ensures(names::file_name, (FileKind::Journal, version), journal),
    ensures
        match commit@.stage {
            StageView::Encoded => request is None,
            StageView::Loading { load } => request is Some && crate::request::asked(request) == load.request(),
            StageView::Sealing { persist, .. } => persist is Flushing && request == Some(Request::<'a>::Flush)
                || persist is Syncing && request == Some(Request::<'a>::Sync),
            StageView::Snapshotting { persistent, bytes } => request matches Some(
                Request::WriteSnapshot { name, bytes: written },
            ) && written@ == bytes && (persistent.next_snapshot_version == version ==> name@ == snapshot@),
            StageView::Opening { persistent } => request matches Some(Request::OpenJournal { name }) && (
            persistent.next_snapshot_version == version ==> name@ == journal@),
            StageView::Appending { .. } => request matches Some(Request::Append { bytes }) && bytes@ == commit@.entry,
            StageView::Persisting { persist, .. } => persist is Flushing && request == Some(Request::<'a>::Flush)
                || persist is Syncing && request == Some(Request::<'a>::Sync),
            StageView::Persisted { .. } => request is None,
        },
{
    let view = crate::request::asked(request);
    if let Some(request) = request {
        assert(view == Some(request@));
    }
}

/// A commit can go on with the word that its request is done, unless there is no version behind
/// the snapshot that was written; with the word that it failed, always; and with nothing else.
/// While the data is being loaded, it can go on with what loading can go on with.
pub proof fn commits_accept_what_answers_their_request<D, T>(commit: &Commit<D, T>, reply: &Reply, answer: bool)
    requires
        call_ensures(Commit::<D, T>::accepts, (commit, reply), answer),
    ensures
        answer == commit@.accepts(reply@),
        match commit@.stage {
            StageView::Encoded | StageView::Persisted { .. } => !answer,
            StageView::Loading { load } => answer == load.accepts(reply@),
            StageView::Snapshotting { persistent, .. } => answer == match reply {
                Reply::Done => persistent.next_snapshot_version < u32::MAX,
                Reply::Failed(_) => true,
                _ => false,
            },
            StageView::Sealing { persist, .. } | StageView::Persisting { persist, .. } => !(persist is Persisted)
                ==> answer == (reply is Done || reply is Failed),
            _ => answer == (reply is Done || reply is Failed),
        },
{
}

/// A commit is persisted when its entry is in the journal, and not before.
pub proof fn commits_are_persisted_at_their_end<D, T>(commit: &Commit<D, T>, answer: bool)
    requires
        call_ensures(Commit::<D, T>::is_persisted, (commit,), answer),
    ensures
        answer == (commit@.stage is Persisted),
{
}

/// A request that fails is an error of the directory, if it was to be created; of a snapshot, if
/// one was to be read or written; and of a journal in all other cases.
pub proof fn failures_are_named_after_their_request<'a, J, S>(
    request: &Request<'a>,
    error: std::io::Error,
    failure: StoreError<J, S>,
)
    requires
        call_ensures(Request::<'a>::failure::<J, S>, (request, error), failure),
    ensures
        match request {
            Request::CreateDir => failure == StoreError::<J, S>::FileIO(error),
            Request::ReadSnapshot { .. } | Request::WriteSnapshot { .. } => failure == StoreError::<J, S>::SnapshotIO(
                error,
            ),
            _ => failure == StoreError::<J, S>::JournalIO(error),
        },
{
}

/// A store loads data as loading goes, with its own serializer.
pub proof fn stores_load_with_their_serializer<D, T, S>(
    store: &Store<D, T, S>,
    load: Load<D>,
    reply: Reply,
    outcome: StoreResult<Load<D>, <S as Serializer<T>>::Error, <S as Serializer<D>>::Error>,
) where D: Default, T: Tx<D>, S: Serializer<D> + Serializer<T>
    requires
        load@.accepts(reply@),
        call_ensures(Store::<D, T, S>::resume_load, (store, load, reply), outcome),
    ensures
        match outcome {
            Ok(after) => persistent::load_step::<D, T, S>(store.serializer(), load@, reply@, Ok(after@)),
            Err(error) => persistent::load_step::<D, T, S>(store.serializer(), load@, reply@, Err(error)),
        },
{
}

/// By default every commit flushes and syncs the journal, so that nothing has to be done in the
/// background or when the store goes away; but if another policy is set, the journal is flushed
/// when the store goes away.
pub proof fn stores_are_durable_by_default(options: StoreOptions, policy: JournalFlushPolicy, other: StoreOptions)
    requires
        call_ensures(StoreOptions::default, (), options),
        call_ensures(StoreOptions::journal_flush_policy, (options, policy), other),
    ensures
        options@.journal_flush_policy == (JournalFlushPolicy::EveryCommit {
            journal_flush_method: JournalFlushMethod::FlushAndSync,
        }),
        options@.commit_flush() == Some(JournalFlushMethod::FlushAndSync),
        options@.background_flush() is None,
        !options@.flushes_on_drop(),
        options@.max_journal_entries == 65535,
        !(policy is EveryCommit) ==> other@.flushes_on_drop(),
{
}

/// A request that fails ends a commit, with the error that it failed with, as one of the journal
/// or of the snapshot that it was about.
pub proof fn a_failed_request_ends_a_commit<'a, D, T, S>(
    commit: Commit<D, T>,
    store: &Store<D, T, S>,
    request: Request<'a>,
    error: std::io::Error,
    outcome: StoreResult<Commit<D, T>, <S as Serializer<T>>::Error, <S as Serializer<D>>::Error>,
) where D: Default, T: Tx<D>, S: Serializer<D> + Serializer<T>
    requires
        crate::request::asked(Some(request)) == commit@.request(),
        call_ensures(Commit::<D, T>::resume::<S>, (commit, store, Reply::Failed(error)), outcome),
    ensures
        match request {
            Request::CreateDir => outcome matches Err(StoreError::FileIO(same)) && same == error,
            Request::ReadSnapshot { .. } | Request::WriteSnapshot { .. } => outcome matches Err(
                StoreError::SnapshotIO(same),
            ) && same == error,
            _ => outcome matches Err(StoreError::JournalIO(same)) && same == error,
        },
{
}

/// The way of a commit: a full journal is flushed, synced and followed by a snapshot of the data
/// and a new journal; the entry is appended; and if the policy is that every commit flushes, the
/// journal is persisted by its method.
pub proof fn commits_go_their_way<D, T, S>(
    commit: Commit<D, T>,
    store: &Store<D, T, S>,
    outcome: StoreResult<Commit<D, T>, <S as Serializer<T>>::Error, <S as Serializer<D>>::Error>,
) where D: Default, T: Tx<D>, S: Serializer<D> + Serializer<T>
    requires
        !(commit@.stage is Loading),
        commit@.accepts(ReplyView::Done),
        call_ensures(Commit::<D, T>::resume::<S>, (commit, store, Reply::Done), outcome),
    ensures
        outcome matches Ok(after) ==> after@.tx == commit@.tx && after@.entry == commit@.entry,
        match commit@.stage {
            StageView::Sealing { persistent, persist: Persist::Flushing { then_sync: true } } => outcome matches Ok(
                after,
            ) && after@.stage == (StageView::Sealing { persistent, persist: Persist::Syncing }),
            StageView::Sealing { persistent, .. } => match outcome {
                Ok(after) => after@.stage matches StageView::Snapshotting { persistent: same, bytes } && same
                    == persistent && store.serializer().encodes(persistent.data, Ok(bytes)),
                Err(StoreError::EncodeSnapshot(error)) => store.serializer().encodes(persistent.data, Err(error)),
                Err(_) => false,
            },
            StageView::Snapshotting { persistent, .. } => outcome matches Ok(after) && after@.stage
                matches StageView::Opening { persistent: next } && next.data == persistent.data
                && next.next_snapshot_version == persistent.next_snapshot_version + 1 && next.written_entries
                == persistent.written_entries && next.flush_on_drop == persistent.flush_on_drop,
            StageView::Opening { persistent } => outcome matches Ok(after) && after@.stage
                matches StageView::Appending { persistent: next } && next.data == persistent.data
                && next.next_snapshot_version == persistent.next_snapshot_version && next.written_entries == 0
                && next.flush_on_drop == persistent.flush_on_drop,
            StageView::Appending { persistent } => outcome matches Ok(after) && match after@.stage {
                StageView::Persisting { persistent: next, persist } => {
                    &&& store.options().journal_flush_policy matches JournalFlushPolicy::EveryCommit {
                        journal_flush_method,
                    } && persist == (Persist::Flushing {
                        then_sync: journal_flush_method == JournalFlushMethod::FlushAndSync,
                    })
                    &&& next.data == persistent.data
                    &&& next.next_snapshot_version == persistent.next_snapshot_version
                    &&& next.written_entries == persistent.written_entries + 1
                    &&& next.flush_on_drop == persistent.flush_on_drop
                },
                StageView::Persisted { persistent: next } => {
                    &&& !(store.options().journal_flush_policy is EveryCommit)
                    &&& next.data == persistent.data
                    &&& next.next_snapshot_version == persistent.next_snapshot_version
                    &&& next.written_entries == persistent.written_entries + 1
                    &&& next.flush_on_drop == persistent.flush_on_drop
                },
                _ => false,
            },
            StageView::Persisting { persistent, persist: Persist::Flushing { then_sync: true } } => outcome matches Ok(
                after,
            ) && after@.stage == (StageView::Persisting { persistent, persist: Persist::Syncing }),
            StageView::Persisting { persistent, .. } => outcome matches Ok(after) && after@.stage == (
            StageView::Persisted { persistent }),
            _ => false,
        },
{
}

/// A commit whose data was lost loads it as an opened store does, and then goes to a new journal
/// if and only if the current one has as many entries as it may have.
pub proof fn commits_load_lost_data<D, T, S>(
    commit: Commit<D, T>,
    store: &Store<D, T, S>,
    load: LoadView<D>,
    reply: Reply,
    outcome: StoreResult<Commit<D, T>, <S as Serializer<T>>::Error, <S as Serializer<D>>::Error>,
) where D: Default, T: Tx<D>, S: Serializer<D> + Serializer<T>
    requires
        commit@.stage == (StageView::Loading { load }),
        commit@.accepts(reply@),
        call_ensures(Commit::<D, T>::resume::<S>, (commit, store, reply), outcome),
    ensures
        load.accepts(reply@),
        match outcome {
            Err(error) => persistent::load_step::<D, T, S>(store.serializer(), load, reply@, Err(error)),
            Ok(after) => after@.tx == commit@.tx && after@.entry == commit@.entry && match after@.stage {
                StageView::Loading { load: next } => {
                    &&& persistent::load_step::<D, T, S>(store.serializer(), load, reply@, Ok(next))
                    &&& next matches LoadView::Read { remaining, .. } ==> remaining.len() > 0
                },
                StageView::Appending { persistent } => {
                    &&& persistent.written_entries < store.options().max_journal_entries
                    &&& persistent::load_step::<D, T, S>(
                        store.serializer(),
                        load,
                        reply@,
                        Ok(LoadView::Read { persistent, remaining: Seq::empty() }),
                    )
                },
                StageView::Sealing { persistent, persist } => {
                    &&& persist == (Persist::Flushing { then_sync: true })
                    &&& persistent.written_entries >= store.options().max_journal_entries
                    &&& persistent::load_step::<D, T, S>(
                        store.serializer(),
                        load,
                        reply@,
                        Ok(LoadView::Read { persistent, remaining: Seq::empty() }),
                    )
                },
                _ => false,
            },
        },
{
    if let Ok(after) = outcome {
        let next = choose|next: LoadView<D>| #[trigger]
            persistent::load_step::<D, T, S>(store.serializer(), load, reply@, Ok(next)) && store::load_goes_on(
                next,
                store.options(),
                after@.stage,
            );
        assert(persistent::load_step::<D, T, S>(store.serializer(), load, reply@, Ok(next)));
        if let LoadView::Read { persistent, remaining } = next {
            if remaining.len() == 0 {
                assert(remaining =~= Seq::empty());
            }
        }
    }
}

/// A query gets the data if the store has it, and else has to load it.
pub proof fn a_query_gets_the_data<'a, D, T, S>(
    store: &Store<D, T, S>,
    holder: &'a Option<PersistentData<D>>,
    query: Query<'a, D>,
)
    requires
        call_ensures(Store::<D, T, S>::query, (store, holder), query),
    ensures
        match *holder {
            Some(data) => query matches Query::Data(found) && *found == data@.data,
            None => query matches Query::Reload(load) && load@ matches LoadView::CreateDir { flush_on_drop }
                && flush_on_drop == (store.options().flush_synchronously_on_drop
                && !(store.options().journal_flush_policy is EveryCommit)),
        },
{
}

/// A commit that is done has left nothing in the buffer if the policy is that every commit flushes,
/// whatever the other options are, and whatever the serializer does; and if the method is to sync,
/// the journal is synced.
pub proof fn every_commit_is_persisted_by_its_method<D: Default, T: Tx<D>, S: Serializer<D> + Serializer<T>>(
    serializer: S,
    options: OptionsView,
    method: JournalFlushMethod,
    first: PersistentView<D>,
    commits: Seq<CommitView<D, T>>,
    disks: Seq<Disk>,
)
    requires
        options.journal_flush_policy == (JournalFlushPolicy::EveryCommit { journal_flush_method: method }),
        commits[0].stage == StageView::prepared(first, options),
        durability::is_commit_run::<D, T, S>(serializer, options, commits, disks),
        commits.last().stage is Persisted,
    ensures
        disks.last().pending.len() == 0,
        method == JournalFlushMethod::FlushAndSync ==> disks.last().synced,
{
    lemma_persisted_by_method::<D, T, S>(
        serializer,
        options,
        method,
        first,
        commits,
        disks,
        commits.len() - 1,
    );
}

proof fn lemma_persisted_by_method<D: Default, T: Tx<D>, S: Serializer<D> + Serializer<T>>(
    serializer: S,
    options: OptionsView,
    method: JournalFlushMethod,
    first: PersistentView<D>,
    commits: Seq<CommitView<D, T>>,
    disks: Seq<Disk>,
    i: int,
)
    requires
        options.journal_flush_policy == (JournalFlushPolicy::EveryCommit { journal_flush_method: method }),
        commits[0].stage == StageView::prepared(first, options),
        durability::is_commit_run::<D, T, S>(serializer, options, commits, disks),
        0 <= i < commits.len(),
    ensures
        match commits[i].stage {
            StageView::Persisting { persist, .. } => match persist {
                Persist::Flushing { then_sync } => then_sync == (method == JournalFlushMethod::FlushAndSync),
                Persist::Syncing => method == JournalFlushMethod::FlushAndSync && disks[i].pending.len() == 0,
                Persist::Persisted => false,
            },
            StageView::Persisted { .. } => disks[i].pending.len() == 0 && (method
                == JournalFlushMethod::FlushAndSync ==> disks[i].synced),
            _ => true,
        },
    decreases i,
{
    if i > 0 {
        lemma_persisted_by_method::<D, T, S>(serializer, options, method, first, commits, disks, i - 1);
        assert(durability::is_commit_run_step::<D, T, S>(
            serializer,
            options,
            commits[i - 1],
            disks[i - 1],
            commits[i],
            disks[i],
        ));
    }
}

/// What loading asks for at each stage.
pub proof fn loading_asks_for_what_it_needs<'a, D>(
    load: &Load<D>,
    request: Option<Request<'a>>,
    version: SnapshotVersion,
    journal: Vec<u8>,
)
    requires
        call_ensures(Load::<D>::request, (load,), request),
        call_ensures(names::file_name, (FileKind::Journal, version), journal),
    ensures
        match load@ {
            LoadView::CreateDir { .. } => request == Some(Request::<'a>::CreateDir),
            LoadView::OpenDir { .. } => request == Some(Request::<'a>::OpenDir),
            LoadView::NextEntry { .. } => request == Some(Request::<'a>::NextEntry),
            LoadView::OpenJournal { version: next, .. } => request matches Some(Request::OpenJournal { name }) && (
            next == version ==> name@ == journal@),
            LoadView::Read { remaining, .. } => if remaining.len() == 0 {
                request is None
            } else {
                match remaining[0].kind {
                    FileKind::Snapshot => request matches Some(Request::ReadSnapshot { name }) && name@
                        == remaining[0].path,
                    FileKind::Journal => request matches Some(Request::ReadJournal { name }) && name@
                        == remaining[0].path,
                }
            },
        },
{
    let view = crate::request::asked(request);
    if let Some(request) = request {
        assert(view == Some(request@));
    }
}

/// Loading can go on with every reply of the kind that its request is answered with; only at the
/// end of the listing, there must be no snapshot of the highest version.
pub proof fn loading_accepts_what_answers_its_request<D>(load: &Load<D>, reply: &Reply, answer: bool)
    requires
        call_ensures(Load::<D>::accepts, (load, reply), answer),
    ensures
        answer == load@.accepts(reply@),
        answer == match load@ {
            LoadView::NextEntry { actions, .. } => match reply {
                Reply::Entry(Some(_)) => true,
                Reply::Entry(None) => forall|i: int|
                    0 <= i < actions.len() ==> !((#[trigger] actions[i]).kind == FileKind::Snapshot
                        && actions[i].version == u32::MAX),
                Reply::Failed(_) => true,
                _ => false,
            },
            LoadView::Read { remaining, .. } => remaining.len() > 0 && (reply is Contents || reply is Failed),
            _ => reply is Done || reply is Failed,
        },
{
    if let LoadView::NextEntry { actions, .. } = load@ {
        action::the_latest_snapshot_is_the_highest(actions);
        if action::latest_snapshot(actions) != Some(u32::MAX) {
            assert forall|i: int| 0 <= i < actions.len() implies !((#[trigger] actions[i]).kind == FileKind::Snapshot
                && actions[i].version == u32::MAX) by {
                if actions[i].kind == FileKind::Snapshot {
                    action::lemma_latest_snapshot_bounds(actions, i);
                }
            }
        }
    }
}

/// A request that fails ends loading, with the error that it failed with, as one of the directory,
/// of a snapshot or of a journal.
pub proof fn a_failed_request_ends_loading<'a, D, T, S>(
    load: Load<D>,
    serializer: &S,
    request: Request<'a>,
    error: std::io::Error,
    outcome: StoreResult<Load<D>, <S as Serializer<T>>::Error, <S as Serializer<D>>::Error>,
) where D: Default, T: Tx<D>, S: Serializer<D> + Serializer<T>
    requires
        crate::request::asked(Some(request)) == load@.request(),
        call_ensures(Load::<D>::resume::<T, S>, (load, serializer, Reply::Failed(error)), outcome),
    ensures
        match request {
            Request::CreateDir => outcome matches Err(StoreError::FileIO(same)) && same == error,
            Request::ReadSnapshot { .. } => outcome matches Err(StoreError::SnapshotIO(same)) && same == error,
            _ => outcome matches Err(StoreError::JournalIO(same)) && same == error,
        },
{
}

/// Once the directory is created it is opened, and once it is opened it is listed from the start.
pub proof fn loading_creates_and_opens_the_directory<D, T, S>(
    load: Load<D>,
    serializer: &S,
    outcome: StoreResult<Load<D>, <S as Serializer<T>>::Error, <S as Serializer<D>>::Error>,
) where D: Default, T: Tx<D>, S: Serializer<D> + Serializer<T>
    requires
        load@ is CreateDir || load@ is OpenDir,
        call_ensures(Load::<D>::resume::<T, S>, (load, serializer, Reply::Done), outcome),
    ensures
        outcome matches Ok(after) && flushes(after@) == flushes(load@) && match load@ {
            LoadView::CreateDir { .. } => after@ is OpenDir,
            _ => after@ matches LoadView::NextEntry { actions, .. } && actions.len() == 0,
        },
{
}

/// A file that is listed is taken down as what its name says: `version.journal` as a journal,
/// `version.snapshot` as a snapshot, any other extension as nothing; and a name that does not
/// start with a version ends loading.
pub proof fn listed_files_are_taken_down_by_their_names<D, T, S>(
    load: Load<D>,
    serializer: &S,
    actions: Seq<ActionView>,
    name: Vec<u8>,
    stem: &[u8],
    extension: Seq<u8>,
    version: Option<SnapshotVersion>,
    outcome: StoreResult<Load<D>, <S as Serializer<T>>::Error, <S as Serializer<D>>::Error>,
) where D: Default, T: Tx<D>, S: Serializer<D> + Serializer<T>
    requires
        load@ matches LoadView::NextEntry { actions: found, .. } && found == actions,
        stem@.len() > 0,
        !(stem@ == seq![46u8] && extension.len() == 0),
        forall|i: int| 0 <= i < extension.len() ==> #[trigger] extension[i] != 46,
        name@ == stem@ + seq![46u8] + extension,
        call_ensures(names::parse_version, (stem,), version),
        call_ensures(Load::<D>::resume::<T, S>, (load, serializer, Reply::Entry(Some(name))), outcome),
    ensures
        match version {
            None => outcome matches Err(StoreError::JournalInvalidFileName(Some(blamed))) && blamed@ == stem@,
            Some(version) => outcome matches Ok(after) && after@ matches LoadView::NextEntry {
                flush_on_drop,
                actions: now,
            } && flush_on_drop == flushes(load@) && if extension == seq![106u8, 111, 117, 114, 110, 97, 108] {
                now == actions.push(ActionView { kind: FileKind::Journal, version, path: name@ })
            } else if extension == seq![115u8, 110, 97, 112, 115, 104, 111, 116] {
                now == actions.push(ActionView { kind: FileKind::Snapshot, version, path: name@ })
            } else {
                now == actions
            },
        },
{
    names::names_are_cut_at_their_last_dot(stem@, extension);
}

/// A file without an extension concerns the store in no way if its name is a version, and ends
/// loading if it is not.
pub proof fn listed_files_without_extension_are_passed_over<D, T, S>(
    load: Load<D>,
    serializer: &S,
    name: Vec<u8>,
    stem: &[u8],
    version: Option<SnapshotVersion>,
    outcome: StoreResult<Load<D>, <S as Serializer<T>>::Error, <S as Serializer<D>>::Error>,
) where D: Default, T: Tx<D>, S: Serializer<D> + Serializer<T>
    requires
        load@ is NextEntry,
        name@ == stem@,
        forall|i: int| 1 <= i < name@.len() ==> #[trigger] name@[i] != 46,
        call_ensures(names::parse_version, (stem,), version),
        call_ensures(Load::<D>::resume::<T, S>, (load, serializer, Reply::Entry(Some(name))), outcome),
    ensures
        match version {
            None => outcome matches Err(StoreError::JournalInvalidFileName(Some(blamed))) && blamed@ == name@,
            Some(_) => outcome matches Ok(after) && after@ == load@,
        },
{
    names::names_without_a_dot_are_not_cut(name@);
}

/// The name of two dots, which is no file's, ends loading, and there is no stem to blame.
pub proof fn two_dots_are_no_file<D, T, S>(
    load: Load<D>,
    serializer: &S,
    name: Vec<u8>,
    outcome: StoreResult<Load<D>, <S as Serializer<T>>::Error, <S as Serializer<D>>::Error>,
) where D: Default, T: Tx<D>, S: Serializer<D> + Serializer<T>
    requires
        load@ is NextEntry,
        name@ == seq![46u8, 46u8],
        call_ensures(Load::<D>::resume::<T, S>, (load, serializer, Reply::Entry(Some(name))), outcome),
    ensures
        outcome matches Err(StoreError::JournalInvalidFileName(None)),
{
}

/// At the end of the listing, the journal to be written on is chosen: the one of the highest
/// version, or if a snapshot has that version or a higher one, the one behind the latest snapshot;
/// and the first one if there is no file. The files that are needed are to be read.
pub proof fn the_listing_says_which_journal_is_written_on<D, T, S>(
    load: Load<D>,
    serializer: &S,
    actions: Seq<ActionView>,
    outcome: StoreResult<Load<D>, <S as Serializer<T>>::Error, <S as Serializer<D>>::Error>,
) where D: Default, T: Tx<D>, S: Serializer<D> + Serializer<T>
    requires
        load@ matches LoadView::NextEntry { actions: found, .. } && found == actions,
        load@.accepts(ReplyView::Entry(None)),
        call_ensures(Load::<D>::resume::<T, S>, (load, serializer, Reply::Entry(None)), outcome),
    ensures
        outcome matches Ok(after) && after@ matches LoadView::OpenJournal { flush_on_drop, plan, version } && {
            &&& flush_on_drop == flushes(load@)
            &&& action::is_plan(actions, plan)
            &&& forall|i: int|
                0 <= i < actions.len() ==> match (#[trigger] actions[i]).kind {
                    FileKind::Journal => actions[i].version <= version,
                    FileKind::Snapshot => actions[i].version < version,
                }
            &&& version == 0 && actions.len() == 0 || exists|i: int|
                0 <= i < actions.len() && match (#[trigger] actions[i]).kind {
                    FileKind::Journal => actions[i].version == version,
                    FileKind::Snapshot => actions[i].version + 1 == version,
                }
        },
{
    if let Ok(after) = outcome {
        if let LoadView::OpenJournal { plan, version, .. } = after@ {
            persistent::the_next_version_is_behind_all_files(actions, plan);
        }
    }
}

/// Once the journal is open, the files of the plan are read, from the default data on; no entries
/// are counted so far.
pub proof fn reading_starts_with_the_default_data<D, T, S>(
    load: Load<D>,
    serializer: &S,
    outcome: StoreResult<Load<D>, <S as Serializer<T>>::Error, <S as Serializer<D>>::Error>,
) where D: Default, T: Tx<D>, S: Serializer<D> + Serializer<T>
    requires
        load@ is OpenJournal,
        call_ensures(Load::<D>::resume::<T, S>, (load, serializer, Reply::Done), outcome),
    ensures
        load@ matches LoadView::OpenJournal { flush_on_drop, plan, version } && outcome matches Ok(after) && after@
            matches LoadView::Read { persistent, remaining } && {
            &&& call_ensures(D::default, (), persistent.data)
            &&& persistent.next_snapshot_version == version
            &&& persistent.written_entries == 0
            &&& persistent.flush_on_drop == flush_on_drop
            &&& remaining == plan
        },
{
}

/// A snapshot replaces the data by what the serializer makes of it. If it makes nothing of it, the
/// snapshot is corrupted; and if it refuses it, its error is handed on.
pub proof fn a_snapshot_replaces_the_data<D, T, S>(
    load: Load<D>,
    serializer: &S,
    persistent: PersistentView<D>,
    remaining: Seq<ActionView>,
    contents: Vec<u8>,
    decoded: Result<Option<D>, <S as Serializer<D>>::Error>,
    left: Seq<u8>,
    outcome: StoreResult<Load<D>, <S as Serializer<T>>::Error, <S as Serializer<D>>::Error>,
) where D: Default, T: Tx<D>, S: Serializer<D> + Serializer<T>
    requires
        load@ == (LoadView::Read { persistent, remaining }),
        remaining.len() > 0,
        remaining[0].kind == FileKind::Snapshot,
        reopening::decodes_the_same::<D, S>(*serializer),
        serializer.decodes(contents@, decoded, left),
        call_ensures(Load::<D>::resume::<T, S>, (load, serializer, Reply::Contents(contents)), outcome),
    ensures
        match decoded {
            Ok(Some(data)) => outcome matches Ok(after) && after@ matches LoadView::Read {
                persistent: changed,
                remaining: rest,
            } && rest == remaining.skip(1) && changed.data == data && changed.next_snapshot_version
                == persistent.next_snapshot_version && changed.written_entries == persistent.written_entries
                && changed.flush_on_drop == persistent.flush_on_drop,
            Ok(None) => outcome matches Err(StoreError::DecodeSnapshot(DecodeError::Corrupted)),
            Err(error) => outcome matches Err(StoreError::DecodeSnapshot(DecodeError::Serializer(same))) && same
                == error,
        },
{
    let result = match outcome {
        Ok(after) => match after@ {
            LoadView::Read { persistent: changed, .. } => Ok(changed),
            _ => Ok(persistent),
        },
        Err(error) => Err(error),
    };
    assert(persistent::applies::<D, T, S>(*serializer, remaining[0], contents@, persistent, result));
    match result {
        Ok(changed) => {
            let other = choose|other: Seq<u8>| serializer.decodes(contents@, Ok(Some(changed.data)), other);
            assert(serializer.decodes(contents@, Ok(Some(changed.data)), other));
        },
        Err(StoreError::DecodeSnapshot(DecodeError::Corrupted)) => {
            let other = choose|other: Seq<u8>| serializer.decodes(contents@, Ok(None::<D>), other);
            assert(serializer.decodes(contents@, Ok(None::<D>), other));
        },
        Err(StoreError::DecodeSnapshot(DecodeError::Serializer(error))) => {
            let other = choose|other: Seq<u8>|
                serializer.decodes(contents@, Err::<Option<D>, <S as Serializer<D>>::Error>(error), other);
            assert(serializer.decodes(contents@, Err::<Option<D>, <S as Serializer<D>>::Error>(error), other));
        },
        Err(_) => {},
    }
}

/// A journal is replayed: all the transactions that the serializer decodes from it, one behind the
/// other, are executed in this order. If the journal is the one that is written on, they are
/// counted. If the serializer refuses an entry, nothing is executed, and its error is handed on.
pub proof fn a_journal_is_replayed<D, T, S>(
    load: Load<D>,
    serializer: &S,
    persistent: PersistentView<D>,
    remaining: Seq<ActionView>,
    contents: Vec<u8>,
    txs: Seq<T>,
    lefts: Seq<Seq<u8>>,
    end: Result<Option<T>, <S as Serializer<T>>::Error>,
    rest: Seq<u8>,
    journal: Vec<u8>,
    outcome: StoreResult<Load<D>, <S as Serializer<T>>::Error, <S as Serializer<D>>::Error>,
) where D: Default, T: Tx<D>, S: Serializer<D> + Serializer<T>
    requires
        load@ == (LoadView::Read { persistent, remaining }),
        remaining.len() > 0,
        remaining[0].kind == FileKind::Journal,
        reopening::decodes_the_same::<T, S>(*serializer),
        lefts.len() == txs.len() + 1,
        lefts[0] == contents@,
        forall|i: int|
            0 <= i < txs.len() ==> serializer.decodes(lefts[i], Ok(Some(#[trigger] txs[i])), lefts[i + 1]),
        serializer.decodes(lefts.last(), end, rest),
        !(end matches Ok(Some(_))),
        call_ensures(names::file_name, (FileKind::Journal, persistent.next_snapshot_version), journal),
        call_ensures(Load::<D>::resume::<T, S>, (load, serializer, Reply::Contents(contents)), outcome),
    ensures
        match end {
            Err(error) => outcome matches Err(StoreError::DecodeJournalEntry(same)) && same == error,
            _ => outcome matches Ok(after) && after@ matches LoadView::Read {
                persistent: changed,
                remaining: behind,
            } && {
                &&& behind == remaining.skip(1)
                &&& changed.next_snapshot_version == persistent.next_snapshot_version
                &&& changed.flush_on_drop == persistent.flush_on_drop
                &&& changed.written_entries == if remaining[0].path == journal@ {
                    txs.len()
                } else {
                    persistent.written_entries
                }
                &&& exists|states: Seq<D>|
                    #![trigger states.len()]
                    states.len() == txs.len() + 1 && states[0] == persistent.data && states.last() == changed.data && (
                    forall|i: int|
                        0 <= i < txs.len() ==> (#[trigger] txs[i]).turns(states[i], states[i + 1], ()))
            },
        },
{
    let result = match outcome {
        Ok(after) => match after@ {
            LoadView::Read { persistent: changed, .. } => Ok(changed),
            _ => Ok(persistent),
        },
        Err(error) => Err(error),
    };
    assert(persistent::applies::<D, T, S>(*serializer, remaining[0], contents@, persistent, result));
    assert(journal::reads_until(*serializer, contents@, txs, lefts, end, rest));
    match result {
        Ok(changed) => {
            let written_on = persistent::is_written_on(remaining[0], persistent.next_snapshot_version);
            let found = choose|found: Seq<T>| #[trigger]
                journal::holds(*serializer, contents@, found) && tx::runs(found, persistent.data, changed.data)
                    && changed == (PersistentView {
                    data: changed.data,
                    written_entries: if written_on {
                        found.len()
                    } else {
                        persistent.written_entries
                    },
                    ..persistent
                });
            let (other_lefts, other_rest) = choose|other_lefts: Seq<Seq<u8>>, other_rest: Seq<u8>|
                journal::reads_until(*serializer, contents@, found, other_lefts, Ok(None), other_rest);
            reopening::lemma_reads_until_same(
                *serializer,
                contents@,
                txs,
                lefts,
                end,
                rest,
                found,
                other_lefts,
                Ok(None),
                other_rest,
            );
            let states = choose|states: Seq<D>| tx::passes(found, states, persistent.data, changed.data);
            assert(states.len() == txs.len() + 1 && states.last() == changed.data);
        },
        Err(StoreError::DecodeJournalEntry(error)) => {
            let (found, other_lefts, other_rest) = choose|
                found: Seq<T>,
                other_lefts: Seq<Seq<u8>>,
                other_rest: Seq<u8>,
            |
                journal::reads_until(*serializer, contents@, found, other_lefts, Err(error), other_rest);
            reopening::lemma_reads_until_same(
                *serializer,
                contents@,
                txs,
                lefts,
                end,
                rest,
                found,
                other_lefts,
                Err(error),
                other_rest,
            );
        },
        Err(_) => {},
    }
}

/// The data is loaded when no file is left to be read, and is then what was read.
pub proof fn loading_is_through_when_no_file_is_left<D>(load: Load<D>, answer: bool, data: PersistentData<D>)
    requires
        call_ensures(Load::<D>::is_loaded, (&load,), answer),
        answer ==> call_ensures(Load::<D>::into_persistent, (load,), data),
    ensures
        answer == (load@ matches LoadView::Read { remaining, .. } && remaining.len() == 0),
        answer ==> (load@ matches LoadView::Read { persistent, .. } && data@ == persistent),
{
}

/// Executing transactions in order: of none, nothing comes; of one more, that the others are
/// executed first, and then it.
pub proof fn transactions_are_executed_in_order<D, T: Tx<D>>(txs: Seq<T>, tx: T, before: D, after: D)
    ensures
        tx::runs(Seq::<T>::empty(), before, after) <==> before == after,
        tx::runs(txs.push(tx), before, after) <==> exists|between: D| #[trigger]
            tx.turns(between, after, ()) && tx::runs(txs, before, between),
{
    let none = Seq::<T>::empty();
    let all = txs.push(tx);
    if tx::runs(none, before, after) {
        let states = choose|states: Seq<D>| tx::passes(none, states, before, after);
        assert(states[0] == before);
    }
    if before == after {
        assert(tx::passes(none, seq![before], before, after));
    }
    if tx::runs(all, before, after) {
        let states = choose|states: Seq<D>| tx::passes(all, states, before, after);
        let between = states[txs.len() as int];
        assert(all[txs.len() as int].turns(between, after, ()));
        assert forall|i: int| 0 <= i < txs.len() implies (#[trigger] txs[i]).turns(
            states.drop_last()[i],
            states.drop_last()[i + 1],
            (),
        ) by {
            assert(all[i].turns(states[i], states[i + 1], ()));
        }
        assert(tx::passes(txs, states.drop_last(), before, between));
        assert(tx.turns(between, after, ()));
    }
    if exists|between: D| #[trigger] tx.turns(between, after, ()) && tx::runs(txs, before, between) {
        let between = choose|between: D| #[trigger] tx.turns(between, after, ()) && tx::runs(txs, before, between);
        let states = choose|states: Seq<D>| tx::passes(txs, states, before, between);
        let more = states.push(after);
        assert forall|i: int| 0 <= i < all.len() implies (#[trigger] all[i]).turns(more[i], more[i + 1], ()) by {
            if i < txs.len() {
                assert(txs[i].turns(states[i], states[i + 1], ()));
            }
        }
        assert(tx::passes(all, more, before, after));
    }
}

/// Which replies answer which request: the word that it is done, an entry of the listing, or the
/// contents of a file; and that it failed always does.
pub proof fn replies_answer_requests<'a>(request: &Request<'a>, reply: &Reply, answer: bool)
    requires
        call_ensures(Request::<'a>::answered_by, (request, reply), answer),
    ensures
        answer == match reply {
            Reply::Failed(_) => true,
            Reply::Entry(_) => request is NextEntry,
            Reply::Contents(_) => request is ReadSnapshot || request is ReadJournal,
            Reply::Done => !(request is NextEntry || request is ReadSnapshot || request is ReadJournal),
        },
{
}

/// Contracts see requests and replies as they are.
pub proof fn contracts_see_requests_and_replies_as_they_are<'a>(request: Request<'a>, reply: Reply)
    ensures
        match request {
            Request::CreateDir => request@ is CreateDir,
            Request::OpenDir => request@ is OpenDir,
            Request::NextEntry => request@ is NextEntry,
            Request::OpenJournal { name } => request@ == (RequestView::OpenJournal { name: name@ }),
            Request::ReadSnapshot { name } => request@ == (RequestView::ReadSnapshot { name: name@ }),
            Request::ReadJournal { name } => request@ == (RequestView::ReadJournal { name: name@ }),
            Request::Append { bytes } => request@ == (RequestView::Append { bytes: bytes@ }),
            Request::Flush => request@ is Flush,
            Request::Sync => request@ is Sync,
            Request::WriteSnapshot { name, bytes } => request@ == (RequestView::WriteSnapshot {
                name: name@,
                bytes: bytes@,
            }),
        },
        match reply {
            Reply::Done => reply@ is Done,
            Reply::Entry(None) => reply@ == ReplyView::Entry(None),
            Reply::Entry(Some(name)) => reply@ == ReplyView::Entry(Some(name@)),
            Reply::Contents(bytes) => reply@ == ReplyView::Contents(bytes@),
            Reply::Failed(error) => reply@ == ReplyView::Failed(error),
        },
        crate::request::asked(Some(request)) == Some(request@),
{
}

/// A journal that is opened counts on from the entries that it holds, one for each that is
/// appended.
pub proof fn journals_count_their_entries(
    entries: usize,
    journal: JournalFile,
    grown: JournalFile,
    count: usize,
    grown_count: usize,
)
    requires
        call_ensures(JournalFile::open, (entries,), journal),
        journal@ < usize::MAX,
        exists|slot: &mut JournalFile| #[trigger]
            call_ensures(JournalFile::append, (slot,), ()) && *slot == journal && *final(slot) == grown,
        call_ensures(JournalFile::written_entries, (&journal,), count),
        call_ensures(JournalFile::written_entries, (&grown,), grown_count),
    ensures
        count == entries,
        grown_count == entries + 1,
{
}

} // verus!
