//! That a commit leaves the store's directory such that the data can be loaded from it again.

use vstd::prelude::*;
use crate::action::ActionView;
use crate::directory;
use crate::directory::Files;
use crate::error::StoreError;
use crate::journal::Persist;
use crate::names;
use crate::names::{FileKind, SnapshotVersion};
use crate::options::{JournalFlushMethod, OptionsView};
use crate::persistent;
use crate::persistent::{LoadView, PersistentView};
use crate::recovery;
use crate::recovery::History;
use crate::request::{ReplyView, RequestView};
use crate::serializer::Serializer;
use crate::store;
use crate::store::{CommitView, StageView};
use crate::tx;
use crate::tx::Tx;

verus! {

/// The store's directory, and the journal that is open in it.
#[verifier::ext_equal]
pub struct Disk {
    /// What the files hold.
    pub files: Files,
    /// The name of the journal that is open.
    pub journal: Seq<u8>,
    /// What was appended to the journal and is still in its buffer.
    pub pending: Seq<u8>,
    /// Was the journal file synced after its last byte was written?
    pub synced: bool,
}

impl Disk {
    /// The files as they are once the buffer is flushed.
    pub open spec fn flushed(self) -> Files {
        self.files.insert(self.journal, self.files[self.journal] + self.pending)
    }
}

/// A file after `bytes` were written to its start.
pub open spec fn written_over(old: Seq<u8>, bytes: Seq<u8>) -> Seq<u8> {
    if old.len() > bytes.len() {
        bytes + old.skip(bytes.len() as int)
    } else {
        bytes
    }
}

/// May doing what was requested turn the directory `before` into `after`? A buffer that is
/// appended to may write any part of what it holds to the file at once.
pub open spec fn does(before: Disk, request: RequestView, after: Disk) -> bool {
    match request {
        RequestView::OpenJournal { name } => {
            &&& after.journal == name
            &&& after.pending == Seq::<u8>::empty()
            &&& !after.synced
            &&& after.files == if before.files.contains_key(name) {
                before.files
            } else {
                before.files.insert(name, Seq::empty())
            }
        },
        RequestView::Append { bytes } => {
            &&& after.journal == before.journal
            &&& after.files == before.files.insert(before.journal, after.files[before.journal])
            &&& before.files[before.journal].is_prefix_of(after.files[before.journal])
            &&& after.files[before.journal] + after.pending == before.files[before.journal] + before.pending + bytes
            &&& after.synced ==> before.synced && after.files == before.files
        },
        RequestView::Flush => {
            &&& after.journal == before.journal
            &&& after.pending == Seq::<u8>::empty()
            &&& after.files == before.flushed()
            &&& after.synced ==> before.synced && before.pending.len() == 0
        },
        RequestView::Sync => after == (Disk { synced: true, ..before }),
        RequestView::WriteSnapshot { name, bytes } => {
            let old = if before.files.contains_key(name) {
                before.files[name]
            } else {
                Seq::empty()
            };
            after == (Disk { files: before.files.insert(name, written_over(old, bytes)), ..before })
        },
        _ => after == before,
    }
}

/// Is the data on record in the directory, once the buffer is flushed, and its journal open? The
/// entries that are counted are those that the journal holds.
pub open spec fn is_kept<D: Default, T: Tx<D>, S: Serializer<D> + Serializer<T>>(
    serializer: S,
    same: spec_fn(D, D) -> bool,
    disk: Disk,
    persistent: PersistentView<D>,
) -> bool {
    &&& disk.journal == names::spec_file_name(FileKind::Journal, persistent.next_snapshot_version)
    &&& disk.files.contains_key(disk.journal)
    &&& recovery::on_record::<D, T, S>(
        serializer,
        same,
        disk.flushed(),
        persistent.next_snapshot_version as int,
        true,
        persistent.written_entries,
        persistent.data,
    )
}

/// Is everything that `tx` may make of the data on record in the directory, once the buffer is
/// flushed?
pub open spec fn is_kept_with<D: Default, T: Tx<D>, S: Serializer<D> + Serializer<T>>(
    serializer: S,
    same: spec_fn(D, D) -> bool,
    disk: Disk,
    persistent: PersistentView<D>,
    tx: T,
) -> bool {
    forall|after: D| #[trigger]
        tx.turns(persistent.data, after, ()) ==> is_kept::<D, T, S>(
            serializer,
            same,
            disk,
            PersistentView { data: after, ..persistent },
        )
}

/// Is the directory in the state that belongs to this stage of a commit?
///
/// Up to the point where the entry is appended, the data without the transaction is on record,
/// once the buffer is flushed; from there on, the data with it.
pub open spec fn is_in_step<D: Default, T: Tx<D>, S: Serializer<D> + Serializer<T>>(
    serializer: S,
    options: OptionsView,
    same: spec_fn(D, D) -> bool,
    disk: Disk,
    commit: CommitView<D, T>,
) -> bool {
    &&& serializer.encodes(commit.tx, Ok(commit.entry))
    &&& disk.files.contains_key(disk.journal)
    &&& match commit.stage {
        StageView::Encoded | StageView::Loading { .. } => false,
        StageView::Sealing { persistent, persist } => {
            &&& is_kept::<D, T, S>(serializer, same, disk, persistent)
            &&& persist != (Persist::Flushing { then_sync: false })
            &&& persist is Syncing ==> disk.pending.len() == 0
        },
        StageView::Snapshotting { persistent, bytes } => {
            &&& is_kept::<D, T, S>(serializer, same, disk, persistent)
            &&& disk.pending.len() == 0
            &&& disk.synced
            &&& serializer.encodes(persistent.data, Ok(bytes))
        },
        StageView::Opening { persistent } => {
            &&& disk.pending.len() == 0
            &&& recovery::on_record::<D, T, S>(
                serializer,
                same,
                disk.files,
                persistent.next_snapshot_version as int,
                false,
                0,
                persistent.data,
            )
        },
        StageView::Appending { persistent } => is_kept::<D, T, S>(serializer, same, disk, persistent),
        StageView::Persisting { persistent, persist } => {
            &&& is_kept_with::<D, T, S>(serializer, same, disk, persistent, commit.tx)
            &&& options.commit_flush() matches Some(method) && match persist {
                Persist::Flushing { then_sync } => then_sync == (method == JournalFlushMethod::FlushAndSync),
                Persist::Syncing => method == JournalFlushMethod::FlushAndSync && disk.pending.len() == 0,
                Persist::Persisted => false,
            }
        },
        StageView::Persisted { persistent } => {
            &&& is_kept_with::<D, T, S>(serializer, same, disk, persistent, commit.tx)
            &&& options.commit_flush() is Some ==> disk.pending.len() == 0
            &&& options.commit_flush() == Some(JournalFlushMethod::FlushAndSync) ==> disk.synced
        },
    }
}

/// The history that is on record.
spec fn record<D: Default, T: Tx<D>, S: Serializer<D> + Serializer<T>>(
    serializer: S,
    same: spec_fn(D, D) -> bool,
    files: Files,
    newest: int,
    opened: bool,
    written: nat,
    data: D,
) -> History<D, T> {
    choose|history: History<D, T>| #[trigger]
        recovery::tells::<D, T, S>(serializer, same, files, newest, opened, data, history)
            && history.entries[newest].len() == written
}

/// A journal with one more entry.
pub(crate) proof fn lemma_journal_grows<T, S: Serializer<T>>(serializer: S, bytes: Seq<u8>, txs: Seq<T>, entry: Seq<u8>, tx: T)
    requires
        recovery::is_journal_of(serializer, bytes, txs),
        serializer.encodes(tx, Ok(entry)),
    ensures
        recovery::is_journal_of(serializer, bytes + entry, txs.push(tx)),
{
    let parts = choose|parts: Seq<Seq<u8>>| #[trigger]
        recovery::encodes_all(serializer, txs, parts) && bytes == parts.flatten();
    let more = parts.push(entry);
    parts.lemma_flatten_push(entry);
    assert forall|i: int| 0 <= i < txs.push(tx).len() implies serializer.encodes(
        #[trigger] txs.push(tx)[i],
        Ok(more[i]),
    ) by {
        if i < txs.len() {
            assert(serializer.encodes(txs[i], Ok(parts[i])));
        }
    }
    assert(recovery::encodes_all(serializer, txs.push(tx), more));
}

/// One more transaction leads one step further.
proof fn lemma_leads_further<D, T: Tx<D>>(
    same: spec_fn(D, D) -> bool,
    txs: Seq<T>,
    from: D,
    to: D,
    tx: T,
    further: D,
)
    requires
        recovery::leads(same, txs, from, to),
        tx.turns(to, further, ()),
    ensures
        recovery::leads(same, txs.push(tx), from, further),
{
    let all = txs.push(tx);
    assert forall|others: Seq<T>, a: D, b: D|
        #![trigger recovery::all_alike(same, all, others), tx::runs(others, a, b)]
        recovery::all_alike(same, all, others) && same(from, a) && tx::runs(others, a, b) implies same(
        further,
        b,
    ) by {
        let count = txs.len() as int;
        let states = choose|states: Seq<D>| tx::passes(others, states, a, b);
        let front = others.take(count);
        let between = states[count];
        assert forall|i: int| 0 <= i < count implies recovery::alike(same, #[trigger] txs[i], front[i]) by {
            assert(recovery::alike(same, all[i], others[i]));
        }
        assert(recovery::all_alike(same, txs, front));
        assert forall|i: int| 0 <= i < front.len() implies (#[trigger] front[i]).turns(
            states.take(count + 1)[i],
            states.take(count + 1)[i + 1],
            (),
        ) by {
            assert(others[i].turns(states[i], states[i + 1], ()));
        }
        assert(tx::passes(front, states.take(count + 1), a, between));
        assert(tx::runs(front, a, between));
        assert(same(to, between));
        assert(recovery::alike(same, all[count], others[count]));
        assert(others[count].turns(states[count], states[count + 1], ()));
    }
}

/// With an empty buffer, the files are as they are once it is flushed.
pub(crate) proof fn lemma_nothing_to_flush(disk: Disk)
    requires
        disk.files.contains_key(disk.journal),
        disk.pending.len() == 0,
    ensures
        disk.flushed() == disk.files,
{
    assert(disk.files[disk.journal] + disk.pending =~= disk.files[disk.journal]);
    assert(disk.flushed() =~= disk.files);
}

/// Changing one file leaves the others.
pub(crate) proof fn lemma_other_file(
    files: Files,
    kind: FileKind,
    version: SnapshotVersion,
    bytes: Seq<u8>,
    other_kind: FileKind,
    other_version: int,
)
    requires
        0 <= other_version <= u32::MAX,
        kind != other_kind || version != other_version,
    ensures
        directory::has(
            files.insert(names::spec_file_name(kind, version), bytes),
            other_kind,
            other_version,
        ) == directory::has(files, other_kind, other_version),
        directory::contents(
            files.insert(names::spec_file_name(kind, version), bytes),
            other_kind,
            other_version,
        ) == directory::contents(files, other_kind, other_version),
{
    if names::spec_file_name(kind, version) == names::spec_file_name(other_kind, other_version as u32) {
        names::file_names_differ(kind, version, other_kind, other_version as u32);
    }
}

/// Once the snapshot of the newest version is written, the next journal can be opened.
proof fn lemma_snapshot_tells<D: Default, T: Tx<D>, S: Serializer<D> + Serializer<T>>(
    serializer: S,
    same: spec_fn(D, D) -> bool,
    files: Files,
    newest: SnapshotVersion,
    data: D,
    history: History<D, T>,
    bytes: Seq<u8>,
)
    requires
        recovery::is_equivalence(same),
        recovery::tells::<D, T, S>(serializer, same, files, newest as int, true, data, history),
        newest < u32::MAX,
        serializer.encodes(data, Ok(bytes)),
    ensures
        recovery::on_record::<D, T, S>(
            serializer,
            same,
            files.insert(names::spec_file_name(FileKind::Snapshot, newest), bytes),
            newest + 1,
            false,
            0,
            data,
        ),
{
    let name = names::spec_file_name(FileKind::Snapshot, newest);
    let after = files.insert(name, bytes);
    let more = History::<D, T> {
        entries: history.entries.push(Seq::empty()),
        bases: history.bases.push(data),
    };
    assert(directory::is_in_order(after, newest + 1)) by {
        directory::own_files_are_found(FileKind::Snapshot, newest);
        assert forall|other: Seq<u8>| #[trigger] after.contains_key(other) implies directory::belongs(
            other,
            newest + 1,
        ) by {
            if other != name {
                assert(files.contains_key(other));
                assert(directory::belongs(other, newest as int));
            }
        }
    }
    assert(!directory::has(files, FileKind::Journal, newest + 1)) by {
        let next = names::spec_file_name(FileKind::Journal, (newest + 1) as u32);
        directory::own_files_are_found(FileKind::Journal, (newest + 1) as u32);
        if files.contains_key(next) {
            assert(directory::belongs(next, newest as int));
        }
    }
    assert forall|version: int| 0 <= version <= newest + 1 implies #[trigger] recovery::journal_tells(
        serializer,
        after,
        more,
        version,
    ) by {
        lemma_other_file(files, FileKind::Snapshot, newest, bytes, FileKind::Journal, version);
        if version <= newest {
            assert(recovery::journal_tells(serializer, files, history, version));
        }
    }
    assert forall|version: int| 0 <= version <= newest + 1 implies #[trigger] recovery::history_goes_on(
        same,
        more,
        version,
    ) by {
        if version <= newest {
            assert(recovery::history_goes_on(same, history, version));
        } else {
            let none = Seq::<T>::empty();
            assert(more.entries[version] == none);
            assert forall|others: Seq<T>, a: D, b: D|
                #![trigger recovery::all_alike(same, none, others), tx::runs(others, a, b)]
                recovery::all_alike(same, none, others) && same(data, a) && tx::runs(others, a, b) implies same(
                data,
                b,
            ) by {
                let states = choose|states: Seq<D>| tx::passes(others, states, a, b);
                assert(a == b);
            }
        }
    }
    assert forall|version: int| 0 <= version < newest + 1 implies #[trigger] recovery::snapshot_tells(
        serializer,
        same,
        after,
        more,
        version,
    ) by {
        if version < newest {
            lemma_other_file(files, FileKind::Snapshot, newest, bytes, FileKind::Snapshot, version);
            assert(recovery::snapshot_tells(serializer, same, files, history, version));
        } else {
            assert(same(data, data));
            assert(more.bases[version + 1] == data);
            assert(directory::contents(after, FileKind::Snapshot, version) == bytes);
        }
    }
    assert forall|default: D| #[trigger] persistent::is_default(default) implies same(
        more.bases[0],
        default,
    ) by {
        assert(same(history.bases[0], default));
    }
    assert(recovery::tells::<D, T, S>(serializer, same, after, newest + 1, false, data, more));
}

/// Once the newest journal is opened it can be written.
proof fn lemma_opened_tells<D: Default, T: Tx<D>, S: Serializer<D> + Serializer<T>>(
    serializer: S,
    same: spec_fn(D, D) -> bool,
    files: Files,
    newest: SnapshotVersion,
    data: D,
    history: History<D, T>,
)
    requires
        recovery::tells::<D, T, S>(serializer, same, files, newest as int, false, data, history),
    ensures
        recovery::tells::<D, T, S>(
            serializer,
            same,
            files.insert(names::spec_file_name(FileKind::Journal, newest), Seq::empty()),
            newest as int,
            true,
            data,
            history,
        ),
{
    let name = names::spec_file_name(FileKind::Journal, newest);
    let nothing = Seq::<u8>::empty();
    let after = files.insert(name, nothing);
    assert(directory::is_in_order(after, newest as int)) by {
        directory::own_files_are_found(FileKind::Journal, newest);
        assert forall|other: Seq<u8>| #[trigger] after.contains_key(other) implies directory::belongs(
            other,
            newest as int,
        ) by {
            if other != name {
                assert(files.contains_key(other));
            }
        }
    }
    assert forall|version: int| 0 <= version <= newest implies #[trigger] recovery::journal_tells(
        serializer,
        after,
        history,
        version,
    ) by {
        assert(recovery::journal_tells(serializer, files, history, version));
        if version < newest {
            lemma_other_file(files, FileKind::Journal, newest, nothing, FileKind::Journal, version);
        } else {
            let parts = Seq::<Seq<u8>>::empty();
            assert(history.entries[version].len() == 0);
            assert(recovery::encodes_all(serializer, history.entries[version], parts));
            assert(parts.flatten() =~= nothing);
        }
    }
    assert forall|version: int| 0 <= version < newest implies #[trigger] recovery::snapshot_tells(
        serializer,
        same,
        after,
        history,
        version,
    ) by {
        assert(recovery::snapshot_tells(serializer, same, files, history, version));
        lemma_other_file(files, FileKind::Journal, newest, nothing, FileKind::Snapshot, version);
    }
}

/// With one more entry in the newest journal, what its transaction makes of the data is on
/// record.
proof fn lemma_entry_tells<D: Default, T: Tx<D>, S: Serializer<D> + Serializer<T>>(
    serializer: S,
    same: spec_fn(D, D) -> bool,
    files: Files,
    newest: SnapshotVersion,
    data: D,
    history: History<D, T>,
    entry: Seq<u8>,
    tx: T,
    after_tx: D,
)
    requires
        recovery::tells::<D, T, S>(serializer, same, files, newest as int, true, data, history),
        serializer.encodes(tx, Ok(entry)),
        tx.turns(data, after_tx, ()),
    ensures
        recovery::on_record::<D, T, S>(
            serializer,
            same,
            files.insert(
                names::spec_file_name(FileKind::Journal, newest),
                directory::contents(files, FileKind::Journal, newest as int) + entry,
            ),
            newest as int,
            true,
            history.entries[newest as int].len() + 1,
            after_tx,
        ),
{
    let name = names::spec_file_name(FileKind::Journal, newest);
    let bytes = directory::contents(files, FileKind::Journal, newest as int) + entry;
    let after = files.insert(name, bytes);
    let n = newest as int;
    let more = History::<D, T> {
        entries: history.entries.update(n, history.entries[n].push(tx)),
        bases: history.bases.update(n + 1, after_tx),
    };
    assert(directory::is_in_order(after, n)) by {
        assert forall|other: Seq<u8>| #[trigger] after.contains_key(other) implies directory::belongs(
            other,
            n,
        ) by {
            assert(files.contains_key(other));
        }
    }
    assert forall|version: int| 0 <= version <= n implies #[trigger] recovery::journal_tells(
        serializer,
        after,
        more,
        version,
    ) by {
        assert(recovery::journal_tells(serializer, files, history, version));
        if version < n {
            lemma_other_file(files, FileKind::Journal, newest, bytes, FileKind::Journal, version);
        } else {
            lemma_journal_grows(
                serializer,
                directory::contents(files, FileKind::Journal, n),
                history.entries[n],
                entry,
                tx,
            );
        }
    }
    assert forall|version: int| 0 <= version <= n implies #[trigger] recovery::history_goes_on(
        same,
        more,
        version,
    ) by {
        assert(recovery::history_goes_on(same, history, version));
        if version == n {
            lemma_leads_further(same, history.entries[n], history.bases[n], data, tx, after_tx);
        }
    }
    assert forall|version: int| 0 <= version < n implies #[trigger] recovery::snapshot_tells(
        serializer,
        same,
        after,
        more,
        version,
    ) by {
        assert(recovery::snapshot_tells(serializer, same, files, history, version));
        lemma_other_file(files, FileKind::Journal, newest, bytes, FileKind::Snapshot, version);
    }
    assert(recovery::tells::<D, T, S>(serializer, same, after, n, true, after_tx, more));
}

/// Flushing the journal, or syncing it, changes nothing about what is on record.
pub(crate) proof fn lemma_persisting_keeps(before: Disk, request: RequestView, after: Disk)
    requires
        before.files.contains_key(before.journal),
        request is Flush || request is Sync,
        does(before, request, after),
    ensures
        after.journal == before.journal,
        after.files.contains_key(after.journal),
        after.flushed() == before.flushed(),
        request is Flush ==> after.pending.len() == 0,
{
    if request is Flush {
        lemma_nothing_to_flush(after);
    }
}

/// A commit that is asked for with the data at hand starts in step with the directory.
pub proof fn commit_starts_in_step<D: Default, T: Tx<D>, S: Serializer<D> + Serializer<T>>(
    serializer: S,
    options: OptionsView,
    same: spec_fn(D, D) -> bool,
    disk: Disk,
    persistent: PersistentView<D>,
    commit: CommitView<D, T>,
)
    requires
        is_kept::<D, T, S>(serializer, same, disk, persistent),
        serializer.encodes(commit.tx, Ok(commit.entry)),
    ensures
        is_in_step::<D, T, S>(
            serializer,
            options,
            same,
            disk,
            commit.at(StageView::prepared(persistent, options)),
        ),
{
}

/// A commit stays in step with the directory, as long as its requests are done.
pub proof fn commit_stays_in_step<D: Default, T: Tx<D>, S: Serializer<D> + Serializer<T>>(
    serializer: S,
    options: OptionsView,
    same: spec_fn(D, D) -> bool,
    disk: Disk,
    before: CommitView<D, T>,
    reply: ReplyView,
    after: CommitView<D, T>,
    after_disk: Disk,
)
    requires
        recovery::is_equivalence(same),
        is_in_step::<D, T, S>(serializer, options, same, disk, before),
        before.request() matches Some(request) && does(disk, request, after_disk),
        before.accepts(reply),
        reply is Done,
        store::commit_step::<D, T, S>(serializer, options, before, reply, Ok(after)),
    ensures
        is_in_step::<D, T, S>(serializer, options, same, after_disk, after),
{
    match before.stage {
        StageView::Sealing { persistent, persist } => {
            lemma_persisting_keeps(disk, persist.spec_request().unwrap(), after_disk);
        },
        StageView::Snapshotting { persistent, bytes } => {
            let newest = persistent.next_snapshot_version;
            lemma_nothing_to_flush(disk);
            let history = record::<D, T, S>(
                serializer,
                same,
                disk.files,
                newest as int,
                true,
                persistent.written_entries,
                persistent.data,
            );
            lemma_snapshot_tells::<D, T, S>(
                serializer,
                same,
                disk.files,
                newest,
                persistent.data,
                history,
                bytes,
            );
            let name = names::spec_file_name(FileKind::Snapshot, newest);
            assert(!disk.files.contains_key(name)) by {
                directory::own_files_are_found(FileKind::Snapshot, newest);
                if disk.files.contains_key(name) {
                    assert(directory::belongs(name, newest as int));
                }
            }
        },
        StageView::Opening { persistent } => {
            let newest = persistent.next_snapshot_version;
            let history = record::<D, T, S>(
                serializer,
                same,
                disk.files,
                newest as int,
                false,
                0,
                persistent.data,
            );
            lemma_opened_tells::<D, T, S>(serializer, same, disk.files, newest, persistent.data, history);
            lemma_nothing_to_flush(after_disk);
        },
        StageView::Appending { persistent } => {
            let newest = persistent.next_snapshot_version;
            let files = disk.flushed();
            let history = record::<D, T, S>(
                serializer,
                same,
                files,
                newest as int,
                true,
                persistent.written_entries,
                persistent.data,
            );
            assert(after_disk.files.contains_key(after_disk.journal));
            assert(after_disk.flushed() =~= files.insert(
                disk.journal,
                directory::contents(files, FileKind::Journal, newest as int) + before.entry,
            ));
            assert forall|made: D| #[trigger] before.tx.turns(persistent.data, made, ()) implies is_kept::<
                D,
                T,
                S,
            >(
                serializer,
                same,
                after_disk,
                PersistentView {
                    data: made,
                    written_entries: persistent.written_entries + 1,
                    ..persistent
                },
            ) by {
                lemma_entry_tells::<D, T, S>(
                    serializer,
                    same,
                    files,
                    newest,
                    persistent.data,
                    history,
                    before.entry,
                    before.tx,
                    made,
                );
            }
        },
        StageView::Persisting { persistent, persist } => {
            lemma_persisting_keeps_with::<D, T, S>(
                serializer,
                same,
                disk,
                persist.spec_request().unwrap(),
                after_disk,
                persistent,
                before.tx,
            );
        },
        _ => {},
    }
}

proof fn lemma_persisting_keeps_with<D: Default, T: Tx<D>, S: Serializer<D> + Serializer<T>>(
    serializer: S,
    same: spec_fn(D, D) -> bool,
    disk: Disk,
    request: RequestView,
    after_disk: Disk,
    persistent: PersistentView<D>,
    tx: T,
)
    requires
        is_kept_with::<D, T, S>(serializer, same, disk, persistent, tx),
        request is Flush || request is Sync,
        does(disk, request, after_disk),
    ensures
        is_kept_with::<D, T, S>(serializer, same, after_disk, persistent, tx),
        request is Flush ==> after_disk.pending.len() == 0,
{
    assert forall|made: D| #[trigger] tx.turns(persistent.data, made, ()) implies is_kept::<D, T, S>(
        serializer,
        same,
        after_disk,
        PersistentView { data: made, ..persistent },
    ) by {
        assert(is_kept::<D, T, S>(serializer, same, disk, PersistentView { data: made, ..persistent }));
        lemma_persisting_keeps(disk, request, after_disk);
    }
}

/// Journals are only ever appended to, and never removed: neither the files nor what they hold
/// once the buffer is flushed.
pub proof fn journals_only_grow<D: Default, T: Tx<D>, S: Serializer<D> + Serializer<T>>(
    serializer: S,
    options: OptionsView,
    same: spec_fn(D, D) -> bool,
    disk: Disk,
    commit: CommitView<D, T>,
    after_disk: Disk,
    version: SnapshotVersion,
)
    requires
        is_in_step::<D, T, S>(serializer, options, same, disk, commit),
        commit.request() matches Some(request) && does(disk, request, after_disk),
        directory::has(disk.files, FileKind::Journal, version as int),
    ensures
        directory::has(after_disk.files, FileKind::Journal, version as int),
        directory::contents(disk.files, FileKind::Journal, version as int).is_prefix_of(
            directory::contents(after_disk.files, FileKind::Journal, version as int),
        ),
        directory::has(after_disk.flushed(), FileKind::Journal, version as int),
        directory::contents(disk.flushed(), FileKind::Journal, version as int).is_prefix_of(
            directory::contents(after_disk.flushed(), FileKind::Journal, version as int),
        ),
{
    let before = disk.flushed();
    let after = after_disk.flushed();
    let name = names::spec_file_name(FileKind::Journal, version);
    match commit.stage {
        StageView::Sealing { persist, .. } | StageView::Persisting { persist, .. } => {
            lemma_persisting_keeps(disk, persist.spec_request().unwrap(), after_disk);
        },
        StageView::Snapshotting { persistent, .. } => {
            lemma_nothing_to_flush(disk);
            lemma_nothing_to_flush(after_disk);
            let snapshot = names::spec_file_name(FileKind::Snapshot, persistent.next_snapshot_version);
            if name == snapshot {
                names::file_names_differ(
                    FileKind::Journal,
                    version,
                    FileKind::Snapshot,
                    persistent.next_snapshot_version,
                );
            }
            assert(after[name] == before[name]);
        },
        StageView::Opening { .. } => {
            lemma_nothing_to_flush(disk);
            lemma_nothing_to_flush(after_disk);
        },
        StageView::Appending { .. } => {
            assert(after =~= before.insert(disk.journal, before[disk.journal] + commit.entry));
        },
        _ => {},
    }
    assert(before[name] =~= after[name].take(before[name].len() as int));
}

/// Is the data on record, whichever journal is the newest?
pub open spec fn can_be_loaded<D: Default, T: Tx<D>, S: Serializer<D> + Serializer<T>>(
    serializer: S,
    same: spec_fn(D, D) -> bool,
    files: Files,
    data: D,
) -> bool {
    exists|newest: int, opened: bool, written: nat| #[trigger]
        recovery::on_record::<D, T, S>(serializer, same, files, newest, opened, written, data)
}

/// Does a commit go this way, while its requests turn the directory into these?
pub open spec fn is_commit_run<D: Default, T: Tx<D>, S: Serializer<D> + Serializer<T>>(
    serializer: S,
    options: OptionsView,
    commits: Seq<CommitView<D, T>>,
    disks: Seq<Disk>,
) -> bool {
    &&& commits.len() == disks.len() > 0
    &&& forall|i: int|
        0 <= i < commits.len() - 1 ==> is_commit_run_step::<D, T, S>(
            serializer,
            options,
            #[trigger] commits[i],
            disks[i],
            commits[i + 1],
            disks[i + 1],
        )
}

/// Is this a step of a run?
pub open spec fn is_commit_run_step<D: Default, T: Tx<D>, S: Serializer<D> + Serializer<T>>(
    serializer: S,
    options: OptionsView,
    before: CommitView<D, T>,
    disk: Disk,
    after: CommitView<D, T>,
    after_disk: Disk,
) -> bool {
    &&& before.request() matches Some(request) && does(disk, request, after_disk)
    &&& before.accepts(ReplyView::Done)
    &&& store::commit_step::<D, T, S>(serializer, options, before, ReplyView::Done, Ok(after))
}

pub(crate) proof fn lemma_run_stays_in_step<D: Default, T: Tx<D>, S: Serializer<D> + Serializer<T>>(
    serializer: S,
    options: OptionsView,
    same: spec_fn(D, D) -> bool,
    first: PersistentView<D>,
    commits: Seq<CommitView<D, T>>,
    disks: Seq<Disk>,
    i: int,
)
    requires
        recovery::is_equivalence(same),
        is_kept::<D, T, S>(serializer, same, disks[0], first),
        serializer.encodes(commits[0].tx, Ok(commits[0].entry)),
        commits[0].stage == StageView::prepared(first, options),
        is_commit_run::<D, T, S>(serializer, options, commits, disks),
        0 <= i < commits.len(),
    ensures
        is_in_step::<D, T, S>(serializer, options, same, disks[i], commits[i]),
        store::is_on_course(first, options, commits[i]),
        commits[i].tx == commits[0].tx,
        commits[i].entry == commits[0].entry,
    decreases i,
{
    if i > 0 {
        lemma_run_stays_in_step::<D, T, S>(serializer, options, same, first, commits, disks, i - 1);
        let before = commits[i - 1];
        assert(is_commit_run_step::<D, T, S>(
            serializer,
            options,
            before,
            disks[i - 1],
            commits[i],
            disks[i],
        ));
        commit_stays_in_step::<D, T, S>(
            serializer,
            options,
            same,
            disks[i - 1],
            before,
            ReplyView::Done,
            commits[i],
            disks[i],
        );
        store::commits_stay_on_course::<D, T, S>(
            serializer,
            options,
            first,
            before,
            ReplyView::Done,
            commits[i],
        );
    }
}

/// Is the data on record in the files as they are, but for the first part of an entry that may
/// stand at the end of the journal? The rest of the entry is in the buffer.
pub open spec fn is_torn<D: Default, T: Tx<D>, S: Serializer<D> + Serializer<T>>(
    serializer: S,
    same: spec_fn(D, D) -> bool,
    disk: Disk,
    data: D,
    entry: Seq<u8>,
) -> bool {
    exists|files: Files, length: int|
        {
            &&& #[trigger] is_torn_at(files, length, disk, entry)
            &&& can_be_loaded::<D, T, S>(serializer, same, files, data)
        }
}

/// Are the files of the directory these, with the first `length` bytes of `entry` at the end of
/// the journal, and is the rest of the entry in the buffer?
pub open spec fn is_torn_at(files: Files, length: int, disk: Disk, entry: Seq<u8>) -> bool {
    &&& 0 <= length <= entry.len()
    &&& files.contains_key(disk.journal)
    &&& disk.files == files.insert(disk.journal, files[disk.journal] + entry.take(length))
    &&& disk.pending == entry.skip(length)
}

/// Can whatever `tx` makes of the data be loaded from these files?
pub open spec fn can_be_loaded_with<D: Default, T: Tx<D>, S: Serializer<D> + Serializer<T>>(
    serializer: S,
    same: spec_fn(D, D) -> bool,
    files: Files,
    data: D,
    tx: T,
) -> bool {
    forall|after: D| #[trigger]
        tx.turns(data, after, ()) ==> can_be_loaded::<D, T, S>(serializer, same, files, after)
}

/// What the files of the directory say at this stage of a commit that started with the data
/// `first` and nothing in the buffer. The buffer is left out: it is lost if the process ends.
///
/// Until the entry is appended, the data without the transaction can be loaded; once it is
/// flushed, the data with it. In between, a part of the entry may stand in the journal.
pub open spec fn is_safe<D: Default, T: Tx<D>, S: Serializer<D> + Serializer<T>>(
    serializer: S,
    options: OptionsView,
    same: spec_fn(D, D) -> bool,
    disk: Disk,
    first: PersistentView<D>,
    commit: CommitView<D, T>,
) -> bool {
    match commit.stage {
        StageView::Encoded | StageView::Loading { .. } => false,
        StageView::Sealing { .. } | StageView::Snapshotting { .. } | StageView::Opening { .. }
        | StageView::Appending { .. } => disk.pending.len() == 0 && can_be_loaded::<D, T, S>(
            serializer,
            same,
            disk.files,
            first.data,
        ),
        StageView::Persisting { persist: Persist::Flushing { .. }, .. } => is_torn::<D, T, S>(
            serializer,
            same,
            disk,
            first.data,
            commit.entry,
        ),
        StageView::Persisting { .. } => can_be_loaded_with::<D, T, S>(
            serializer,
            same,
            disk.files,
            first.data,
            commit.tx,
        ),
        StageView::Persisted { .. } => if options.commit_flush() is Some {
            can_be_loaded_with::<D, T, S>(serializer, same, disk.files, first.data, commit.tx)
        } else {
            is_torn::<D, T, S>(serializer, same, disk, first.data, commit.entry)
        },
    }
}

/// With nothing in the buffer, what is on record can be loaded from the files.
proof fn lemma_in_files<D: Default, T: Tx<D>, S: Serializer<D> + Serializer<T>>(
    serializer: S,
    options: OptionsView,
    same: spec_fn(D, D) -> bool,
    disk: Disk,
    first: PersistentView<D>,
    commit: CommitView<D, T>,
)
    requires
        is_in_step::<D, T, S>(serializer, options, same, disk, commit),
        store::is_on_course(first, options, commit),
        disk.pending.len() == 0,
    ensures
        if commit.stage is Persisting || commit.stage is Persisted {
            can_be_loaded_with::<D, T, S>(serializer, same, disk.files, first.data, commit.tx)
        } else {
            can_be_loaded::<D, T, S>(serializer, same, disk.files, first.data)
        },
{
    lemma_nothing_to_flush(disk);
    match commit.stage {
        StageView::Persisting { persistent, .. } | StageView::Persisted { persistent } => {
            assert forall|after: D| #[trigger]
                commit.tx.turns(first.data, after, ()) implies can_be_loaded::<D, T, S>(
                serializer,
                same,
                disk.files,
                after,
            ) by {
                assert(commit.tx.turns(persistent.data, after, ()));
                assert(is_kept::<D, T, S>(
                    serializer,
                    same,
                    disk,
                    PersistentView { data: after, ..persistent },
                ));
            }
        },
        StageView::Opening { persistent } => {
            assert(recovery::on_record::<D, T, S>(
                serializer,
                same,
                disk.files,
                persistent.next_snapshot_version as int,
                false,
                0,
                first.data,
            ));
        },
        _ => {},
    }
}

/// What an append leaves in the files.
proof fn lemma_append_may_be_torn(disk: Disk, entry: Seq<u8>, after_disk: Disk)
    requires
        disk.files.contains_key(disk.journal),
        disk.pending.len() == 0,
        does(disk, RequestView::Append { bytes: entry }, after_disk),
    ensures
        is_torn_at(
            disk.files,
            after_disk.files[disk.journal].len() - disk.files[disk.journal].len(),
            after_disk,
            entry,
        ),
{
    let old = disk.files[disk.journal];
    let new = after_disk.files[disk.journal];
    let length = new.len() - old.len();
    let all = old + disk.pending + entry;
    assert(all =~= old + entry);
    assert(new + after_disk.pending == old + entry);
    assert(length <= entry.len()) by {
        assert((new + after_disk.pending).len() == (old + entry).len());
    }
    assert(new =~= old + entry.take(length)) by {
        assert forall|i: int| 0 <= i < new.len() implies new[i] == (old + entry.take(length))[i] by {
            assert((new + after_disk.pending)[i] == (old + entry)[i]);
        }
    }
    assert(after_disk.pending =~= entry.skip(length)) by {
        assert forall|i: int| 0 <= i < after_disk.pending.len() implies after_disk.pending[i] == entry.skip(
            length,
        )[i] by {
            assert((new + after_disk.pending)[new.len() + i] == (old + entry)[new.len() + i]);
        }
    }
}

/// After every step of a commit that starts with nothing in the buffer, the files as they are
/// hold the data: without the transaction until its entry is appended, with it once the entry is
/// flushed. So a process that ends between two requests loses no data, but for one thing: between
/// appending the entry and flushing it, a part of it may stand at the end of the journal.
pub proof fn every_stage_keeps_the_data<D: Default, T: Tx<D>, S: Serializer<D> + Serializer<T>>(
    serializer: S,
    options: OptionsView,
    same: spec_fn(D, D) -> bool,
    first: PersistentView<D>,
    commits: Seq<CommitView<D, T>>,
    disks: Seq<Disk>,
    i: int,
)
    requires
        recovery::is_equivalence(same),
        is_kept::<D, T, S>(serializer, same, disks[0], first),
        disks[0].pending.len() == 0,
        serializer.encodes(commits[0].tx, Ok(commits[0].entry)),
        commits[0].stage == StageView::prepared(first, options),
        is_commit_run::<D, T, S>(serializer, options, commits, disks),
        0 <= i < commits.len(),
    ensures
        is_safe::<D, T, S>(serializer, options, same, disks[i], first, commits[i]),
    decreases i,
{
    lemma_run_stays_in_step::<D, T, S>(serializer, options, same, first, commits, disks, i);
    if i == 0 {
        lemma_in_files::<D, T, S>(serializer, options, same, disks[0], first, commits[0]);
    } else {
        every_stage_keeps_the_data::<D, T, S>(
            serializer,
            options,
            same,
            first,
            commits,
            disks,
            i - 1,
        );
        lemma_run_stays_in_step::<D, T, S>(serializer, options, same, first, commits, disks, i - 1);
        let before = commits[i - 1];
        let disk = disks[i - 1];
        assert(is_commit_run_step::<D, T, S>(serializer, options, before, disk, commits[i], disks[i]));
        if before.stage is Appending {
            lemma_append_may_be_torn(disk, before.entry, disks[i]);
            assert(is_torn::<D, T, S>(serializer, same, disks[i], first.data, before.entry));
        } else {
            lemma_in_files::<D, T, S>(serializer, options, same, disks[i], first, commits[i]);
        }
    }
}

/// Does what is executed when a commit of `tx` is finished make the same of the data as `tx`?
pub open spec fn is_wrapped_well<D, T: Tx<D>, Q: Tx<D, R> + From<T>, R>(tx: T) -> bool {
    forall|before: D, after: D, result: R| #[trigger]
        store::executes::<D, T, Q, R>(tx, before, after, result) ==> tx.turns(before, after, ())
}

/// A finished commit has turned the data by the transaction, and keeps it: the new data is on
/// record in the directory, once the buffer is flushed. If every commit flushes, nothing is left
/// in the buffer; if every commit syncs, the journal is on the disk.
pub proof fn a_commit_is_kept<D: Default, T: Tx<D>, S: Serializer<D> + Serializer<T>, Q: Tx<D, R> + From<T>, R>(
    serializer: S,
    options: OptionsView,
    same: spec_fn(D, D) -> bool,
    first: PersistentView<D>,
    commits: Seq<CommitView<D, T>>,
    disks: Seq<Disk>,
    persistent: PersistentView<D>,
    after: PersistentView<D>,
    result: R,
)
    requires
        recovery::is_equivalence(same),
        is_kept::<D, T, S>(serializer, same, disks[0], first),
        serializer.encodes(commits[0].tx, Ok(commits[0].entry)),
        commits[0].stage == StageView::prepared(first, options),
        is_commit_run::<D, T, S>(serializer, options, commits, disks),
        commits.last().stage == (StageView::Persisted { persistent }),
        after == (PersistentView { data: after.data, ..persistent }),
        store::executes::<D, T, Q, R>(commits.last().tx, persistent.data, after.data, result),
        is_wrapped_well::<D, T, Q, R>(commits[0].tx),
    ensures
        commits[0].tx.turns(first.data, after.data, ()),
        is_kept::<D, T, S>(serializer, same, disks.last(), after),
        options.commit_flush() is Some ==> disks.last().pending.len() == 0,
        options.commit_flush() == Some(JournalFlushMethod::FlushAndSync) ==> disks.last().synced,
{
    lemma_run_stays_in_step::<D, T, S>(serializer, options, same, first, commits, disks, commits.len() - 1);
    let tx = commits[0].tx;
    assert(tx.turns(persistent.data, after.data, ()));
    assert(persistent.data == first.data);
}

/// What was committed, and is not in the buffer any more, is there again when the data is loaded
/// from the directory.
pub proof fn kept_data_comes_back<D: Default, T: Tx<D>, S: Serializer<D> + Serializer<T>>(
    serializer: S,
    same: spec_fn(D, D) -> bool,
    blank: spec_fn(Seq<u8>) -> bool,
    disk: Disk,
    persistent: PersistentView<D>,
    loads: Seq<LoadView<D>>,
    replies: Seq<ReplyView>,
)
    requires
        recovery::is_faithful::<D, T, S>(serializer, same, blank),
        is_kept::<D, T, S>(serializer, same, disk, persistent),
        disk.pending.len() == 0,
        recovery::is_load_run::<D, T, S>(serializer, disk.files, loads, replies),
        loads.last().is_loaded(),
    ensures
        recovery::is_restored(
            same,
            persistent.data,
            persistent.next_snapshot_version as int,
            persistent.written_entries,
            loads.last(),
        ),
{
    lemma_nothing_to_flush(disk);
    recovery::loading_restores_the_data::<D, T, S>(
        serializer,
        same,
        blank,
        disk.files,
        persistent.next_snapshot_version as int,
        true,
        persistent.written_entries,
        persistent.data,
        loads,
        replies,
    );
}

/// If every commit flushes, then what was committed is there again when the store is opened
/// anew: the data that is loaded is like what the transaction made of the data before, and the
/// journal is written on.
pub proof fn committed_data_comes_back<
    D: Default,
    T: Tx<D>,
    S: Serializer<D> + Serializer<T>,
    Q: Tx<D, R> + From<T>,
    R,
>(
    serializer: S,
    options: OptionsView,
    same: spec_fn(D, D) -> bool,
    blank: spec_fn(Seq<u8>) -> bool,
    first: PersistentView<D>,
    commits: Seq<CommitView<D, T>>,
    disks: Seq<Disk>,
    persistent: PersistentView<D>,
    after: PersistentView<D>,
    result: R,
    loads: Seq<LoadView<D>>,
    replies: Seq<ReplyView>,
)
    requires
        recovery::is_faithful::<D, T, S>(serializer, same, blank),
        options.commit_flush() is Some,
        is_kept::<D, T, S>(serializer, same, disks[0], first),
        serializer.encodes(commits[0].tx, Ok(commits[0].entry)),
        commits[0].stage == StageView::prepared(first, options),
        is_commit_run::<D, T, S>(serializer, options, commits, disks),
        commits.last().stage == (StageView::Persisted { persistent }),
        after == (PersistentView { data: after.data, ..persistent }),
        store::executes::<D, T, Q, R>(commits.last().tx, persistent.data, after.data, result),
        is_wrapped_well::<D, T, Q, R>(commits[0].tx),
        recovery::is_load_run::<D, T, S>(serializer, disks.last().files, loads, replies),
        loads.last().is_loaded(),
    ensures
        commits[0].tx.turns(first.data, after.data, ()),
        recovery::is_restored(
            same,
            after.data,
            after.next_snapshot_version as int,
            after.written_entries,
            loads.last(),
        ),
{
    a_commit_is_kept::<D, T, S, Q, R>(
        serializer,
        options,
        same,
        first,
        commits,
        disks,
        persistent,
        after,
        result,
    );
    kept_data_comes_back::<D, T, S>(serializer, same, blank, disks.last(), after, loads, replies);
}

/// A directory without files of a store is on record as a store with the default data.
pub proof fn a_new_store_is_on_record<D: Default, T: Tx<D>, S: Serializer<D> + Serializer<T>>(
    serializer: S,
    same: spec_fn(D, D) -> bool,
    files: Files,
    data: D,
)
    requires
        recovery::is_equivalence(same),
        directory::has_no_store(files),
        forall|default: D| #[trigger] persistent::is_default(default) ==> same(data, default),
    ensures
        recovery::on_record::<D, T, S>(serializer, same, files, 0, false, 0, data),
{
    let none = Seq::<T>::empty();
    let history = History::<D, T> { entries: seq![none], bases: seq![data, data] };
    assert(!directory::has(files, FileKind::Journal, 0)) by {
        directory::own_files_are_found(FileKind::Journal, 0);
    }
    assert(recovery::history_goes_on(same, history, 0)) by {
        assert forall|others: Seq<T>, a: D, b: D|
            #![trigger recovery::all_alike(same, none, others), tx::runs(others, a, b)]
            recovery::all_alike(same, none, others) && same(data, a) && tx::runs(others, a, b) implies same(
            data,
            b,
        ) by {
            let states = choose|states: Seq<D>| tx::passes(others, states, a, b);
            assert(a == b);
        }
        assert(history.entries[0] == none);
    }
    assert(recovery::tells::<D, T, S>(serializer, same, files, 0, false, data, history));
}

/// Once the data is loaded and its journal opened, the store keeps it, and can go on with a
/// commit.
pub proof fn loaded_data_is_kept<D: Default, T: Tx<D>, S: Serializer<D> + Serializer<T>>(
    serializer: S,
    same: spec_fn(D, D) -> bool,
    disk: Disk,
    newest: int,
    opened: bool,
    written: nat,
    data: D,
    persistent: PersistentView<D>,
    remaining: Seq<ActionView>,
    after_disk: Disk,
)
    requires
        recovery::is_equivalence(same),
        recovery::on_record::<D, T, S>(serializer, same, disk.files, newest, opened, written, data),
        recovery::is_restored(same, data, newest, written, LoadView::Read { persistent, remaining }),
        does(
            disk,
            RequestView::OpenJournal {
                name: names::spec_file_name(FileKind::Journal, persistent.next_snapshot_version),
            },
            after_disk,
        ),
    ensures
        is_kept::<D, T, S>(serializer, same, after_disk, persistent),
        after_disk.pending.len() == 0,
{
    let version = persistent.next_snapshot_version;
    let history = record::<D, T, S>(serializer, same, disk.files, newest, opened, written, data);
    if !opened {
        lemma_opened_tells::<D, T, S>(serializer, same, disk.files, version, data, history);
    }
    lemma_nothing_to_flush(after_disk);
    let files = after_disk.files;
    let now = History::<D, T> { bases: history.bases.update(newest + 1, persistent.data), ..history };
    assert forall|v: int| 0 <= v <= newest implies #[trigger] recovery::journal_tells(serializer, files, now, v) by {
        assert(recovery::journal_tells(serializer, files, history, v));
    }
    assert forall|v: int| 0 <= v < newest implies #[trigger] recovery::snapshot_tells(
        serializer,
        same,
        files,
        now,
        v,
    ) by {
        assert(recovery::snapshot_tells(serializer, same, files, history, v));
    }
    assert forall|v: int| 0 <= v <= newest implies #[trigger] recovery::history_goes_on(same, now, v) by {
        assert(recovery::history_goes_on(same, history, v));
        if v == newest {
            let txs = history.entries[v];
            assert forall|others: Seq<T>, a: D, b: D|
                #![trigger recovery::all_alike(same, txs, others), tx::runs(others, a, b)]
                recovery::all_alike(same, txs, others) && same(history.bases[v], a) && tx::runs(
                    others,
                    a,
                    b,
                ) implies same(persistent.data, b) by {
                assert(same(data, b));
                assert(same(data, persistent.data));
                assert(same(persistent.data, data));
            }
        }
    }
    assert(recovery::tells::<D, T, S>(serializer, same, files, newest, true, persistent.data, now));
}

/// The journal that is being written holds as many transactions as are counted.
pub(crate) proof fn lemma_current_journal<D: Default, T: Tx<D>, S: Serializer<D> + Serializer<T>>(
    serializer: S,
    same: spec_fn(D, D) -> bool,
    disk: Disk,
    persistent: PersistentView<D>,
) -> (txs: Seq<T>)
    requires
        is_kept::<D, T, S>(serializer, same, disk, persistent),
    ensures
        recovery::is_journal_of(serializer, disk.flushed()[disk.journal], txs),
        txs.len() == persistent.written_entries,
{
    let newest = persistent.next_snapshot_version as int;
    let history = record::<D, T, S>(
        serializer,
        same,
        disk.flushed(),
        newest,
        true,
        persistent.written_entries,
        persistent.data,
    );
    assert(recovery::journal_tells(serializer, disk.flushed(), history, newest));
    history.entries[newest]
}

/// Flushing the journal, or syncing it, leaves what the store keeps; after a flush, nothing is
/// in the buffer any more.
pub proof fn persisting_keeps_the_data<D: Default, T: Tx<D>, S: Serializer<D> + Serializer<T>>(
    serializer: S,
    same: spec_fn(D, D) -> bool,
    disk: Disk,
    persistent: PersistentView<D>,
    request: RequestView,
    after_disk: Disk,
)
    requires
        is_kept::<D, T, S>(serializer, same, disk, persistent),
        request is Flush || request is Sync,
        does(disk, request, after_disk),
    ensures
        is_kept::<D, T, S>(serializer, same, after_disk, persistent),
        request is Flush ==> after_disk.pending.len() == 0,
        request is Sync ==> after_disk.synced,
{
    lemma_persisting_keeps(disk, request, after_disk);
}

/// Where no journal is open, and the snapshot before it may be missing, the store falls back to
/// the newest journal or snapshot that there is.
proof fn lemma_falls_back<D: Default, T: Tx<D>, S: Serializer<D> + Serializer<T>>(
    serializer: S,
    same: spec_fn(D, D) -> bool,
    files: Files,
    newest: int,
    data: D,
    history: History<D, T>,
)
    requires
        recovery::is_equivalence(same),
        recovery::tells_so_far::<D, T, S>(serializer, same, files, newest, data, history),
    ensures
        can_be_loaded::<D, T, S>(serializer, same, files, data),
        newest > 0 && !directory::has(files, FileKind::Journal, newest) && !directory::has(
            files,
            FileKind::Snapshot,
            newest - 1,
        ) && directory::has(files, FileKind::Journal, newest - 1) ==> recovery::on_record::<D, T, S>(
            serializer,
            same,
            files,
            newest - 1,
            true,
            history.entries[newest - 1].len(),
            data,
        ),
    decreases newest,
{
    if directory::has(files, FileKind::Journal, newest) {
        assert(recovery::tells::<D, T, S>(serializer, same, files, newest, true, data, history));
        assert(recovery::on_record::<D, T, S>(
            serializer,
            same,
            files,
            newest,
            true,
            history.entries[newest].len(),
            data,
        ));
    } else if newest == 0 || directory::has(files, FileKind::Snapshot, newest - 1) {
        assert(recovery::tells::<D, T, S>(serializer, same, files, newest, false, data, history));
        assert(recovery::on_record::<D, T, S>(
            serializer,
            same,
            files,
            newest,
            false,
            history.entries[newest].len(),
            data,
        ));
    } else {
        let less = History::<D, T> {
            entries: history.entries.drop_last(),
            bases: history.bases.drop_last().update(newest, data),
        };
        assert(directory::is_in_order(files, newest - 1)) by {
            assert forall|name: Seq<u8>| #[trigger] files.contains_key(name) implies directory::belongs(
                name,
                newest - 1,
            ) by {
                assert(directory::belongs(name, newest));
            }
        }
        // Nothing happened to the data after the journal that is the newest now.
        assert(same(data, history.bases[newest])) by {
            let none = Seq::<T>::empty();
            let base = history.bases[newest];
            assert(recovery::journal_tells(serializer, files, history, newest));
            assert(recovery::history_goes_on(same, history, newest));
            assert(recovery::all_alike(same, history.entries[newest], none));
            assert(tx::passes(none, seq![base], base, base));
            assert(tx::runs(none, base, base));
            assert(same(base, base));
        }
        assert forall|v: int| 0 <= v <= newest - 1 implies #[trigger] recovery::journal_tells(
            serializer,
            files,
            less,
            v,
        ) by {
            assert(recovery::journal_tells(serializer, files, history, v));
        }
        assert forall|v: int| 0 <= v < newest - 1 implies #[trigger] recovery::snapshot_tells(
            serializer,
            same,
            files,
            less,
            v,
        ) by {
            assert(recovery::snapshot_tells(serializer, same, files, history, v));
        }
        assert forall|v: int| 0 <= v <= newest - 1 implies #[trigger] recovery::history_goes_on(same, less, v) by {
            assert(recovery::history_goes_on(same, history, v));
            if v == newest - 1 {
                lemma_leads_to_alike(same, history.entries[v], history.bases[v], history.bases[newest], data);
            }
        }
        assert(recovery::tells_so_far::<D, T, S>(serializer, same, files, newest - 1, data, less));
        lemma_falls_back::<D, T, S>(serializer, same, files, newest - 1, data, less);
        if directory::has(files, FileKind::Journal, newest - 1) {
            assert(recovery::tells::<D, T, S>(serializer, same, files, newest - 1, true, data, less));
            assert(less.entries[newest - 1] == history.entries[newest - 1]);
        }
    }
}

/// What leads to one data leads to data like it.
proof fn lemma_leads_to_alike<D, T: Tx<D>>(same: spec_fn(D, D) -> bool, txs: Seq<T>, from: D, to: D, like: D)
    requires
        recovery::is_equivalence(same),
        recovery::leads(same, txs, from, to),
        same(like, to),
    ensures
        recovery::leads(same, txs, from, like),
{
    assert forall|others: Seq<T>, a: D, b: D|
        #![trigger recovery::all_alike(same, txs, others), tx::runs(others, a, b)]
        recovery::all_alike(same, txs, others) && same(from, a) && tx::runs(others, a, b) implies same(like, b) by {
        assert(same(to, b));
    }
}

/// A snapshot can be removed: the data is still on record, in the journals. If the journal that
/// is being written is there, it stays the newest. If it was to be opened next, and the snapshot
/// before it is removed, the journal before that is written on.
pub proof fn snapshots_can_be_removed<D: Default, T: Tx<D>, S: Serializer<D> + Serializer<T>>(
    serializer: S,
    same: spec_fn(D, D) -> bool,
    files: Files,
    newest: int,
    opened: bool,
    written: nat,
    data: D,
    version: SnapshotVersion,
)
    requires
        recovery::is_equivalence(same),
        recovery::on_record::<D, T, S>(serializer, same, files, newest, opened, written, data),
    ensures
        ({
            let left = files.remove(names::spec_file_name(FileKind::Snapshot, version));
            &&& can_be_loaded::<D, T, S>(serializer, same, left, data)
            &&& opened || version + 1 < newest ==> recovery::on_record::<D, T, S>(
                serializer,
                same,
                left,
                newest,
                opened,
                written,
                data,
            )
            &&& !opened && version + 1 == newest && directory::has(files, FileKind::Journal, newest - 1)
                ==> exists|before: nat| #[trigger]
                recovery::on_record::<D, T, S>(serializer, same, left, newest - 1, true, before, data)
        }),
{
    let name = names::spec_file_name(FileKind::Snapshot, version);
    let left = files.remove(name);
    let history = record::<D, T, S>(serializer, same, files, newest, opened, written, data);
    assert forall|v: int| 0 <= v <= u32::MAX implies #[trigger] directory::has(left, FileKind::Journal, v)
        == directory::has(files, FileKind::Journal, v) && directory::contents(left, FileKind::Journal, v)
        == directory::contents(files, FileKind::Journal, v) by {
        if names::spec_file_name(FileKind::Journal, v as u32) == name {
            names::file_names_differ(FileKind::Journal, v as u32, FileKind::Snapshot, version);
        }
    }
    assert forall|v: int| 0 <= v <= newest implies #[trigger] recovery::journal_tells(
        serializer,
        left,
        history,
        v,
    ) by {
        assert(recovery::journal_tells(serializer, files, history, v));
        assert(directory::has(left, FileKind::Journal, v) == directory::has(files, FileKind::Journal, v));
    }
    assert forall|v: int| 0 <= v < newest implies #[trigger] recovery::snapshot_tells(
        serializer,
        same,
        left,
        history,
        v,
    ) by {
        assert(recovery::snapshot_tells(serializer, same, files, history, v));
    }
    assert(directory::is_in_order(left, newest));
    assert(recovery::tells_so_far::<D, T, S>(serializer, same, left, newest, data, history));
    lemma_falls_back::<D, T, S>(serializer, same, left, newest, data, history);
    assert(directory::has(left, FileKind::Journal, newest) == directory::has(files, FileKind::Journal, newest));
    if opened || version + 1 < newest {
        if !opened && names::spec_file_name(FileKind::Snapshot, (newest - 1) as u32) == name {
            names::file_names_differ(FileKind::Snapshot, (newest - 1) as u32, FileKind::Snapshot, version);
        }
        assert(recovery::tells::<D, T, S>(serializer, same, left, newest, opened, data, history));
    }
    if !opened && version + 1 == newest && directory::has(files, FileKind::Journal, newest - 1) {
        assert(directory::has(left, FileKind::Journal, newest - 1));
    }
}

/// A commit that finds the data lost loads what is on record, which does not fail, and goes on
/// with it.
pub proof fn a_commit_loads_lost_data<D: Default, T: Tx<D>, S: Serializer<D> + Serializer<T>>(
    serializer: S,
    options: OptionsView,
    same: spec_fn(D, D) -> bool,
    blank: spec_fn(Seq<u8>) -> bool,
    files: Files,
    newest: int,
    opened: bool,
    data: D,
    history: History<D, T>,
    before: CommitView<D, T>,
    load: LoadView<D>,
    listed: Seq<Seq<u8>>,
    reply: ReplyView,
    outcome: Result<CommitView<D, T>, StoreError<<S as Serializer<T>>::Error, <S as Serializer<D>>::Error>>,
)
    requires
        recovery::is_faithful::<D, T, S>(serializer, same, blank),
        recovery::tells::<D, T, S>(serializer, same, files, newest, opened, data, history),
        before.stage == (StageView::Loading { load }),
        recovery::is_on_track::<D, T, S>(same, files, newest, history, load, listed),
        load.request() matches Some(request) && recovery::is_true_reply(files, listed, request, reply),
        store::commit_step::<D, T, S>(serializer, options, before, reply, outcome),
    ensures
        before.accepts(reply),
        outcome matches Ok(after) && match after.stage {
            StageView::Loading { load: next } => recovery::is_on_track::<D, T, S>(
                same,
                files,
                newest,
                history,
                next,
                recovery::listed_with(listed, reply),
            ),
            stage => goes_on_with(same, options, data, newest, history.entries[newest].len(), stage),
        },
{
    match outcome {
        Ok(after) => {
            let next = choose|next: LoadView<D>| #[trigger]
                persistent::load_step::<D, T, S>(serializer, load, reply, Ok(next)) && store::load_goes_on(
                    next,
                    options,
                    after.stage,
                );
            recovery::loading_keeps_on_track::<D, T, S>(
                serializer,
                same,
                blank,
                files,
                newest,
                opened,
                data,
                history,
                load,
                listed,
                reply,
                Ok(next),
            );
        },
        Err(error) => {
            recovery::loading_keeps_on_track::<D, T, S>(
                serializer,
                same,
                blank,
                files,
                newest,
                opened,
                data,
                history,
                load,
                listed,
                reply,
                Err(error),
            );
        },
    }
}

/// Is this where a commit goes once data like `data` was loaded?
pub open spec fn goes_on_with<D>(
    same: spec_fn(D, D) -> bool,
    options: OptionsView,
    data: D,
    newest: int,
    written: nat,
    stage: StageView<D>,
) -> bool {
    exists|persistent: PersistentView<D>, remaining: Seq<ActionView>|
        stage == StageView::prepared(persistent, options) && #[trigger] recovery::is_restored(
            same,
            data,
            newest,
            written,
            LoadView::Read { persistent, remaining },
        )
}

} // verus!
