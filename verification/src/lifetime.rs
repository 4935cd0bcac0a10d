//! What holds over the whole life of a store: stores that are opened one after the other on one
//! directory, and everything that is committed to them.

use vstd::prelude::*;
use crate::directory;
use crate::directory::Files;
use crate::durability;
use crate::durability::Disk;
use crate::error::StoreError;
use crate::journal::Persist;
use crate::names;
use crate::names::{FileKind, SnapshotVersion};
use crate::options::OptionsView;
use crate::persistent;
use crate::persistent::{LoadView, PersistentData, PersistentView};
use crate::recovery;
use crate::reopening;
use crate::request::{ReplyView, RequestView};
use crate::serializer::Serializer;
use crate::store;
use crate::store::{CommitView, StageView};
use crate::tx;
use crate::tx::Tx;

verus! {

/// A moment in the life of a store.
#[verifier::ext_equal]
pub struct Moment<D, T> {
    /// The store's directory.
    pub disk: Disk,
    /// The data, if a store is open.
    pub persistent: Option<PersistentView<D>>,
    /// The transactions that were committed so far and not lost, in order.
    pub committed: Seq<T>,
    /// Their entries.
    pub entries: Seq<Seq<u8>>,
}

/// What leads from one moment to the next.
pub enum Event<D, T> {
    /// A store is opened. Another one that was open before is gone, and with it its buffer.
    Open { loads: Seq<LoadView<D>>, replies: Seq<ReplyView> },
    /// A transaction is committed to the store that is open.
    Commit { options: OptionsView, commits: Seq<CommitView<D, T>>, disks: Seq<Disk> },
    /// The journal is flushed, and perhaps synced.
    Persist { persists: Seq<Persist>, disks: Seq<Disk> },
    /// The store goes away. What its data asks for then is done to the journal; after that, the
    /// buffer is gone.
    Drop { persists: Seq<Persist>, disks: Seq<Disk> },
    /// A commit is cut off behind one of its requests: the process ends, or the next request fails
    /// and does nothing. The store is gone then. What is in its buffer is `saved`, which is written
    /// to the journal when the store goes away; or it is lost, if it is nothing but the entry of
    /// this commit. So no entry is torn: it is in the journal wholly or not at all. What the
    /// transaction would make of the data is `made`.
    CutOff { options: OptionsView, commits: Seq<CommitView<D, T>>, disks: Seq<Disk>, made: D, saved: bool },
    /// The process ends, and what is in the buffer is lost. The files are as they were at the
    /// moment `flushed`, when nothing was in the buffer; what was committed since is lost.
    Lose { flushed: Moment<D, T> },
}

/// Is the entry of a commit in the journal, or its buffer, at this stage?
pub open spec fn is_appended<D>(stage: StageView<D>) -> bool {
    stage is Persisting || stage is Persisted
}

/// Does flushing the journal go this way, while its requests turn the directory into these?
pub open spec fn is_persist_run(persists: Seq<Persist>, disks: Seq<Disk>) -> bool {
    &&& persists.len() == disks.len() > 0
    &&& persists.last() == Persist::Persisted
    &&& forall|i: int|
        0 <= i < persists.len() - 1 ==> is_persist_run_step(
            #[trigger] persists[i],
            disks[i],
            persists[i + 1],
            disks[i + 1],
        )
}

/// Is this a step of a run?
pub open spec fn is_persist_run_step(before: Persist, disk: Disk, after: Persist, after_disk: Disk) -> bool {
    &&& before.spec_request() matches Some(request) && durability::does(disk, request, after_disk)
    &&& after == before.next()
}

/// Does this event lead from one moment to the other?
pub open spec fn happens<D: Default, T: Tx<D>, S: Serializer<D> + Serializer<T>>(
    serializer: S,
    before: Moment<D, T>,
    event: Event<D, T>,
    after: Moment<D, T>,
) -> bool {
    match event {
        Event::Open { loads, replies } => {
            &&& recovery::is_load_run::<D, T, S>(serializer, before.disk.files, loads, replies)
            &&& loads.last().is_loaded()
            &&& loads.last() matches LoadView::Read { persistent, .. } && after == (Moment {
                disk: after.disk,
                persistent: Some(persistent),
                ..before
            }) && durability::does(
                before.disk,
                RequestView::OpenJournal {
                    name: names::spec_file_name(FileKind::Journal, persistent.next_snapshot_version),
                },
                after.disk,
            )
        },
        Event::Commit { options, commits, disks } => {
            &&& durability::is_commit_run::<D, T, S>(serializer, options, commits, disks)
            &&& serializer.encodes(commits[0].tx, Ok(commits[0].entry))
            &&& before.persistent matches Some(first) && commits[0].stage == StageView::prepared(first, options)
            &&& disks[0] == before.disk
            &&& after.persistent matches Some(now) && commits.last().stage matches StageView::Persisted {
                persistent,
            } && now == (PersistentView { data: now.data, ..persistent }) && commits[0].tx.turns(
                persistent.data,
                now.data,
                (),
            )
            &&& after == (Moment {
                disk: disks.last(),
                persistent: after.persistent,
                committed: before.committed.push(commits[0].tx),
                entries: before.entries.push(commits[0].entry),
            })
        },
        Event::Persist { persists, disks } => {
            &&& before.persistent is Some
            &&& is_persist_run(persists, disks)
            &&& disks[0] == before.disk
            &&& after == (Moment { disk: disks.last(), ..before })
        },
        Event::Drop { persists, disks } => {
            &&& disks.len() > 0
            &&& disks[0] == before.disk
            &&& before.persistent matches Some(now) && match now.spec_on_drop() {
                Some(persist) => is_persist_run(persists, disks) && persists[0] == persist,
                None => disks.len() == 1,
            }
            &&& after == (Moment::<D, T> {
                disk: Disk { pending: Seq::empty(), ..disks.last() },
                persistent: None,
                ..before
            })
        },
        Event::CutOff { options, commits, disks, made, saved } => {
            let tx = commits[0].tx;
            let entry = commits[0].entry;
            let appended = is_appended(commits.last().stage);
            &&& durability::is_commit_run::<D, T, S>(serializer, options, commits, disks)
            &&& serializer.encodes(tx, Ok(entry))
            &&& before.persistent matches Some(first) && commits[0].stage == StageView::prepared(first, options)
                && tx.turns(first.data, made, ())
            &&& disks[0] == before.disk
            &&& !saved ==> disks.last().pending.len() == if appended {
                entry.len()
            } else {
                0
            }
            &&& after == (Moment::<D, T> {
                disk: Disk {
                    files: if saved {
                        disks.last().flushed()
                    } else {
                        disks.last().files
                    },
                    journal: disks.last().journal,
                    pending: Seq::empty(),
                    synced: after.disk.synced,
                },
                persistent: None,
                committed: if appended && saved {
                    before.committed.push(tx)
                } else {
                    before.committed
                },
                entries: if appended && saved {
                    before.entries.push(entry)
                } else {
                    before.entries
                },
            })
        },
        Event::Lose { flushed } => {
            &&& flushed.disk.pending.len() == 0
            &&& before.disk.files == flushed.disk.files
            &&& after == (Moment::<D, T> {
                disk: Disk { pending: Seq::empty(), synced: after.disk.synced, ..before.disk },
                persistent: None,
                ..flushed
            })
        },
    }
}

/// Is this the life of a store?
pub open spec fn is_life<D: Default, T: Tx<D>, S: Serializer<D> + Serializer<T>>(
    serializer: S,
    moments: Seq<Moment<D, T>>,
    events: Seq<Event<D, T>>,
) -> bool {
    &&& moments.len() == events.len() + 1
    &&& moments[0].persistent is None
    &&& moments[0].committed.len() == 0
    &&& moments[0].entries.len() == 0
    &&& moments[0].disk.pending.len() == 0
    &&& forall|i: int|
        0 <= i < events.len() ==> happens::<D, T, S>(serializer, moments[i], #[trigger] events[i], moments[i + 1])
            && (events[i] matches Event::Lose { flushed } ==> moments.take(i + 1).contains(flushed))
}

/// Does every commit flush the journal?
pub open spec fn every_commit_flushes<D, T>(events: Seq<Event<D, T>>) -> bool {
    forall|i: int|
        0 <= i < events.len() ==> (#[trigger] events[i] matches Event::Commit { options, .. }
            ==> options.commit_flush() is Some)
}

/// Is no commit ever lost with a buffer?
pub open spec fn loses_nothing<D, T>(events: Seq<Event<D, T>>) -> bool {
    forall|i: int| 0 <= i < events.len() ==> !(#[trigger] events[i] is Lose)
}

/// Is nothing in a buffer when a store is opened or goes away? Either every commit flushes it; or
/// it is empty then, be it that it was lost; or the data of the store that goes away has to be
/// flushed.
pub open spec fn leaves_no_buffer<D, T>(moments: Seq<Moment<D, T>>, events: Seq<Event<D, T>>) -> bool {
    ||| every_commit_flushes(events)
    ||| forall|i: int|
        0 <= i < events.len() ==> match #[trigger] events[i] {
            Event::Open { .. } => moments[i].disk.pending.len() == 0,
            Event::Drop { .. } => moments[i].disk.pending.len() == 0 || (moments[i].persistent matches Some(now)
                && now.flush_on_drop),
            _ => true,
        }
}

/// Did executing the transactions in this order, each once, turn the data `from` into `to`, up to
/// data that is the same?
pub open spec fn executed_in_order<D, T: Tx<D>>(same: spec_fn(D, D) -> bool, txs: Seq<T>, from: D, to: D) -> bool
    decreases txs.len(),
{
    if txs.len() == 0 {
        same(from, to)
    } else {
        exists|before: D, after: D| #[trigger]
            txs.last().turns(before, after, ()) && executed_in_order(same, txs.drop_last(), from, before) && same(
                after,
                to,
            )
    }
}

/// All that stands in the journals up to version `newest`, by ascending version.
pub open spec fn journal_text(files: Files, newest: int) -> Seq<u8>
    decreases newest + 1,
{
    if newest < 0 {
        Seq::empty()
    } else if directory::has(files, FileKind::Journal, newest) {
        journal_text(files, newest - 1) + directory::contents(files, FileKind::Journal, newest)
    } else {
        journal_text(files, newest - 1)
    }
}

/// Does the journal of this version hold no more than `limit` transactions?
pub open spec fn has_room<T, S: Serializer<T>>(serializer: S, files: Files, version: int, limit: nat) -> bool {
    exists|txs: Seq<T>| #[trigger]
        recovery::is_journal_of(serializer, directory::contents(files, FileKind::Journal, version), txs) && txs.len()
            <= limit
}

/// Does every journal in the directory hold no more than `limit` transactions?
pub open spec fn is_within<T, S: Serializer<T>>(serializer: S, files: Files, limit: nat) -> bool {
    forall|version: int| #[trigger]
        directory::has(files, FileKind::Journal, version) ==> has_room::<T, S>(serializer, files, version, limit)
}

/// Executing the transactions at one go leads to the same data, if they do the same to the same
/// data.
pub proof fn executing_again_leads_to_the_same<D, T: Tx<D>>(
    same: spec_fn(D, D) -> bool,
    txs: Seq<T>,
    from: D,
    to: D,
    like: D,
    end: D,
)
    requires
        recovery::is_equivalence(same),
        recovery::all_alike(same, txs, txs),
        executed_in_order(same, txs, from, to),
        same(from, like),
        tx::runs(txs, like, end),
    ensures
        same(to, end),
    decreases txs.len(),
{
    let states = choose|states: Seq<D>| tx::passes(txs, states, like, end);
    if txs.len() == 0 {
        assert(same(to, from));
    } else {
        let last = txs.len() - 1;
        let (before, after) = choose|before: D, after: D| #[trigger]
            txs.last().turns(before, after, ()) && executed_in_order(same, txs.drop_last(), from, before) && same(
                after,
                to,
            );
        assert forall|i: int| 0 <= i < txs.drop_last().len() implies recovery::alike(
            same,
            #[trigger] txs.drop_last()[i],
            txs.drop_last()[i],
        ) by {
            assert(recovery::alike(same, txs[i], txs[i]));
        }
        assert forall|i: int| 0 <= i < txs.drop_last().len() implies (#[trigger] txs.drop_last()[i]).turns(
            states.drop_last()[i],
            states.drop_last()[i + 1],
            (),
        ) by {
            assert(txs[i].turns(states[i], states[i + 1], ()));
        }
        assert(tx::passes(txs.drop_last(), states.drop_last(), like, states[last]));
        assert(tx::runs(txs.drop_last(), like, states[last]));
        executing_again_leads_to_the_same(same, txs.drop_last(), from, before, like, states[last]);
        assert(recovery::alike(same, txs[last], txs[last]));
        assert(txs[last].turns(states[last], states[last + 1], ()));
        assert(same(after, end));
        assert(same(to, after));
    }
}

/// Data that is the same was come to in the same way.
proof fn lemma_executed_alike<D, T: Tx<D>>(same: spec_fn(D, D) -> bool, txs: Seq<T>, from: D, to: D, like: D)
    requires
        recovery::is_equivalence(same),
        executed_in_order(same, txs, from, to),
        same(to, like),
    ensures
        executed_in_order(same, txs, from, like),
{
    if txs.len() > 0 {
        let (before, after) = choose|before: D, after: D| #[trigger]
            txs.last().turns(before, after, ()) && executed_in_order(same, txs.drop_last(), from, before) && same(
                after,
                to,
            );
        assert(same(after, like));
    }
}

proof fn lemma_executed_further<D, T: Tx<D>>(
    same: spec_fn(D, D) -> bool,
    txs: Seq<T>,
    from: D,
    to: D,
    tx: T,
    further: D,
)
    requires
        recovery::is_equivalence(same),
        executed_in_order(same, txs, from, to),
        tx.turns(to, further, ()),
    ensures
        executed_in_order(same, txs.push(tx), from, further),
{
    assert(txs.push(tx).drop_last() =~= txs);
    assert(txs.push(tx).last() == tx);
    assert(same(further, further));
}

/// Journals that hold the same make up the same text.
proof fn lemma_same_text(files: Files, other: Files, newest: int)
    requires
        newest <= u32::MAX,
        forall|version: int|
            0 <= version <= newest ==> #[trigger] directory::has(files, FileKind::Journal, version)
                == directory::has(other, FileKind::Journal, version),
        forall|version: int|
            0 <= version <= newest && #[trigger] directory::has(files, FileKind::Journal, version)
                ==> directory::contents(files, FileKind::Journal, version) == directory::contents(
                other,
                FileKind::Journal,
                version,
            ),
    ensures
        journal_text(files, newest) == journal_text(other, newest),
    decreases newest + 1,
{
    if newest >= 0 {
        lemma_same_text(files, other, newest - 1);
        assert(directory::has(files, FileKind::Journal, newest) == directory::has(
            other,
            FileKind::Journal,
            newest,
        ));
    }
}

/// A file that is no journal up to `newest` does not matter to the text.
proof fn lemma_text_without(files: Files, kind: FileKind, version: SnapshotVersion, bytes: Seq<u8>, newest: int)
    requires
        newest <= u32::MAX,
        kind == FileKind::Snapshot || version > newest,
    ensures
        journal_text(files.insert(names::spec_file_name(kind, version), bytes), newest) == journal_text(
            files,
            newest,
        ),
{
    let other = files.insert(names::spec_file_name(kind, version), bytes);
    assert forall|v: int| 0 <= v <= newest implies #[trigger] directory::has(files, FileKind::Journal, v)
        == directory::has(other, FileKind::Journal, v) by {
        durability::lemma_other_file(files, kind, version, bytes, FileKind::Journal, v);
    }
    assert forall|v: int|
        0 <= v <= newest && #[trigger] directory::has(files, FileKind::Journal, v) implies directory::contents(
        files,
        FileKind::Journal,
        v,
    ) == directory::contents(other, FileKind::Journal, v) by {
        durability::lemma_other_file(files, kind, version, bytes, FileKind::Journal, v);
    }
    lemma_same_text(files, other, newest);
}

/// The version of the journal that a commit is about.
spec fn version_of<D>(stage: StageView<D>) -> SnapshotVersion {
    match stage {
        StageView::Encoded | StageView::Loading { .. } => 0,
        StageView::Sealing { persistent, .. } => persistent.next_snapshot_version,
        StageView::Snapshotting { persistent, .. } => persistent.next_snapshot_version,
        StageView::Opening { persistent } => persistent.next_snapshot_version,
        StageView::Appending { persistent } => persistent.next_snapshot_version,
        StageView::Persisting { persistent, .. } => persistent.next_snapshot_version,
        StageView::Persisted { persistent } => persistent.next_snapshot_version,
    }
}

/// Is the journal of this version open, and is there none behind it?
pub open spec fn is_ready(disk: Disk, newest: SnapshotVersion) -> bool {
    &&& disk.journal == names::spec_file_name(FileKind::Journal, newest)
    &&& disk.files.contains_key(disk.journal)
    &&& forall|version: int| version > newest ==> !#[trigger] directory::has(disk.files, FileKind::Journal, version)
}

/// Is the directory as it has to be at this stage of a commit, whatever stands in the files?
spec fn is_tidy<D>(disk: Disk, stage: StageView<D>) -> bool {
    match stage {
        StageView::Encoded | StageView::Loading { .. } => false,
        StageView::Sealing { persistent, persist } => {
            &&& is_ready(disk, persistent.next_snapshot_version)
            &&& persist != (Persist::Flushing { then_sync: false })
            &&& persist is Syncing ==> disk.pending.len() == 0
        },
        StageView::Snapshotting { persistent, .. } => is_ready(disk, persistent.next_snapshot_version)
            && disk.pending.len() == 0,
        StageView::Opening { persistent } => {
            &&& disk.files.contains_key(disk.journal)
            &&& disk.pending.len() == 0
            &&& forall|version: int|
                version >= persistent.next_snapshot_version ==> !#[trigger] directory::has(
                    disk.files,
                    FileKind::Journal,
                    version,
                )
        },
        StageView::Appending { persistent } => is_ready(disk, persistent.next_snapshot_version),
        StageView::Persisting { persistent, .. } => is_ready(disk, persistent.next_snapshot_version),
        StageView::Persisted { persistent } => is_ready(disk, persistent.next_snapshot_version),
    }
}

/// With the same files in the directory, the journal that is open is ready as before.
proof fn lemma_still_ready(disk: Disk, after_disk: Disk, newest: SnapshotVersion)
    requires
        is_ready(disk, newest),
        after_disk.journal == disk.journal,
        after_disk.files.dom() == disk.files.dom(),
    ensures
        is_ready(after_disk, newest),
{
    assert(after_disk.files.dom().contains(after_disk.journal));
    assert forall|version: int| version > newest implies !#[trigger] directory::has(
        after_disk.files,
        FileKind::Journal,
        version,
    ) by {
        assert(!directory::has(disk.files, FileKind::Journal, version));
        let name = names::spec_file_name(FileKind::Journal, version as u32);
        assert(after_disk.files.dom().contains(name) == disk.files.dom().contains(name));
    }
}

/// Changing one file brings up no journal of a version from `first` on, unless it is that file.
proof fn lemma_no_new_journal(
    files: Files,
    kind: FileKind,
    version: SnapshotVersion,
    bytes: Seq<u8>,
    first: int,
)
    requires
        kind == FileKind::Snapshot || version < first,
        forall|v: int| v >= first ==> !#[trigger] directory::has(files, FileKind::Journal, v),
    ensures
        forall|v: int|
            v >= first ==> !#[trigger] directory::has(
                files.insert(names::spec_file_name(kind, version), bytes),
                FileKind::Journal,
                v,
            ),
{
    assert forall|v: int| v >= first implies !#[trigger] directory::has(
        files.insert(names::spec_file_name(kind, version), bytes),
        FileKind::Journal,
        v,
    ) by {
        if 0 <= v <= u32::MAX {
            durability::lemma_other_file(files, kind, version, bytes, FileKind::Journal, v);
            assert(!directory::has(files, FileKind::Journal, v));
        }
    }
}

/// Writing a snapshot leaves the text of the journals, of which there is none behind it.
proof fn lemma_snapshot_text(disk: Disk, newest: SnapshotVersion, bytes: Seq<u8>, after_disk: Disk)
    requires
        is_ready(disk, newest),
        newest < u32::MAX,
        disk.pending.len() == 0,
        durability::does(
            disk,
            RequestView::WriteSnapshot { name: names::spec_file_name(FileKind::Snapshot, newest), bytes },
            after_disk,
        ),
    ensures
        after_disk.files.contains_key(after_disk.journal),
        after_disk.pending.len() == 0,
        forall|version: int|
            version >= newest + 1 ==> !#[trigger] directory::has(after_disk.files, FileKind::Journal, version),
        journal_text(after_disk.flushed(), newest + 1) == journal_text(disk.flushed(), newest as int),
{
    let name = names::spec_file_name(FileKind::Snapshot, newest);
    let written = after_disk.files[name];
    durability::lemma_nothing_to_flush(disk);
    assert(after_disk.files =~= disk.files.insert(name, written));
    durability::lemma_nothing_to_flush(after_disk);
    lemma_no_new_journal(disk.files, FileKind::Snapshot, newest, written, newest + 1);
    lemma_text_without(disk.files, FileKind::Snapshot, newest, written, newest as int);
    assert(!directory::has(after_disk.files, FileKind::Journal, newest + 1));
}

/// Opening a new journal leaves the text of the journals.
proof fn lemma_opening_text(disk: Disk, newest: SnapshotVersion, after_disk: Disk)
    requires
        disk.files.contains_key(disk.journal),
        disk.pending.len() == 0,
        forall|version: int|
            version >= newest ==> !#[trigger] directory::has(disk.files, FileKind::Journal, version),
        durability::does(
            disk,
            RequestView::OpenJournal { name: names::spec_file_name(FileKind::Journal, newest) },
            after_disk,
        ),
    ensures
        is_ready(after_disk, newest),
        journal_text(after_disk.flushed(), newest as int) == journal_text(disk.flushed(), newest as int),
{
    let nothing = Seq::<u8>::empty();
    assert(!directory::has(disk.files, FileKind::Journal, newest as int));
    durability::lemma_nothing_to_flush(disk);
    durability::lemma_nothing_to_flush(after_disk);
    assert forall|v: int| v >= newest + 1 implies !#[trigger] directory::has(disk.files, FileKind::Journal, v) by {}
    lemma_no_new_journal(disk.files, FileKind::Journal, newest, nothing, newest + 1);
    lemma_text_without(disk.files, FileKind::Journal, newest, nothing, newest - 1);
    assert(journal_text(disk.files, newest - 1) + nothing =~= journal_text(disk.files, newest - 1));
    assert(directory::has(after_disk.files, FileKind::Journal, newest as int));
}

/// Appending to the journal appends to the text.
proof fn lemma_append_text(disk: Disk, newest: SnapshotVersion, entry: Seq<u8>, after_disk: Disk)
    requires
        is_ready(disk, newest),
        durability::does(disk, RequestView::Append { bytes: entry }, after_disk),
    ensures
        is_ready(after_disk, newest),
        journal_text(after_disk.flushed(), newest as int) == journal_text(disk.flushed(), newest as int) + entry,
{
    let files = disk.flushed();
    let old = files[disk.journal];
    assert(after_disk.files.dom() =~= disk.files.dom());
    lemma_still_ready(disk, after_disk, newest);
    assert(after_disk.flushed() =~= files.insert(disk.journal, old + entry));
    assert(directory::has(files, FileKind::Journal, newest as int));
    lemma_text_without(files, FileKind::Journal, newest, old + entry, newest - 1);
    assert(journal_text(files, newest - 1) + (old + entry) =~= journal_text(files, newest - 1) + old + entry);
}

/// The journals, once the buffer is flushed, grow by the entry when it is appended, and not else.
proof fn lemma_step_text<D: Default, T: Tx<D>, S: Serializer<D> + Serializer<T>>(
    serializer: S,
    options: OptionsView,
    before: CommitView<D, T>,
    disk: Disk,
    after: CommitView<D, T>,
    after_disk: Disk,
)
    requires
        is_tidy(disk, before.stage),
        durability::is_commit_run_step::<D, T, S>(serializer, options, before, disk, after, after_disk),
    ensures
        is_tidy(after_disk, after.stage),
        journal_text(after_disk.flushed(), version_of(after.stage) as int) == journal_text(
            disk.flushed(),
            version_of(before.stage) as int,
        ) + if before.stage is Appending {
            before.entry
        } else {
            Seq::empty()
        },
{
    let newest = version_of(before.stage);
    match before.stage {
        StageView::Sealing { persist, .. } | StageView::Persisting { persist, .. } => {
            durability::lemma_persisting_keeps(disk, persist.spec_request().unwrap(), after_disk);
            assert(after_disk.files.dom() =~= disk.files.dom());
            lemma_still_ready(disk, after_disk, newest);
        },
        StageView::Snapshotting { bytes, .. } => {
            lemma_snapshot_text(disk, newest, bytes, after_disk);
        },
        StageView::Opening { .. } => {
            lemma_opening_text(disk, newest, after_disk);
        },
        StageView::Appending { .. } => {
            lemma_append_text(disk, newest, before.entry, after_disk);
        },
        _ => {},
    }
    let text = journal_text(disk.flushed(), newest as int);
    assert(text + Seq::<u8>::empty() =~= text);
}

/// A commit adds its entry to what stands in the journals, once the buffer is flushed.
proof fn lemma_run_text<D: Default, T: Tx<D>, S: Serializer<D> + Serializer<T>>(
    serializer: S,
    options: OptionsView,
    first: PersistentView<D>,
    commits: Seq<CommitView<D, T>>,
    disks: Seq<Disk>,
    i: int,
)
    requires
        is_ready(disks[0], first.next_snapshot_version),
        commits[0].stage == StageView::prepared(first, options),
        durability::is_commit_run::<D, T, S>(serializer, options, commits, disks),
        0 <= i < commits.len(),
    ensures
        commits[i].entry == commits[0].entry,
        is_tidy(disks[i], commits[i].stage),
        journal_text(disks[i].flushed(), version_of(commits[i].stage) as int) == journal_text(
            disks[0].flushed(),
            first.next_snapshot_version as int,
        ) + if is_appended(commits[i].stage) {
            commits[0].entry
        } else {
            Seq::empty()
        },
    decreases i,
{
    let text = journal_text(disks[0].flushed(), first.next_snapshot_version as int);
    if i == 0 {
        assert(text + Seq::<u8>::empty() =~= text);
    } else {
        lemma_run_text::<D, T, S>(serializer, options, first, commits, disks, i - 1);
        let before = commits[i - 1];
        assert(durability::is_commit_run_step::<D, T, S>(
            serializer,
            options,
            before,
            disks[i - 1],
            commits[i],
            disks[i],
        ));
        lemma_step_text::<D, T, S>(serializer, options, before, disks[i - 1], commits[i], disks[i]);
        assert(text + Seq::<u8>::empty() + before.entry =~= text + before.entry);
        assert(text + before.entry + Seq::<u8>::empty() =~= text + before.entry);
        assert(text + Seq::<u8>::empty() + Seq::<u8>::empty() =~= text + Seq::<u8>::empty());
    }
}

/// Data that is kept has its journal open.
proof fn lemma_kept_is_ready<D: Default, T: Tx<D>, S: Serializer<D> + Serializer<T>>(
    serializer: S,
    same: spec_fn(D, D) -> bool,
    disk: Disk,
    persistent: PersistentView<D>,
)
    requires
        durability::is_kept::<D, T, S>(serializer, same, disk, persistent),
    ensures
        is_ready(disk, persistent.next_snapshot_version),
{
    let newest = persistent.next_snapshot_version;
    assert(directory::is_in_order(disk.flushed(), newest as int));
    assert forall|version: int| version > newest implies !#[trigger] directory::has(
        disk.files,
        FileKind::Journal,
        version,
    ) by {
        if directory::has(disk.files, FileKind::Journal, version) {
            let name = names::spec_file_name(FileKind::Journal, version as u32);
            directory::own_files_are_found(FileKind::Journal, version as u32);
            assert(disk.flushed().contains_key(name));
            assert(directory::belongs(name, newest as int));
        }
    }
}

/// A new journal makes no difference to the text, and holds nothing.
proof fn lemma_open_text(disk: Disk, newest: SnapshotVersion, after_disk: Disk)
    requires
        durability::does(
            disk,
            RequestView::OpenJournal { name: names::spec_file_name(FileKind::Journal, newest) },
            after_disk,
        ),
    ensures
        after_disk.flushed() == after_disk.files,
        journal_text(after_disk.files, newest as int) == journal_text(disk.files, newest as int),
{
    durability::lemma_nothing_to_flush(after_disk);
    if !directory::has(disk.files, FileKind::Journal, newest as int) {
        let nothing = Seq::<u8>::empty();
        lemma_text_without(disk.files, FileKind::Journal, newest, nothing, newest - 1);
        assert(journal_text(disk.files, newest - 1) + nothing =~= journal_text(disk.files, newest - 1));
    }
}

/// Flushing changes nothing about what stands in the files, once the buffer is flushed. Then
/// nothing is in the buffer, and if the journal was to be synced, it is.
pub(crate) proof fn lemma_persist_run(persists: Seq<Persist>, disks: Seq<Disk>, i: int)
    requires
        disks[0].files.contains_key(disks[0].journal),
        is_persist_run(persists, disks),
        0 <= i < persists.len(),
    ensures
        disks[i].journal == disks[0].journal,
        disks[i].files.contains_key(disks[i].journal),
        disks[i].files.dom() == disks[0].files.dom(),
        disks[i].flushed() == disks[0].flushed(),
        disks[0].pending.len() == 0 || persists[0] is Flushing && i > 0 ==> disks[i].pending.len() == 0,
        persists[0] == (Persist::Flushing { then_sync: true }) ==> {
            &&& persists[i] != (Persist::Flushing { then_sync: false })
            &&& persists[i] is Persisted ==> disks[i].synced
        },
    decreases i,
{
    if i > 0 {
        lemma_persist_run(persists, disks, i - 1);
        assert(is_persist_run_step(persists[i - 1], disks[i - 1], persists[i], disks[i]));
        let request = persists[i - 1].spec_request().unwrap();
        durability::lemma_persisting_keeps(disks[i - 1], request, disks[i]);
        assert(disks[i].files.dom() =~= disks[i - 1].files.dom());
    }
}

/// A store that goes away leaves everything in the files, if nothing is in the buffer, or if its
/// data has to be flushed.
proof fn lemma_drop<D>(disk: Disk, persistent: PersistentView<D>, persists: Seq<Persist>, disks: Seq<Disk>)
    requires
        disk.files.contains_key(disk.journal),
        persistent.flush_on_drop || disk.pending.len() == 0,
        disks.len() > 0,
        disks[0] == disk,
        match persistent.spec_on_drop() {
            Some(persist) => is_persist_run(persists, disks) && persists[0] == persist,
            None => disks.len() == 1,
        },
    ensures
        disks.last().files == disk.flushed(),
        disks.last().pending.len() == 0,
        persistent.flush_on_drop ==> disks.last().synced,
{
    if persistent.spec_on_drop() is Some {
        lemma_persist_run(persists, disks, persists.len() - 1);
    }
    durability::lemma_nothing_to_flush(disks.last());
}

/// Is what was committed since the beginning on record in the files of the moment, when no store
/// is open?
spec fn keeps_closed<D: Default, T: Tx<D>, S: Serializer<D> + Serializer<T>>(
    serializer: S,
    same: spec_fn(D, D) -> bool,
    text: Seq<u8>,
    start: D,
    moment: Moment<D, T>,
) -> bool {
    &&& moment.disk.pending.len() == 0
    &&& exists|newest: int, opened: bool, written: nat, data: D| #[trigger]
        recovery::on_record::<D, T, S>(serializer, same, moment.disk.files, newest, opened, written, data)
            && executed_in_order(same, moment.committed, start, data) && journal_text(moment.disk.files, newest)
            == text + moment.entries.flatten()
}

/// Does the moment keep what was committed since the beginning, when the journals were `text` and
/// the data `start`?
spec fn keeps<D: Default, T: Tx<D>, S: Serializer<D> + Serializer<T>>(
    serializer: S,
    same: spec_fn(D, D) -> bool,
    text: Seq<u8>,
    start: D,
    moment: Moment<D, T>,
    now: PersistentView<D>,
) -> bool {
    &&& durability::is_kept::<D, T, S>(serializer, same, moment.disk, now)
    &&& executed_in_order(same, moment.committed, start, now.data)
    &&& journal_text(moment.disk.flushed(), now.next_snapshot_version as int) == text + moment.entries.flatten()
}

proof fn lemma_opens<D: Default, T: Tx<D>, S: Serializer<D> + Serializer<T>>(
    serializer: S,
    same: spec_fn(D, D) -> bool,
    blank: spec_fn(Seq<u8>) -> bool,
    text: Seq<u8>,
    start: D,
    newest: int,
    opened: bool,
    written: nat,
    data: D,
    before: Moment<D, T>,
    event: Event<D, T>,
    after: Moment<D, T>,
    now: PersistentView<D>,
)
    requires
        recovery::is_faithful::<D, T, S>(serializer, same, blank),
        recovery::on_record::<D, T, S>(serializer, same, before.disk.files, newest, opened, written, data),
        executed_in_order(same, before.committed, start, data),
        journal_text(before.disk.files, newest) == text + before.entries.flatten(),
        event is Open,
        happens::<D, T, S>(serializer, before, event, after),
        after.persistent == Some(now),
    ensures
        keeps::<D, T, S>(serializer, same, text, start, after, now),
        after.disk.pending.len() == 0,
{
    if let Event::Open { loads, replies } = event {
        recovery::loading_restores_the_data::<D, T, S>(
            serializer,
            same,
            blank,
            before.disk.files,
            newest,
            opened,
            written,
            data,
            loads,
            replies,
        );
        if let LoadView::Read { persistent, remaining } = loads.last() {
            durability::loaded_data_is_kept::<D, T, S>(
                serializer,
                same,
                before.disk,
                newest,
                opened,
                written,
                data,
                persistent,
                remaining,
                after.disk,
            );
            lemma_executed_alike(same, before.committed, start, data, now.data);
            lemma_open_text(before.disk, now.next_snapshot_version, after.disk);
        }
    }
}

proof fn lemma_commits<D: Default, T: Tx<D>, S: Serializer<D> + Serializer<T>>(
    serializer: S,
    same: spec_fn(D, D) -> bool,
    text: Seq<u8>,
    start: D,
    before: Moment<D, T>,
    first: PersistentView<D>,
    event: Event<D, T>,
    after: Moment<D, T>,
    now: PersistentView<D>,
)
    requires
        recovery::is_equivalence(same),
        before.persistent == Some(first),
        keeps::<D, T, S>(serializer, same, text, start, before, first),
        event is Commit,
        happens::<D, T, S>(serializer, before, event, after),
        after.persistent == Some(now),
    ensures
        keeps::<D, T, S>(serializer, same, text, start, after, now),
        event matches Event::Commit { options, .. } && (options.commit_flush() is Some ==> after.disk.pending.len()
            == 0),
{
    if let Event::Commit { options, commits, disks } = event {
        let last = commits.len() - 1;
        let tx = commits[0].tx;
        durability::lemma_run_stays_in_step::<D, T, S>(
            serializer,
            options,
            same,
            first,
            commits,
            disks,
            last,
        );
        lemma_kept_is_ready::<D, T, S>(serializer, same, disks[0], first);
        lemma_run_text::<D, T, S>(serializer, options, first, commits, disks, last);
        lemma_executed_further(same, before.committed, start, first.data, tx, now.data);
        before.entries.lemma_flatten_push(commits[0].entry);
        assert(text + before.entries.flatten() + commits[0].entry =~= text + (before.entries.flatten()
            + commits[0].entry));
        assert(is_appended(commits[last].stage));
        assert(version_of(commits[last].stage) == now.next_snapshot_version);
    }
}

/// Where the entry of a commit came from the buffer, or still is in it: at some step it was
/// appended, and since then only the journal has changed.
proof fn lemma_appended_at<D: Default, T: Tx<D>, S: Serializer<D> + Serializer<T>>(
    serializer: S,
    options: OptionsView,
    first: PersistentView<D>,
    commits: Seq<CommitView<D, T>>,
    disks: Seq<Disk>,
    i: int,
) -> (k: int)
    requires
        is_ready(disks[0], first.next_snapshot_version),
        commits[0].stage == StageView::prepared(first, options),
        durability::is_commit_run::<D, T, S>(serializer, options, commits, disks),
        0 <= i < commits.len(),
        is_appended(commits[i].stage),
    ensures
        0 <= k < i,
        commits[k].stage is Appending,
        disks[i].journal == disks[k].journal,
        disks[k].files.contains_key(disks[k].journal),
        disks[i].files == disks[k].files.insert(disks[k].journal, disks[i].files[disks[k].journal]),
        disks[i].files[disks[k].journal] + disks[i].pending == disks[k].files[disks[k].journal] + disks[k].pending
            + commits[0].entry,
    decreases i,
{
    assert(i > 0);
    let before = commits[i - 1];
    lemma_run_text::<D, T, S>(serializer, options, first, commits, disks, i - 1);
    assert(durability::is_commit_run_step::<D, T, S>(
        serializer,
        options,
        before,
        disks[i - 1],
        commits[i],
        disks[i],
    ));
    if before.stage is Appending {
        i - 1
    } else {
        let k = lemma_appended_at::<D, T, S>(serializer, options, first, commits, disks, i - 1);
        let journal = disks[k].journal;
        assert(disks[i].files[journal] + disks[i].pending =~= disks[i - 1].files[journal] + disks[i - 1].pending);
        assert(disks[i].files =~= disks[k].files.insert(journal, disks[i].files[journal]));
        k
    }
}

/// If nothing but the entry is in the buffer, the files are as they were to be before it was
/// appended.
proof fn lemma_without_entry<D: Default, T: Tx<D>, S: Serializer<D> + Serializer<T>>(
    serializer: S,
    options: OptionsView,
    first: PersistentView<D>,
    commits: Seq<CommitView<D, T>>,
    disks: Seq<Disk>,
    i: int,
) -> (k: int)
    requires
        is_ready(disks[0], first.next_snapshot_version),
        commits[0].stage == StageView::prepared(first, options),
        durability::is_commit_run::<D, T, S>(serializer, options, commits, disks),
        0 <= i < commits.len(),
        is_appended(commits[i].stage),
        disks[i].pending.len() == commits[0].entry.len(),
    ensures
        0 <= k < i,
        commits[k].stage is Appending,
        disks[i].files == disks[k].flushed(),
{
    let k = lemma_appended_at::<D, T, S>(serializer, options, first, commits, disks, i);
    let journal = disks[k].journal;
    let now = disks[i].files[journal];
    let then = disks[k].files[journal] + disks[k].pending;
    assert((now + disks[i].pending).len() == (then + commits[0].entry).len());
    assert(now =~= then) by {
        assert forall|n: int| 0 <= n < now.len() implies now[n] == then[n] by {
            assert((now + disks[i].pending)[n] == (then + commits[0].entry)[n]);
        }
    }
    assert(disks[i].files =~= disks[k].flushed());
    k
}

/// At a stage before the entry is appended, the data without the transaction is on record, once
/// the buffer is flushed.
proof fn lemma_not_appended<D: Default, T: Tx<D>, S: Serializer<D> + Serializer<T>>(
    serializer: S,
    same: spec_fn(D, D) -> bool,
    text: Seq<u8>,
    start: D,
    before: Moment<D, T>,
    first: PersistentView<D>,
    options: OptionsView,
    commits: Seq<CommitView<D, T>>,
    disks: Seq<Disk>,
    i: int,
    after: Moment<D, T>,
)
    requires
        recovery::is_equivalence(same),
        keeps::<D, T, S>(serializer, same, text, start, before, first),
        disks[0] == before.disk,
        serializer.encodes(commits[0].tx, Ok(commits[0].entry)),
        commits[0].stage == StageView::prepared(first, options),
        durability::is_commit_run::<D, T, S>(serializer, options, commits, disks),
        0 <= i < commits.len(),
        !is_appended(commits[i].stage),
        after.disk.files == disks[i].flushed(),
        after.disk.pending.len() == 0,
        after.committed == before.committed,
        after.entries == before.entries,
    ensures
        keeps_closed::<D, T, S>(serializer, same, text, start, after),
{
    durability::lemma_run_stays_in_step::<D, T, S>(serializer, options, same, first, commits, disks, i);
    lemma_kept_is_ready::<D, T, S>(serializer, same, disks[0], first);
    lemma_run_text::<D, T, S>(serializer, options, first, commits, disks, i);
    let files = after.disk.files;
    let newest = version_of(commits[i].stage) as int;
    let flat = text + before.entries.flatten();
    assert(flat + Seq::<u8>::empty() =~= flat);
    assert(journal_text(files, newest) == flat);
    match commits[i].stage {
        StageView::Opening { persistent } => {
            durability::lemma_nothing_to_flush(disks[i]);
            assert(recovery::on_record::<D, T, S>(serializer, same, files, newest, false, 0, first.data));
        },
        StageView::Sealing { persistent, .. } => {
            assert(recovery::on_record::<D, T, S>(
                serializer,
                same,
                files,
                newest,
                true,
                persistent.written_entries,
                first.data,
            ));
        },
        StageView::Snapshotting { persistent, .. } => {
            assert(recovery::on_record::<D, T, S>(
                serializer,
                same,
                files,
                newest,
                true,
                persistent.written_entries,
                first.data,
            ));
        },
        StageView::Appending { persistent } => {
            assert(recovery::on_record::<D, T, S>(
                serializer,
                same,
                files,
                newest,
                true,
                persistent.written_entries,
                first.data,
            ));
        },
        _ => {},
    }
}

proof fn lemma_cuts_off<D: Default, T: Tx<D>, S: Serializer<D> + Serializer<T>>(
    serializer: S,
    same: spec_fn(D, D) -> bool,
    text: Seq<u8>,
    start: D,
    before: Moment<D, T>,
    first: PersistentView<D>,
    event: Event<D, T>,
    after: Moment<D, T>,
)
    requires
        recovery::is_equivalence(same),
        before.persistent == Some(first),
        keeps::<D, T, S>(serializer, same, text, start, before, first),
        event is CutOff,
        happens::<D, T, S>(serializer, before, event, after),
    ensures
        keeps_closed::<D, T, S>(serializer, same, text, start, after),
{
    if let Event::CutOff { options, commits, disks, made, saved } = event {
        let last = commits.len() - 1;
        let tx = commits[0].tx;
        durability::lemma_run_stays_in_step::<D, T, S>(serializer, options, same, first, commits, disks, last);
        lemma_kept_is_ready::<D, T, S>(serializer, same, disks[0], first);
        lemma_run_text::<D, T, S>(serializer, options, first, commits, disks, last);
        if !is_appended(commits[last].stage) {
            if !saved {
                durability::lemma_nothing_to_flush(disks[last]);
            }
            lemma_not_appended::<D, T, S>(
                serializer,
                same,
                text,
                start,
                before,
                first,
                options,
                commits,
                disks,
                last,
                after,
            );
        } else if !saved {
            let k = lemma_without_entry::<D, T, S>(serializer, options, first, commits, disks, last);
            lemma_not_appended::<D, T, S>(
                serializer,
                same,
                text,
                start,
                before,
                first,
                options,
                commits,
                disks,
                k,
                after,
            );
        } else {
            let persistent = match commits[last].stage {
                StageView::Persisting { persistent, .. } => persistent,
                StageView::Persisted { persistent } => persistent,
                _ => first,
            };
            assert(persistent.data == first.data);
            assert(tx.turns(persistent.data, made, ()));
            assert(durability::is_kept::<D, T, S>(
                serializer,
                same,
                disks[last],
                PersistentView { data: made, ..persistent },
            ));
            lemma_executed_further(same, before.committed, start, first.data, tx, made);
            before.entries.lemma_flatten_push(commits[0].entry);
            assert(text + before.entries.flatten() + commits[0].entry =~= text + (before.entries.flatten()
                + commits[0].entry));
            assert(recovery::on_record::<D, T, S>(
                serializer,
                same,
                after.disk.files,
                persistent.next_snapshot_version as int,
                true,
                persistent.written_entries,
                made,
            ));
        }
    }
}

/// At every moment, everything that was committed is kept.
proof fn lemma_life<D: Default, T: Tx<D>, S: Serializer<D> + Serializer<T>>(
    serializer: S,
    same: spec_fn(D, D) -> bool,
    blank: spec_fn(Seq<u8>) -> bool,
    newest: int,
    opened: bool,
    written: nat,
    start: D,
    moments: Seq<Moment<D, T>>,
    events: Seq<Event<D, T>>,
    i: int,
)
    requires
        recovery::is_faithful::<D, T, S>(serializer, same, blank),
        is_life::<D, T, S>(serializer, moments, events),
        leaves_no_buffer(moments, events),
        recovery::on_record::<D, T, S>(serializer, same, moments[0].disk.files, newest, opened, written, start),
        0 <= i < moments.len(),
    ensures
        match moments[i].persistent {
            Some(now) => keeps::<D, T, S>(
                serializer,
                same,
                journal_text(moments[0].disk.files, newest),
                start,
                moments[i],
                now,
            ),
            None => keeps_closed::<D, T, S>(
                serializer,
                same,
                journal_text(moments[0].disk.files, newest),
                start,
                moments[i],
            ),
        },
        every_commit_flushes(events) ==> moments[i].disk.pending.len() == 0,
    decreases i,
{
    let text = journal_text(moments[0].disk.files, newest);
    if i == 0 {
        assert(moments[0].entries =~= Seq::<Seq<u8>>::empty());
        assert(text + moments[0].entries.flatten() =~= text);
        assert(same(start, start));
    } else {
        lemma_life::<D, T, S>(
            serializer,
            same,
            blank,
            newest,
            opened,
            written,
            start,
            moments,
            events,
            i - 1,
        );
        let before = moments[i - 1];
        let event = events[i - 1];
        let after = moments[i];
        assert(happens::<D, T, S>(serializer, before, event, after));
        match event {
            Event::Open { .. } => {
                let now = after.persistent.unwrap();
                assert(before.disk.pending.len() == 0);
                let (at, is_open, count, data) = match before.persistent {
                    None => choose|at: int, is_open: bool, count: nat, data: D| #[trigger]
                        recovery::on_record::<D, T, S>(serializer, same, before.disk.files, at, is_open, count, data)
                            && executed_in_order(same, before.committed, start, data) && journal_text(
                            before.disk.files,
                            at,
                        ) == text + before.entries.flatten(),
                    Some(kept) => (kept.next_snapshot_version as int, true, kept.written_entries, kept.data),
                };
                if before.persistent is Some {
                    durability::lemma_nothing_to_flush(before.disk);
                }
                lemma_opens::<D, T, S>(
                    serializer,
                    same,
                    blank,
                    text,
                    start,
                    at,
                    is_open,
                    count,
                    data,
                    before,
                    event,
                    after,
                    now,
                );
            },
            Event::Commit { .. } => {
                lemma_commits::<D, T, S>(
                    serializer,
                    same,
                    text,
                    start,
                    before,
                    before.persistent.unwrap(),
                    event,
                    after,
                    after.persistent.unwrap(),
                );
            },
            Event::Persist { persists, disks } => {
                lemma_persist_run(persists, disks, persists.len() - 1);
            },
            Event::Drop { persists, disks } => {
                let kept = before.persistent.unwrap();
                lemma_drop(before.disk, kept, persists, disks);
                assert(recovery::on_record::<D, T, S>(
                    serializer,
                    same,
                    after.disk.files,
                    kept.next_snapshot_version as int,
                    true,
                    kept.written_entries,
                    kept.data,
                ));
            },
            Event::CutOff { .. } => {
                lemma_cuts_off::<D, T, S>(
                    serializer,
                    same,
                    text,
                    start,
                    before,
                    before.persistent.unwrap(),
                    event,
                    after,
                );
            },
            Event::Lose { flushed } => {
                let past = moments.take(i);
                assert(past.contains(flushed));
                let j = choose|j: int| 0 <= j < past.len() && past[j] == flushed;
                lemma_life::<D, T, S>(
                    serializer,
                    same,
                    blank,
                    newest,
                    opened,
                    written,
                    start,
                    moments,
                    events,
                    j,
                );
                lemma_flushed_is_on_record::<D, T, S>(serializer, same, text, start, flushed, after);
            },
        }
    }
}

/// What was flushed is on record in the files.
proof fn lemma_flushed_is_on_record<D: Default, T: Tx<D>, S: Serializer<D> + Serializer<T>>(
    serializer: S,
    same: spec_fn(D, D) -> bool,
    text: Seq<u8>,
    start: D,
    flushed: Moment<D, T>,
    after: Moment<D, T>,
)
    requires
        match flushed.persistent {
            Some(now) => keeps::<D, T, S>(serializer, same, text, start, flushed, now),
            None => keeps_closed::<D, T, S>(serializer, same, text, start, flushed),
        },
        flushed.disk.pending.len() == 0,
        after.disk.pending.len() == 0,
        after.disk.files == flushed.disk.files,
        after.committed == flushed.committed,
        after.entries == flushed.entries,
    ensures
        keeps_closed::<D, T, S>(serializer, same, text, start, after),
{
    if let Some(now) = flushed.persistent {
        durability::lemma_nothing_to_flush(flushed.disk);
        assert(recovery::on_record::<D, T, S>(
            serializer,
            same,
            after.disk.files,
            now.next_snapshot_version as int,
            true,
            now.written_entries,
            now.data,
        ));
    }
}

/// A commit that is run to its end and finished is an event in the life of the store, if what is
/// executed makes the same of the data as the wrapped transaction that stands in the journal.
pub proof fn finished_commits_happen<
    D: Default,
    T: Tx<D>,
    S: Serializer<D> + Serializer<T>,
    Q: Tx<D, R> + From<T>,
    R,
>(
    serializer: S,
    options: OptionsView,
    before: Moment<D, T>,
    first: PersistentView<D>,
    commits: Seq<CommitView<D, T>>,
    disks: Seq<Disk>,
    persistent: PersistentView<D>,
    now: PersistentView<D>,
    result: R,
)
    requires
        before.persistent == Some(first),
        disks[0] == before.disk,
        serializer.encodes(commits[0].tx, Ok(commits[0].entry)),
        commits[0].stage == StageView::prepared(first, options),
        durability::is_commit_run::<D, T, S>(serializer, options, commits, disks),
        commits.last().stage == (StageView::Persisted { persistent }),
        now == (PersistentView { data: now.data, ..persistent }),
        store::executes::<D, T, Q, R>(commits[0].tx, persistent.data, now.data, result),
        durability::is_wrapped_well::<D, T, Q, R>(commits[0].tx),
    ensures
        happens::<D, T, S>(
            serializer,
            before,
            Event::Commit { options, commits, disks },
            Moment {
                disk: disks.last(),
                persistent: Some(now),
                committed: before.committed.push(commits[0].tx),
                entries: before.entries.push(commits[0].entry),
            },
        ),
{
}

/// Whenever a store is open, its data is the data of the beginning with all the committed
/// transactions executed in order, each once: however many stores were opened on the directory,
/// and however many journals and snapshots are in it.
pub proof fn the_data_is_all_that_was_committed<D: Default, T: Tx<D>, S: Serializer<D> + Serializer<T>>(
    serializer: S,
    same: spec_fn(D, D) -> bool,
    blank: spec_fn(Seq<u8>) -> bool,
    newest: int,
    opened: bool,
    written: nat,
    start: D,
    moments: Seq<Moment<D, T>>,
    events: Seq<Event<D, T>>,
    i: int,
    now: PersistentView<D>,
)
    requires
        recovery::is_faithful::<D, T, S>(serializer, same, blank),
        is_life::<D, T, S>(serializer, moments, events),
        leaves_no_buffer(moments, events),
        recovery::on_record::<D, T, S>(serializer, same, moments[0].disk.files, newest, opened, written, start),
        0 <= i < moments.len(),
        moments[i].persistent == Some(now),
    ensures
        executed_in_order(same, moments[i].committed, start, now.data),
        durability::is_kept::<D, T, S>(serializer, same, moments[i].disk, now),
{
    lemma_life::<D, T, S>(
        serializer,
        same,
        blank,
        newest,
        opened,
        written,
        start,
        moments,
        events,
        i,
    );
}

/// On a directory without files of a store, and if every commit flushes, the data of a store that
/// is opened is the default data with all the transactions that were committed before executed in
/// order, each once; a commit that was cut off counts if its entry got to the journal. If the transactions do the same to the same data, that is what comes out when
/// they are executed on the default data at one go.
pub proof fn opening_gives_back_all_commits<D: Default, T: Tx<D>, S: Serializer<D> + Serializer<T>>(
    serializer: S,
    same: spec_fn(D, D) -> bool,
    blank: spec_fn(Seq<u8>) -> bool,
    default: D,
    moments: Seq<Moment<D, T>>,
    events: Seq<Event<D, T>>,
    loaded: PersistentView<D>,
)
    requires
        recovery::is_faithful::<D, T, S>(serializer, same, blank),
        is_life::<D, T, S>(serializer, moments, events),
        every_commit_flushes(events),
        loses_nothing(events),
        directory::has_no_store(moments[0].disk.files),
        persistent::is_default(default),
        events.len() > 0,
        events.last() is Open,
        moments.last().persistent == Some(loaded),
    ensures
        executed_in_order(same, moments.last().committed, default, loaded.data),
        recovery::all_alike(same, moments.last().committed, moments.last().committed) ==> forall|end: D| #[trigger]
            tx::runs(moments.last().committed, default, end) ==> same(loaded.data, end),
{
    let committed = moments.last().committed;
    durability::a_new_store_is_on_record::<D, T, S>(serializer, same, moments[0].disk.files, default);
    the_data_is_all_that_was_committed::<D, T, S>(
        serializer,
        same,
        blank,
        0,
        false,
        0,
        default,
        moments,
        events,
        moments.len() - 1,
        loaded,
    );
    if recovery::all_alike(same, committed, committed) {
        assert forall|end: D| #[trigger] tx::runs(committed, default, end) implies same(loaded.data, end) by {
            assert(same(default, default));
            executing_again_leads_to_the_same(same, committed, default, loaded.data, default, end);
        }
    }
}

/// A store can always be opened: with nothing left in a buffer, loading does not fail, wherever it
/// is, as long as the replies are true.
pub proof fn a_store_can_always_be_opened<D: Default, T: Tx<D>, S: Serializer<D> + Serializer<T>>(
    serializer: S,
    same: spec_fn(D, D) -> bool,
    blank: spec_fn(Seq<u8>) -> bool,
    newest: int,
    opened: bool,
    written: nat,
    start: D,
    moments: Seq<Moment<D, T>>,
    events: Seq<Event<D, T>>,
    loads: Seq<LoadView<D>>,
    replies: Seq<ReplyView>,
    reply: ReplyView,
    outcome: Result<LoadView<D>, StoreError<<S as Serializer<T>>::Error, <S as Serializer<D>>::Error>>,
)
    requires
        recovery::is_faithful::<D, T, S>(serializer, same, blank),
        is_life::<D, T, S>(serializer, moments, events),
        leaves_no_buffer(moments, events),
        recovery::on_record::<D, T, S>(serializer, same, moments[0].disk.files, newest, opened, written, start),
        every_commit_flushes(events) || moments.last().disk.pending.len() == 0,
        recovery::is_load_run::<D, T, S>(serializer, moments.last().disk.files, loads, replies),
        loads.last().request() matches Some(request) && recovery::is_true_reply(
            moments.last().disk.files,
            recovery::listed_by(replies),
            request,
            reply,
        ),
        persistent::load_step::<D, T, S>(serializer, loads.last(), reply, outcome),
    ensures
        loads.last().accepts(reply),
        outcome is Ok,
{
    let last = moments.last();
    lemma_life::<D, T, S>(
        serializer,
        same,
        blank,
        newest,
        opened,
        written,
        start,
        moments,
        events,
        moments.len() - 1,
    );
    let text = journal_text(moments[0].disk.files, newest);
    let (at, is_open, count, data) = match last.persistent {
        None => choose|at: int, is_open: bool, count: nat, data: D| #[trigger]
            recovery::on_record::<D, T, S>(serializer, same, last.disk.files, at, is_open, count, data)
                && executed_in_order(same, last.committed, start, data) && journal_text(last.disk.files, at) == text
                + last.entries.flatten(),
        Some(kept) => (kept.next_snapshot_version as int, true, kept.written_entries, kept.data),
    };
    if last.persistent is Some {
        durability::lemma_nothing_to_flush(last.disk);
    }
    recovery::loading_does_not_fail::<D, T, S>(
        serializer,
        same,
        blank,
        last.disk.files,
        at,
        is_open,
        count,
        data,
        loads,
        replies,
        reply,
        outcome,
    );
}

/// Is this what happens to one store that is open? Nothing is assumed of what its files hold, nor
/// of its serializer.
pub open spec fn is_session<D: Default, T: Tx<D>, S: Serializer<D> + Serializer<T>>(
    serializer: S,
    moments: Seq<Moment<D, T>>,
    events: Seq<Event<D, T>>,
) -> bool {
    &&& moments.len() == events.len() + 1
    &&& moments[0].persistent matches Some(first) && is_ready(moments[0].disk, first.next_snapshot_version)
    &&& moments[0].committed.len() == 0
    &&& moments[0].entries.len() == 0
    &&& forall|i: int|
        0 <= i < events.len() ==> happens::<D, T, S>(serializer, moments[i], #[trigger] events[i], moments[i + 1]) && (
        events[i] is Commit || events[i] is Persist)
}

/// A commit goes by the data that it started with.
proof fn lemma_run_on_course<D: Default, T: Tx<D>, S: Serializer<D> + Serializer<T>>(
    serializer: S,
    options: OptionsView,
    first: PersistentView<D>,
    commits: Seq<CommitView<D, T>>,
    disks: Seq<Disk>,
    i: int,
)
    requires
        commits[0].stage == StageView::prepared(first, options),
        durability::is_commit_run::<D, T, S>(serializer, options, commits, disks),
        0 <= i < commits.len(),
    ensures
        store::is_on_course(first, options, commits[i]),
    decreases i,
{
    if i > 0 {
        lemma_run_on_course::<D, T, S>(serializer, options, first, commits, disks, i - 1);
        assert(durability::is_commit_run_step::<D, T, S>(
            serializer,
            options,
            commits[i - 1],
            disks[i - 1],
            commits[i],
            disks[i],
        ));
        store::commits_stay_on_course::<D, T, S>(
            serializer,
            options,
            first,
            commits[i - 1],
            ReplyView::Done,
            commits[i],
        );
    }
}

/// In a session, the journals grow by the entries of the commits.
proof fn lemma_session<D: Default, T: Tx<D>, S: Serializer<D> + Serializer<T>>(
    serializer: S,
    first: PersistentView<D>,
    moments: Seq<Moment<D, T>>,
    events: Seq<Event<D, T>>,
    i: int,
)
    requires
        is_session::<D, T, S>(serializer, moments, events),
        moments[0].persistent == Some(first),
        0 <= i < moments.len(),
    ensures
        moments[i].persistent matches Some(now) && now.flush_on_drop == first.flush_on_drop && is_ready(
            moments[i].disk,
            now.next_snapshot_version,
        ) && journal_text(moments[i].disk.flushed(), now.next_snapshot_version as int) == journal_text(
            moments[0].disk.flushed(),
            first.next_snapshot_version as int,
        ) + moments[i].entries.flatten(),
    decreases i,
{
    let text = journal_text(moments[0].disk.flushed(), first.next_snapshot_version as int);
    if i == 0 {
        assert(moments[0].entries =~= Seq::<Seq<u8>>::empty());
        assert(text + moments[0].entries.flatten() =~= text);
    } else {
        lemma_session::<D, T, S>(serializer, first, moments, events, i - 1);
        let before = moments[i - 1];
        assert(happens::<D, T, S>(serializer, before, events[i - 1], moments[i]));
        match events[i - 1] {
            Event::Commit { options, commits, disks } => {
                let last = commits.len() - 1;
                lemma_run_text::<D, T, S>(serializer, options, before.persistent.unwrap(), commits, disks, last);
                lemma_run_on_course::<D, T, S>(serializer, options, before.persistent.unwrap(), commits, disks, last);
                before.entries.lemma_flatten_push(commits[0].entry);
                assert(text + before.entries.flatten() + commits[0].entry =~= text + (before.entries.flatten()
                    + commits[0].entry));
            },
            Event::Persist { persists, disks } => {
                lemma_persist_run(persists, disks, persists.len() - 1);
                lemma_still_ready(
                    before.disk,
                    moments[i].disk,
                    before.persistent.unwrap().next_snapshot_version,
                );
            },
            _ => {},
        }
    }
}

/// A store that was opened on a directory that is in order is ready: its journal is open, and is
/// the newest.
pub proof fn an_opened_store_is_ready<D: Default, T: Tx<D>, S: Serializer<D> + Serializer<T>>(
    serializer: S,
    newest: int,
    flush_on_drop: bool,
    disk: Disk,
    loads: Seq<LoadView<D>>,
    replies: Seq<ReplyView>,
    first: PersistentView<D>,
    opened: Disk,
)
    requires
        0 <= newest <= u32::MAX,
        directory::is_in_order(disk.files, newest),
        recovery::is_load_run::<D, T, S>(serializer, disk.files, loads, replies),
        loads[0] == (LoadView::<D>::CreateDir { flush_on_drop }),
        loads.last() == (LoadView::Read { persistent: first, remaining: Seq::empty() }),
        durability::does(
            disk,
            RequestView::OpenJournal {
                name: names::spec_file_name(FileKind::Journal, first.next_snapshot_version),
            },
            opened,
        ),
    ensures
        is_ready(opened, first.next_snapshot_version),
        opened.pending.len() == 0,
{
    let version = first.next_snapshot_version;
    let plan = reopening::lemma_opened::<D, T, S>(
        serializer,
        disk.files,
        newest,
        flush_on_drop,
        loads,
        replies,
        first,
    );
    assert forall|v: int| v > version implies !#[trigger] directory::has(opened.files, FileKind::Journal, v) by {
        if v <= u32::MAX {
            reopening::lemma_none_behind(disk.files, newest, plan, version, v);
            durability::lemma_other_file(
                disk.files,
                FileKind::Journal,
                version,
                Seq::empty(),
                FileKind::Journal,
                v,
            );
        }
    }
}

/// Flushing and syncing the journal saves every commit since the store was opened, whatever the
/// options say and whatever the serializer does: the journals hold what they held then, and behind
/// it the entries of all the commits, in order; the journal is synced; and the data, the version
/// and the count of entries are what they were.
pub proof fn flushing_and_syncing_saves_all_commits<D: Default, T: Tx<D>, S: Serializer<D> + Serializer<T>>(
    serializer: S,
    first: PersistentView<D>,
    moments: Seq<Moment<D, T>>,
    events: Seq<Event<D, T>>,
    now: PersistentView<D>,
)
    requires
        is_session::<D, T, S>(serializer, moments, events),
        moments[0].persistent == Some(first),
        events.len() > 0,
        events.last() matches Event::Persist { persists, .. } && persists[0] == (Persist::Flushing { then_sync: true }),
        moments.last().persistent == Some(now),
    ensures
        journal_text(moments.last().disk.files, now.next_snapshot_version as int) == journal_text(
            moments[0].disk.flushed(),
            first.next_snapshot_version as int,
        ) + moments.last().entries.flatten(),
        moments.last().disk.pending.len() == 0,
        moments.last().disk.synced,
        moments[moments.len() - 2].persistent == Some(now),
{
    let last = moments.len() - 1;
    lemma_session::<D, T, S>(serializer, first, moments, events, last - 1);
    lemma_session::<D, T, S>(serializer, first, moments, events, last);
    assert(happens::<D, T, S>(serializer, moments[last - 1], events[last - 1], moments[last]));
    if let Event::Persist { persists, disks } = events[last - 1] {
        lemma_persist_run(persists, disks, persists.len() - 1);
        durability::lemma_nothing_to_flush(moments[last].disk);
    }
}

/// A store whose data has to be flushed when it goes away saves every commit then, whatever the
/// options say otherwise, whatever the serializer does, and however many entries there are: once
/// what its data asks for is done, the journals hold what they held when it was opened, and behind
/// it the entries of all the commits, in order; nothing is in the buffer, and the journal is
/// synced.
pub proof fn dropping_saves_all_commits<D: Default, T: Tx<D>, S: Serializer<D> + Serializer<T>>(
    serializer: S,
    first: PersistentView<D>,
    moments: Seq<Moment<D, T>>,
    events: Seq<Event<D, T>>,
    data: &PersistentData<D>,
    asked: Option<Persist>,
    persists: Seq<Persist>,
    disks: Seq<Disk>,
)
    requires
        is_session::<D, T, S>(serializer, moments, events),
        moments[0].persistent == Some(first),
        first.flush_on_drop,
        moments.last().persistent == Some(data@),
        call_ensures(PersistentData::<D>::on_drop, (data,), asked),
        disks.len() > 0,
        disks[0] == moments.last().disk,
        match asked {
            Some(persist) => is_persist_run(persists, disks) && persists[0] == persist,
            None => disks.len() == 1,
        },
    ensures
        journal_text(disks.last().files, data@.next_snapshot_version as int) == journal_text(
            moments[0].disk.flushed(),
            first.next_snapshot_version as int,
        ) + moments.last().entries.flatten(),
        disks.last().pending.len() == 0,
        disks.last().synced,
{
    lemma_session::<D, T, S>(serializer, first, moments, events, moments.len() - 1);
    lemma_drop(moments.last().disk, data@, persists, disks);
}

/// When a store is opened after one went away whose data had to be flushed, or that left nothing
/// in the buffer, it has all that was committed.
pub proof fn a_dropped_store_comes_back<D: Default, T: Tx<D>, S: Serializer<D> + Serializer<T>>(
    serializer: S,
    same: spec_fn(D, D) -> bool,
    blank: spec_fn(Seq<u8>) -> bool,
    newest: int,
    opened: bool,
    written: nat,
    start: D,
    moments: Seq<Moment<D, T>>,
    events: Seq<Event<D, T>>,
    i: int,
    dropped: PersistentView<D>,
    now: PersistentView<D>,
)
    requires
        recovery::is_faithful::<D, T, S>(serializer, same, blank),
        is_life::<D, T, S>(serializer, moments, events),
        leaves_no_buffer(moments, events),
        recovery::on_record::<D, T, S>(serializer, same, moments[0].disk.files, newest, opened, written, start),
        0 <= i < events.len() - 1,
        events[i] is Drop,
        moments[i].persistent == Some(dropped),
        dropped.flush_on_drop || moments[i].disk.pending.len() == 0,
        events[i + 1] is Open,
        moments[i + 2].persistent == Some(now),
    ensures
        executed_in_order(same, moments[i].committed, start, now.data),
        same(dropped.data, now.data),
        now.next_snapshot_version == dropped.next_snapshot_version,
        now.written_entries == dropped.written_entries,
{
    assert(happens::<D, T, S>(serializer, moments[i], events[i], moments[i + 1]));
    assert(happens::<D, T, S>(serializer, moments[i + 1], events[i + 1], moments[i + 2]));
    lemma_life::<D, T, S>(serializer, same, blank, newest, opened, written, start, moments, events, i);
    if let Event::Drop { persists, disks } = events[i] {
        lemma_drop(moments[i].disk, dropped, persists, disks);
    }
    if let Event::Open { loads, replies } = events[i + 1] {
        recovery::loading_restores_the_data::<D, T, S>(
            serializer,
            same,
            blank,
            moments[i + 1].disk.files,
            dropped.next_snapshot_version as int,
            true,
            dropped.written_entries,
            dropped.data,
            loads,
            replies,
        );
    }
    lemma_executed_alike(same, moments[i].committed, start, dropped.data, now.data);
}

/// If nothing is in the buffer, the journals hold what they held at the beginning, and behind it
/// the entries of all the commits that were not lost, in order, however many stores they were
/// committed to.
pub proof fn the_journals_hold_all_that_was_committed<D: Default, T: Tx<D>, S: Serializer<D> + Serializer<T>>(
    serializer: S,
    same: spec_fn(D, D) -> bool,
    blank: spec_fn(Seq<u8>) -> bool,
    newest: int,
    opened: bool,
    written: nat,
    start: D,
    moments: Seq<Moment<D, T>>,
    events: Seq<Event<D, T>>,
    i: int,
    now: PersistentView<D>,
)
    requires
        recovery::is_faithful::<D, T, S>(serializer, same, blank),
        is_life::<D, T, S>(serializer, moments, events),
        leaves_no_buffer(moments, events),
        recovery::on_record::<D, T, S>(serializer, same, moments[0].disk.files, newest, opened, written, start),
        0 <= i < moments.len(),
        moments[i].persistent == Some(now),
        moments[i].disk.pending.len() == 0,
    ensures
        journal_text(moments[i].disk.files, now.next_snapshot_version as int) == journal_text(
            moments[0].disk.files,
            newest,
        ) + moments[i].entries.flatten(),
{
    lemma_life::<D, T, S>(serializer, same, blank, newest, opened, written, start, moments, events, i);
    durability::lemma_nothing_to_flush(moments[i].disk);
}

/// When a store is opened after a commit was cut off, its data is all that was committed before,
/// with that transaction or without it: with it, if its entry got to the journal.
pub proof fn a_commit_that_is_cut_off_happened_or_not<D: Default, T: Tx<D>, S: Serializer<D> + Serializer<T>>(
    serializer: S,
    same: spec_fn(D, D) -> bool,
    blank: spec_fn(Seq<u8>) -> bool,
    newest: int,
    opened: bool,
    written: nat,
    start: D,
    moments: Seq<Moment<D, T>>,
    events: Seq<Event<D, T>>,
    i: int,
    now: PersistentView<D>,
)
    requires
        recovery::is_faithful::<D, T, S>(serializer, same, blank),
        is_life::<D, T, S>(serializer, moments, events),
        leaves_no_buffer(moments, events),
        recovery::on_record::<D, T, S>(serializer, same, moments[0].disk.files, newest, opened, written, start),
        0 <= i < events.len() - 1,
        events[i] is CutOff,
        events[i + 1] is Open,
        moments[i + 2].persistent == Some(now),
    ensures
        events[i] matches Event::CutOff { commits, saved, .. } && executed_in_order(
            same,
            if saved && is_appended(commits.last().stage) {
                moments[i].committed.push(commits[0].tx)
            } else {
                moments[i].committed
            },
            start,
            now.data,
        ),
{
    assert(happens::<D, T, S>(serializer, moments[i], events[i], moments[i + 1]));
    assert(happens::<D, T, S>(serializer, moments[i + 1], events[i + 1], moments[i + 2]));
    the_data_is_all_that_was_committed::<D, T, S>(
        serializer,
        same,
        blank,
        newest,
        opened,
        written,
        start,
        moments,
        events,
        i + 2,
        now,
    );
}

/// When a store is opened after a buffer was lost, and the files are as they were when nothing was
/// in it, the data of that moment is back, with its version and its count of entries.
#[verifier::rlimit(40)]
pub proof fn a_lost_buffer_takes_nothing_else_with_it<D: Default, T: Tx<D>, S: Serializer<D> + Serializer<T>>(
    serializer: S,
    same: spec_fn(D, D) -> bool,
    blank: spec_fn(Seq<u8>) -> bool,
    newest: int,
    opened: bool,
    written: nat,
    start: D,
    moments: Seq<Moment<D, T>>,
    events: Seq<Event<D, T>>,
    i: int,
    flushed: Moment<D, T>,
    before: PersistentView<D>,
    now: PersistentView<D>,
)
    requires
        recovery::is_faithful::<D, T, S>(serializer, same, blank),
        is_life::<D, T, S>(serializer, moments, events),
        leaves_no_buffer(moments, events),
        recovery::on_record::<D, T, S>(serializer, same, moments[0].disk.files, newest, opened, written, start),
        0 <= i < events.len() - 1,
        events[i] == (Event::Lose { flushed }),
        flushed.persistent == Some(before),
        events[i + 1] is Open,
        moments[i + 2].persistent == Some(now),
    ensures
        same(before.data, now.data),
        now.next_snapshot_version == before.next_snapshot_version,
        now.written_entries == before.written_entries,
        executed_in_order(same, flushed.committed, start, now.data),
{
    let past = moments.take(i + 1);
    assert(happens::<D, T, S>(serializer, moments[i], events[i], moments[i + 1]));
    assert(happens::<D, T, S>(serializer, moments[i + 1], events[i + 1], moments[i + 2]));
    assert(past.contains(flushed));
    let j = choose|j: int| 0 <= j < past.len() && past[j] == flushed;
    lemma_life::<D, T, S>(serializer, same, blank, newest, opened, written, start, moments, events, j);
    assert(moments[j] == flushed);
    assert(moments[i + 1].disk.files == flushed.disk.files);
    assert(keeps::<D, T, S>(
        serializer,
        same,
        journal_text(moments[0].disk.files, newest),
        start,
        flushed,
        before,
    ));
    if let Event::Open { loads, replies } = events[i + 1] {
        durability::kept_data_comes_back::<D, T, S>(
            serializer,
            same,
            blank,
            flushed.disk,
            before,
            loads,
            replies,
        );
    }
    lemma_executed_alike(same, flushed.committed, start, before.data, now.data);
}

/// A file that changes but for a journal with room leaves all journals with room.
proof fn lemma_within_with<T, S: Serializer<T>>(
    serializer: S,
    files: Files,
    limit: nat,
    version: SnapshotVersion,
    bytes: Seq<u8>,
    txs: Seq<T>,
)
    requires
        is_within::<T, S>(serializer, files, limit),
        recovery::is_journal_of(serializer, bytes, txs),
        txs.len() <= limit,
    ensures
        is_within::<T, S>(
            serializer,
            files.insert(names::spec_file_name(FileKind::Journal, version), bytes),
            limit,
        ),
{
    let other = files.insert(names::spec_file_name(FileKind::Journal, version), bytes);
    assert forall|v: int| #[trigger] directory::has(other, FileKind::Journal, v) implies has_room::<T, S>(
        serializer,
        other,
        v,
        limit,
    ) by {
        if v != version {
            durability::lemma_other_file(files, FileKind::Journal, version, bytes, FileKind::Journal, v);
            assert(directory::has(files, FileKind::Journal, v));
            assert(has_room::<T, S>(serializer, files, v, limit));
        } else {
            assert(directory::contents(other, FileKind::Journal, v) == bytes);
        }
    }
}

/// Opening a journal keeps all journals within their capacity.
proof fn lemma_open_within<T, S: Serializer<T>>(
    serializer: S,
    limit: nat,
    disk: Disk,
    newest: SnapshotVersion,
    after_disk: Disk,
)
    requires
        is_within::<T, S>(serializer, disk.files, limit),
        durability::does(
            disk,
            RequestView::OpenJournal { name: names::spec_file_name(FileKind::Journal, newest) },
            after_disk,
        ),
    ensures
        is_within::<T, S>(serializer, after_disk.flushed(), limit),
{
    durability::lemma_nothing_to_flush(after_disk);
    let parts = Seq::<Seq<u8>>::empty();
    let none = Seq::<T>::empty();
    assert(recovery::encodes_all(serializer, none, parts));
    assert(parts.flatten() =~= Seq::<u8>::empty());
    assert(recovery::is_journal_of(serializer, Seq::<u8>::empty(), none));
    lemma_within_with(serializer, disk.files, limit, newest, Seq::empty(), none);
}

/// A commit keeps all journals within their capacity.
proof fn lemma_run_within<D: Default, T: Tx<D>, S: Serializer<D> + Serializer<T>>(
    serializer: S,
    options: OptionsView,
    same: spec_fn(D, D) -> bool,
    limit: nat,
    first: PersistentView<D>,
    commits: Seq<CommitView<D, T>>,
    disks: Seq<Disk>,
    i: int,
)
    requires
        recovery::is_equivalence(same),
        durability::is_kept::<D, T, S>(serializer, same, disks[0], first),
        serializer.encodes(commits[0].tx, Ok(commits[0].entry)),
        commits[0].stage == StageView::prepared(first, options),
        durability::is_commit_run::<D, T, S>(serializer, options, commits, disks),
        0 < options.max_journal_entries <= limit,
        is_within::<T, S>(serializer, disks[0].flushed(), limit),
        0 <= i < commits.len(),
    ensures
        is_within::<T, S>(serializer, disks[i].flushed(), limit),
    decreases i,
{
    if i > 0 {
        lemma_run_within::<D, T, S>(serializer, options, same, limit, first, commits, disks, i - 1);
        durability::lemma_run_stays_in_step::<D, T, S>(
            serializer,
            options,
            same,
            first,
            commits,
            disks,
            i - 1,
        );
        let before = commits[i - 1];
        let disk = disks[i - 1];
        let after_disk = disks[i];
        assert(durability::is_commit_run_step::<D, T, S>(serializer, options, before, disk, commits[i], after_disk));
        match before.stage {
            StageView::Sealing { persist, .. } | StageView::Persisting { persist, .. } => {
                durability::lemma_persisting_keeps(disk, persist.spec_request().unwrap(), after_disk);
            },
            StageView::Snapshotting { persistent, bytes } => {
                let newest = persistent.next_snapshot_version;
                let files = disk.files;
                durability::lemma_nothing_to_flush(disk);
                durability::lemma_nothing_to_flush(after_disk);
                let written = after_disk.files[names::spec_file_name(FileKind::Snapshot, newest)];
                assert(after_disk.files =~= files.insert(names::spec_file_name(FileKind::Snapshot, newest), written));
                assert forall|v: int| #[trigger]
                    directory::has(after_disk.files, FileKind::Journal, v) implies has_room::<T, S>(
                    serializer,
                    after_disk.files,
                    v,
                    limit,
                ) by {
                    durability::lemma_other_file(files, FileKind::Snapshot, newest, written, FileKind::Journal, v);
                    assert(directory::has(files, FileKind::Journal, v));
                    assert(has_room::<T, S>(serializer, files, v, limit));
                }
            },
            StageView::Opening { persistent } => {
                durability::lemma_nothing_to_flush(disk);
                lemma_open_within::<T, S>(
                    serializer,
                    limit,
                    disk,
                    persistent.next_snapshot_version,
                    after_disk,
                );
            },
            StageView::Appending { persistent } => {
                let newest = persistent.next_snapshot_version;
                let files = disk.flushed();
                let old = files[disk.journal];
                let txs = durability::lemma_current_journal::<D, T, S>(serializer, same, disk, persistent);
                durability::lemma_journal_grows(serializer, old, txs, before.entry, before.tx);
                assert(after_disk.flushed() =~= files.insert(disk.journal, old + before.entry));
                assert(txs.push(before.tx).len() == persistent.written_entries + 1);
                assert(persistent.written_entries < options.max_journal_entries);
                lemma_within_with(serializer, files, limit, newest, old + before.entry, txs.push(before.tx));
            },
            _ => {},
        }
    }
}

/// Do the options of a commit allow no more than `limit` transactions in a journal?
pub open spec fn event_allows<D, T>(event: Event<D, T>, limit: nat) -> bool {
    match event {
        Event::Commit { options, .. } => 0 < options.max_journal_entries <= limit,
        Event::CutOff { options, .. } => 0 < options.max_journal_entries <= limit,
        _ => true,
    }
}

/// Have all commits options that allow no more than `limit` transactions in a journal?
pub open spec fn options_allow<D, T>(events: Seq<Event<D, T>>, limit: nat) -> bool {
    forall|i: int| 0 <= i < events.len() ==> event_allows(#[trigger] events[i], limit)
}

/// No journal file ever holds more transactions than the options allow, what is in the buffer
/// included, however often stores are opened on the directory, commits are cut off and buffers are
/// lost.
#[verifier::rlimit(40)]
pub proof fn journals_stay_within_their_capacity<D: Default, T: Tx<D>, S: Serializer<D> + Serializer<T>>(
    serializer: S,
    same: spec_fn(D, D) -> bool,
    blank: spec_fn(Seq<u8>) -> bool,
    newest: int,
    opened: bool,
    written: nat,
    start: D,
    limit: nat,
    moments: Seq<Moment<D, T>>,
    events: Seq<Event<D, T>>,
    i: int,
)
    requires
        recovery::is_faithful::<D, T, S>(serializer, same, blank),
        is_life::<D, T, S>(serializer, moments, events),
        leaves_no_buffer(moments, events),
        recovery::on_record::<D, T, S>(serializer, same, moments[0].disk.files, newest, opened, written, start),
        options_allow(events, limit),
        is_within::<T, S>(serializer, moments[0].disk.files, limit),
        0 <= i < moments.len(),
    ensures
        moments[i].persistent is Some ==> is_within::<T, S>(serializer, moments[i].disk.flushed(), limit),
        moments[i].disk.pending.len() == 0 ==> is_within::<T, S>(serializer, moments[i].disk.files, limit),
    decreases i,
{
    if i > 0 {
        journals_stay_within_their_capacity::<D, T, S>(
            serializer,
            same,
            blank,
            newest,
            opened,
            written,
            start,
            limit,
            moments,
            events,
            i - 1,
        );
        lemma_life::<D, T, S>(serializer, same, blank, newest, opened, written, start, moments, events, i - 1);
        lemma_life::<D, T, S>(serializer, same, blank, newest, opened, written, start, moments, events, i);
        let before = moments[i - 1];
        let after = moments[i];
        assert(happens::<D, T, S>(serializer, before, events[i - 1], after));
        match events[i - 1] {
            Event::Open { .. } => {
                assert(before.disk.pending.len() == 0);
                lemma_open_within::<T, S>(
                    serializer,
                    limit,
                    before.disk,
                    after.persistent.unwrap().next_snapshot_version,
                    after.disk,
                );
            },
            Event::Commit { options, commits, disks } => {
                lemma_run_within::<D, T, S>(
                    serializer,
                    options,
                    same,
                    limit,
                    before.persistent.unwrap(),
                    commits,
                    disks,
                    commits.len() - 1,
                );
            },
            Event::Persist { persists, disks } => {
                lemma_persist_run(persists, disks, persists.len() - 1);
            },
            Event::Drop { persists, disks } => {
                lemma_drop(before.disk, before.persistent.unwrap(), persists, disks);
            },
            Event::CutOff { options, commits, disks, saved, .. } => {
                let first = before.persistent.unwrap();
                let last = commits.len() - 1;
                lemma_kept_is_ready::<D, T, S>(serializer, same, disks[0], first);
                lemma_run_text::<D, T, S>(serializer, options, first, commits, disks, last);
                let at = if saved || !is_appended(commits[last].stage) {
                    last
                } else {
                    lemma_without_entry::<D, T, S>(serializer, options, first, commits, disks, last)
                };
                if !saved && !is_appended(commits[last].stage) {
                    durability::lemma_nothing_to_flush(disks[last]);
                }
                lemma_run_within::<D, T, S>(serializer, options, same, limit, first, commits, disks, at);
                assert(after.disk.files == disks[at].flushed());
            },
            Event::Lose { flushed } => {
                let past = moments.take(i);
                assert(past.contains(flushed));
                let j = choose|j: int| 0 <= j < past.len() && past[j] == flushed;
                journals_stay_within_their_capacity::<D, T, S>(
                    serializer,
                    same,
                    blank,
                    newest,
                    opened,
                    written,
                    start,
                    limit,
                    moments,
                    events,
                    j,
                );
            },
        }
        if after.persistent is Some && after.disk.pending.len() == 0 {
            durability::lemma_nothing_to_flush(after.disk);
        }
    }
}

} // verus!
