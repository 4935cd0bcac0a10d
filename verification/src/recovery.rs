//! What the files of a store say about its data, and that loading them gives it back.
//!
//! The laws here are about stores whose serializer gives back what it was given, and whose
//! transactions do the same again when they are executed again. Data that is loaded need not
//! be identical to the data that was there before: a hash map may come back in another order.
//! So everything is said up to an equivalence of data, `same`, which the laws leave open.

use vstd::prelude::*;
use crate::action;
use crate::action::ActionView;
use crate::directory;
use crate::directory::Files;
use crate::error::StoreError;
use crate::journal;
use crate::names;
use crate::names::{FileKind, SnapshotVersion};
use crate::persistent;
use crate::persistent::{LoadView, PersistentView};
use crate::request::{ReplyView, RequestView};
use crate::serializer::Serializer;
use crate::tx;
use crate::tx::Tx;

verus! {

/// Is `same` an equivalence?
pub open spec fn is_equivalence<D>(same: spec_fn(D, D) -> bool) -> bool {
    &&& forall|a: D| #[trigger] same(a, a)
    &&& forall|a: D, b: D| #[trigger] same(a, b) ==> same(b, a)
    &&& forall|a: D, b: D, c: D| #[trigger] same(a, b) && #[trigger] same(b, c) ==> same(a, c)
}

/// Do two transactions make the same of the same data?
pub open spec fn alike<D, T: Tx<D>>(same: spec_fn(D, D) -> bool, one: T, other: T) -> bool {
    forall|a: D, a2: D, b: D, b2: D|
        same(a, b) && #[trigger] one.turns(a, a2, ()) && #[trigger] other.turns(b, b2, ()) ==> same(a2, b2)
}

/// Are the transactions alike, one by one?
pub open spec fn all_alike<D, T: Tx<D>>(same: spec_fn(D, D) -> bool, ones: Seq<T>, others: Seq<T>) -> bool {
    &&& ones.len() == others.len()
    &&& forall|i: int| 0 <= i < ones.len() ==> alike(same, #[trigger] ones[i], others[i])
}

/// Do the transactions lead from the data `from` to `to`, and transactions like them from data
/// like the one to data like the other?
pub open spec fn leads<D, T: Tx<D>>(same: spec_fn(D, D) -> bool, txs: Seq<T>, from: D, to: D) -> bool {
    forall|others: Seq<T>, a: D, b: D|
        #![trigger all_alike(same, txs, others), tx::runs(others, a, b)]
        all_alike(same, txs, others) && same(from, a) && tx::runs(others, a, b) ==> same(to, b)
}

/// Is `left` nothing but a gap before `rest`?
pub open spec fn leaves(blank: spec_fn(Seq<u8>) -> bool, left: Seq<u8>, rest: Seq<u8>) -> bool {
    exists|gap: Seq<u8>| #[trigger] blank(gap) && left == gap + rest
}

/// Is the outcome of decoding an entry a transaction like `tx`, with only a gap left before
/// `rest`?
pub open spec fn comes_back<D, T: Tx<D>, E>(
    same: spec_fn(D, D) -> bool,
    blank: spec_fn(Seq<u8>) -> bool,
    tx: T,
    outcome: Result<Option<T>, E>,
    left: Seq<u8>,
    rest: Seq<u8>,
) -> bool {
    outcome matches Ok(Some(back)) && alike(same, tx, back) && leaves(blank, left, rest)
}

/// Is an entry that stands in a journal decoded to a transaction like the one that was encoded,
/// whatever stands behind it, and is nothing decoded where no entry stands? What may stand
/// before an entry, and be left at the end, is what `blank` allows.
pub open spec fn entries_come_back<D, T: Tx<D>, S: Serializer<T>>(
    serializer: S,
    same: spec_fn(D, D) -> bool,
    blank: spec_fn(Seq<u8>) -> bool,
) -> bool {
    &&& blank(Seq::empty())
    &&& forall|gap: Seq<u8>, outcome: Result<Option<T>, S::Error>, left: Seq<u8>|
        blank(gap) && #[trigger] serializer.decodes(gap, outcome, left) ==> outcome == Ok::<_, S::Error>(
            None::<T>,
        )
    &&& forall|
        tx: T,
        entry: Seq<u8>,
        gap: Seq<u8>,
        rest: Seq<u8>,
        outcome: Result<Option<T>, S::Error>,
        left: Seq<u8>,
    |
        blank(gap) && #[trigger] serializer.encodes(tx, Ok(entry)) && #[trigger] serializer.decodes(
            gap + entry + rest,
            outcome,
            left,
        ) ==> comes_back::<D, T, S::Error>(same, blank, tx, outcome, left, rest)
}

/// Is a snapshot decoded to data like the one that was encoded?
pub open spec fn snapshots_come_back<D, S: Serializer<D>>(serializer: S, same: spec_fn(D, D) -> bool) -> bool {
    forall|data: D, bytes: Seq<u8>, outcome: Result<Option<D>, S::Error>, left: Seq<u8>| #[trigger]
        serializer.encodes(data, Ok(bytes)) && #[trigger] serializer.decodes(bytes, outcome, left) ==> (
        outcome matches Ok(Some(back)) && same(data, back))
}

/// Can the store be relied upon: is `same` an equivalence that knows only one default, and does
/// the serializer give back what it was given?
pub open spec fn is_faithful<D: Default, T: Tx<D>, S: Serializer<D> + Serializer<T>>(
    serializer: S,
    same: spec_fn(D, D) -> bool,
    blank: spec_fn(Seq<u8>) -> bool,
) -> bool {
    &&& is_equivalence(same)
    &&& forall|a: D, b: D| #[trigger]
        persistent::is_default(a) && #[trigger] persistent::is_default(b) ==> same(a, b)
    &&& entries_come_back::<D, T, S>(serializer, same, blank)
    &&& snapshots_come_back::<D, S>(serializer, same)
}

/// Are `parts` the transactions, encoded?
pub open spec fn encodes_all<T, S: Serializer<T>>(serializer: S, txs: Seq<T>, parts: Seq<Seq<u8>>) -> bool {
    &&& parts.len() == txs.len()
    &&& forall|i: int| 0 <= i < txs.len() ==> serializer.encodes(#[trigger] txs[i], Ok(parts[i]))
}

/// Does the journal `bytes` hold these transactions, encoded, one after the other?
pub open spec fn is_journal_of<T, S: Serializer<T>>(serializer: S, bytes: Seq<u8>, txs: Seq<T>) -> bool {
    exists|parts: Seq<Seq<u8>>| #[trigger] encodes_all(serializer, txs, parts) && bytes == parts.flatten()
}

/// What happened to the data of a store.
pub struct History<D, T> {
    /// The transactions, by the version of the journal that was written.
    pub entries: Seq<Seq<T>>,
    /// The data with which each of these journals was begun, and behind them, the data now.
    pub bases: Seq<D>,
}

/// Does the journal of this version hold its part of the history?
pub open spec fn journal_tells<D, T, S: Serializer<T>>(
    serializer: S,
    files: Files,
    history: History<D, T>,
    version: int,
) -> bool {
    if directory::has(files, FileKind::Journal, version) {
        is_journal_of(serializer, directory::contents(files, FileKind::Journal, version), history.entries[version])
    } else {
        history.entries[version].len() == 0
    }
}

/// Does the snapshot of this version, if there is one, hold the data with which the next journal
/// was begun?
pub open spec fn snapshot_tells<D, T, S: Serializer<D>>(
    serializer: S,
    same: spec_fn(D, D) -> bool,
    files: Files,
    history: History<D, T>,
    version: int,
) -> bool {
    directory::has(files, FileKind::Snapshot, version) ==> is_snapshot_of(
        serializer,
        same,
        directory::contents(files, FileKind::Snapshot, version),
        history.bases[version + 1],
    )
}

/// Is `bytes` an encoding of data like `data`?
pub open spec fn is_snapshot_of<D, S: Serializer<D>>(
    serializer: S,
    same: spec_fn(D, D) -> bool,
    bytes: Seq<u8>,
    data: D,
) -> bool {
    exists|like: D| #[trigger] serializer.encodes(like, Ok(bytes)) && same(data, like)
}

/// Did the transactions of one journal lead to the data with which the next was begun?
pub open spec fn history_goes_on<D, T: Tx<D>>(same: spec_fn(D, D) -> bool, history: History<D, T>, version: int) -> bool {
    leads(same, history.entries[version], history.bases[version], history.bases[version + 1])
}

/// Do the files tell this history, which leads to `data`, with `newest` as the newest version?
///
/// The journals tell all of it. A snapshot only repeats what the journals up to its version
/// tell.
pub open spec fn tells_so_far<D: Default, T: Tx<D>, S: Serializer<D> + Serializer<T>>(
    serializer: S,
    same: spec_fn(D, D) -> bool,
    files: Files,
    newest: int,
    data: D,
    history: History<D, T>,
) -> bool {
    &&& 0 <= newest <= u32::MAX
    &&& directory::is_in_order(files, newest)
    &&& history.entries.len() == newest + 1
    &&& history.bases.len() == newest + 2
    &&& history.bases[newest + 1] == data
    &&& forall|default: D| #[trigger] persistent::is_default(default) ==> same(history.bases[0], default)
    &&& forall|version: int| 0 <= version <= newest ==> #[trigger] journal_tells(serializer, files, history, version)
    &&& forall|version: int| 0 <= version <= newest ==> #[trigger] history_goes_on(same, history, version)
    &&& forall|version: int|
        0 <= version < newest ==> #[trigger] snapshot_tells(serializer, same, files, history, version)
}

/// Do the files tell this history, which leads to `data`, with the journal `newest` being
/// written (`opened`) or about to be opened?
pub open spec fn tells<D: Default, T: Tx<D>, S: Serializer<D> + Serializer<T>>(
    serializer: S,
    same: spec_fn(D, D) -> bool,
    files: Files,
    newest: int,
    opened: bool,
    data: D,
    history: History<D, T>,
) -> bool {
    &&& tells_so_far::<D, T, S>(serializer, same, files, newest, data, history)
    &&& if opened {
        directory::has(files, FileKind::Journal, newest)
    } else {
        &&& !directory::has(files, FileKind::Journal, newest)
        &&& newest > 0 ==> directory::has(files, FileKind::Snapshot, newest - 1)
    }
}

/// Do the files tell how the store came to `data`, with `written` transactions in the newest
/// journal?
pub open spec fn on_record<D: Default, T: Tx<D>, S: Serializer<D> + Serializer<T>>(
    serializer: S,
    same: spec_fn(D, D) -> bool,
    files: Files,
    newest: int,
    opened: bool,
    written: nat,
    data: D,
) -> bool {
    exists|history: History<D, T>| #[trigger]
        tells::<D, T, S>(serializer, same, files, newest, opened, data, history) && history.entries[newest].len()
            == written
}

/// Parsing a journal gives transactions like those that it holds, and does not fail.
proof fn lemma_journal_comes_back<D, T: Tx<D>, S: Serializer<T>>(
    serializer: S,
    same: spec_fn(D, D) -> bool,
    blank: spec_fn(Seq<u8>) -> bool,
    txs: Seq<T>,
    parts: Seq<Seq<u8>>,
    gap: Seq<u8>,
    found: Seq<T>,
    lefts: Seq<Seq<u8>>,
    end: Result<Option<T>, S::Error>,
    rest: Seq<u8>,
)
    requires
        entries_come_back::<D, T, S>(serializer, same, blank),
        encodes_all(serializer, txs, parts),
        blank(gap),
        journal::reads_until(serializer, gap + parts.flatten(), found, lefts, end, rest),
        !(end matches Ok(Some(_))),
    ensures
        end is Ok,
        all_alike(same, txs, found),
    decreases txs.len(),
{
    let bytes = gap + parts.flatten();
    if txs.len() == 0 {
        assert(bytes =~= gap);
        if found.len() > 0 {
            assert(serializer.decodes(lefts[0], Ok(Some(found[0])), lefts[1]));
        }
        assert(serializer.decodes(gap, end, rest));
    } else {
        let tx = txs[0];
        let behind = parts.drop_first().flatten();
        assert(bytes =~= gap + parts[0] + behind);
        assert(serializer.encodes(tx, Ok(parts[0])));
        if found.len() == 0 {
            assert(serializer.decodes(gap + parts[0] + behind, end, rest));
            assert(comes_back::<D, T, S::Error>(same, blank, tx, end, rest, behind));
        } else {
            assert(serializer.decodes(lefts[0], Ok(Some(found[0])), lefts[1]));
            let outcome: Result<Option<T>, S::Error> = Ok(Some(found[0]));
            assert(serializer.decodes(gap + parts[0] + behind, outcome, lefts[1]));
            assert(comes_back::<D, T, S::Error>(same, blank, tx, outcome, lefts[1], behind));
            let next = choose|next: Seq<u8>| #[trigger] blank(next) && lefts[1] == next + behind;
            assert forall|i: int| 0 <= i < txs.drop_first().len() implies serializer.encodes(
                #[trigger] txs.drop_first()[i],
                Ok(parts.drop_first()[i]),
            ) by {
                assert(serializer.encodes(txs[i + 1], Ok(parts[i + 1])));
            }
            assert forall|i: int| 0 <= i < found.drop_first().len() implies serializer.decodes(
                lefts.drop_first()[i],
                Ok(Some(#[trigger] found.drop_first()[i])),
                lefts.drop_first()[i + 1],
            ) by {
                assert(serializer.decodes(lefts[i + 1], Ok(Some(found[i + 1])), lefts[i + 2]));
            }
            lemma_journal_comes_back::<D, T, S>(
                serializer,
                same,
                blank,
                txs.drop_first(),
                parts.drop_first(),
                next,
                found.drop_first(),
                lefts.drop_first(),
                end,
                rest,
            );
            assert forall|i: int| 0 <= i < txs.len() implies alike(same, #[trigger] txs[i], found[i]) by {
                if i > 0 {
                    assert(alike(same, txs.drop_first()[i - 1], found.drop_first()[i - 1]));
                }
            }
        }
    }
}

/// Applying the journal of a version to data like that with which it was begun succeeds, and
/// leads to data like that with which the next was begun. If the journal is written on, its
/// entries are counted.
proof fn lemma_journal_applies<D: Default, T: Tx<D>, S: Serializer<D> + Serializer<T>>(
    serializer: S,
    same: spec_fn(D, D) -> bool,
    blank: spec_fn(Seq<u8>) -> bool,
    files: Files,
    history: History<D, T>,
    version: int,
    before: PersistentView<D>,
    outcome: Result<PersistentView<D>, StoreError<<S as Serializer<T>>::Error, <S as Serializer<D>>::Error>>,
)
    requires
        is_faithful::<D, T, S>(serializer, same, blank),
        directory::has(files, FileKind::Journal, version),
        journal_tells(serializer, files, history, version),
        history_goes_on(same, history, version),
        same(history.bases[version], before.data),
        persistent::applies::<D, T, S>(
            serializer,
            directory::action_for(FileKind::Journal, version as u32),
            directory::contents(files, FileKind::Journal, version),
            before,
            outcome,
        ),
    ensures
        outcome matches Ok(after) && same(history.bases[version + 1], after.data) && after == (PersistentView {
            data: after.data,
            written_entries: if version == before.next_snapshot_version {
                history.entries[version].len()
            } else {
                before.written_entries
            },
            ..before
        }),
{
    let bytes = directory::contents(files, FileKind::Journal, version);
    let txs = history.entries[version];
    let parts = choose|parts: Seq<Seq<u8>>| #[trigger]
        encodes_all(serializer, txs, parts) && bytes == parts.flatten();
    let gap = Seq::<u8>::empty();
    assert(gap + parts.flatten() =~= bytes);
    match outcome {
        Ok(after) => {
            let written_on = persistent::is_written_on(
                directory::action_for(FileKind::Journal, version as u32),
                before.next_snapshot_version,
            );
            if written_on {
                names::file_names_differ(
                    FileKind::Journal,
                    version as u32,
                    FileKind::Journal,
                    before.next_snapshot_version,
                );
            }
            let found = choose|found: Seq<T>| #[trigger]
                journal::holds(serializer, bytes, found) && tx::runs(found, before.data, after.data) && after == (
                PersistentView {
                    data: after.data,
                    written_entries: if written_on {
                        found.len()
                    } else {
                        before.written_entries
                    },
                    ..before
                });
            let (lefts, rest) = choose|lefts: Seq<Seq<u8>>, rest: Seq<u8>|
                journal::reads_until(serializer, bytes, found, lefts, Ok(None), rest);
            lemma_journal_comes_back::<D, T, S>(
                serializer,
                same,
                blank,
                txs,
                parts,
                gap,
                found,
                lefts,
                Ok(None),
                rest,
            );
            assert(tx::runs(found, before.data, after.data));
        },
        Err(StoreError::DecodeJournalEntry(error)) => {
            let (found, lefts, rest) = choose|found: Seq<T>, lefts: Seq<Seq<u8>>, rest: Seq<u8>|
                journal::reads_until(serializer, bytes, found, lefts, Err(error), rest);
            lemma_journal_comes_back::<D, T, S>(
                serializer,
                same,
                blank,
                txs,
                parts,
                gap,
                found,
                lefts,
                Err(error),
                rest,
            );
        },
        Err(_) => {},
    }
}

/// Applying a snapshot succeeds, and leads to data like that with which the next journal was
/// begun.
proof fn lemma_snapshot_applies<D: Default, T: Tx<D>, S: Serializer<D> + Serializer<T>>(
    serializer: S,
    same: spec_fn(D, D) -> bool,
    blank: spec_fn(Seq<u8>) -> bool,
    files: Files,
    history: History<D, T>,
    version: int,
    before: PersistentView<D>,
    outcome: Result<PersistentView<D>, StoreError<<S as Serializer<T>>::Error, <S as Serializer<D>>::Error>>,
)
    requires
        is_faithful::<D, T, S>(serializer, same, blank),
        directory::has(files, FileKind::Snapshot, version),
        snapshot_tells(serializer, same, files, history, version),
        persistent::applies::<D, T, S>(
            serializer,
            directory::action_for(FileKind::Snapshot, version as u32),
            directory::contents(files, FileKind::Snapshot, version),
            before,
            outcome,
        ),
    ensures
        outcome matches Ok(after) && same(history.bases[version + 1], after.data) && after == (PersistentView {
            data: after.data,
            ..before
        }),
{
    let bytes = directory::contents(files, FileKind::Snapshot, version);
    let data = history.bases[version + 1];
    let like = choose|like: D| #[trigger] serializer.encodes(like, Ok(bytes)) && same(data, like);
    match outcome {
        Ok(after) => {
            let left = choose|left: Seq<u8>| serializer.decodes(bytes, Ok(Some(after.data)), left);
            assert(serializer.encodes(like, Ok(bytes)));
            assert(serializer.decodes(bytes, Ok(Some(after.data)), left));
            assert(same(like, after.data));
            assert(same(data, like));
        },
        Err(StoreError::DecodeSnapshot(crate::error::DecodeError::Corrupted)) => {
            let left = choose|left: Seq<u8>| serializer.decodes(bytes, Ok(None::<D>), left);
            assert(serializer.encodes(like, Ok(bytes)));
            assert(serializer.decodes(bytes, Ok(None::<D>), left));
        },
        Err(StoreError::DecodeSnapshot(crate::error::DecodeError::Serializer(error))) => {
            let left = choose|left: Seq<u8>|
                serializer.decodes(bytes, Err::<Option<D>, <S as Serializer<D>>::Error>(error), left);
            assert(serializer.encodes(like, Ok(bytes)));
            assert(serializer.decodes(bytes, Err::<Option<D>, <S as Serializer<D>>::Error>(error), left));
        },
        Err(_) => {},
    }
}

/// Where there is no journal, nothing happened to the data.
proof fn lemma_no_journal<D: Default, T: Tx<D>, S: Serializer<D> + Serializer<T>>(
    serializer: S,
    same: spec_fn(D, D) -> bool,
    files: Files,
    newest: int,
    opened: bool,
    data: D,
    history: History<D, T>,
    from: int,
    to: int,
    like: D,
)
    requires
        tells::<D, T, S>(serializer, same, files, newest, opened, data, history),
        0 <= from <= to <= newest + 1,
        forall|version: int| from <= version < to ==> !#[trigger] directory::has(files, FileKind::Journal, version),
        same(history.bases[from], like),
    ensures
        same(history.bases[to], like),
    decreases to - from,
{
    if from < to {
        let none = Seq::<T>::empty();
        assert(journal_tells(serializer, files, history, from));
        assert(!directory::has(files, FileKind::Journal, from));
        assert(history_goes_on(same, history, from));
        assert(all_alike(same, history.entries[from], none));
        assert(tx::passes(none, seq![like], like, like));
        assert(tx::runs(none, like, like));
        lemma_no_journal::<D, T, S>(serializer, same, files, newest, opened, data, history, from + 1, to, like);
    }
}

/// The journals from a version on start with the first that there is.
proof fn lemma_first_journal(files: Files, first: int, last: int) -> (version: int)
    requires
        0 <= first <= last + 1,
        last <= u32::MAX,
    ensures
        first <= version <= last + 1,
        forall|other: int| first <= other < version ==> !#[trigger] directory::has(files, FileKind::Journal, other),
        version <= last ==> directory::has(files, FileKind::Journal, version) && directory::journals_from(
            files,
            first,
            last,
        ) == seq![directory::action_for(FileKind::Journal, version as u32)] + directory::journals_from(
            files,
            version + 1,
            last,
        ),
        version > last ==> directory::journals_from(files, first, last).len() == 0,
    decreases last + 1 - first,
{
    if first > last || directory::has(files, FileKind::Journal, first) {
        first
    } else {
        lemma_first_journal(files, first + 1, last)
    }
}

proof fn lemma_last_journal(files: Files, first: int, last: int)
    requires
        0 <= first <= last <= u32::MAX,
        directory::has(files, FileKind::Journal, last),
    ensures
        directory::journals_from(files, first, last).len() > 0,
        directory::journals_from(files, first, last).last() == directory::action_for(
            FileKind::Journal,
            last as u32,
        ),
    decreases last - first,
{
    if first < last {
        lemma_last_journal(files, first + 1, last);
        let rest = directory::journals_from(files, first + 1, last);
        if directory::has(files, FileKind::Journal, first) {
            let all = directory::journals_from(files, first, last);
            assert(all.last() == rest.last());
        }
    } else {
        assert(directory::journals_from(files, first + 1, last).len() == 0);
        let all = directory::journals_from(files, first, last);
        assert(all.len() == 1);
        assert(all[0] == directory::action_for(FileKind::Journal, last as u32));
    }
}

/// Is this the plan for the directory?
pub open spec fn is_right_plan(files: Files, newest: int, plan: Seq<ActionView>) -> bool {
    exists|latest: Option<SnapshotVersion>| #[trigger]
        directory::is_latest(files, latest) && plan == directory::plan_for(files, latest, newest)
}

/// Is the data what it was when the journal of some version was begun, and are the journals from
/// there on still to be read? The entries of the newest are counted once it is read.
pub open spec fn has_come_to<D, T>(
    same: spec_fn(D, D) -> bool,
    files: Files,
    newest: int,
    history: History<D, T>,
    persistent: PersistentView<D>,
    remaining: Seq<ActionView>,
    version: int,
) -> bool {
    &&& 0 <= version <= newest + 1
    &&& same(history.bases[version], persistent.data)
    &&& persistent.written_entries == if version > newest {
        history.entries[newest].len()
    } else {
        0
    }
    &&& remaining == directory::journals_from(files, version, newest)
}

/// Is a loading store on the right way to the data that the files tell of? `listed` is what was
/// listed so far of the directory.
pub open spec fn is_on_track<D: Default, T: Tx<D>, S: Serializer<D> + Serializer<T>>(
    same: spec_fn(D, D) -> bool,
    files: Files,
    newest: int,
    history: History<D, T>,
    load: LoadView<D>,
    listed: Seq<Seq<u8>>,
) -> bool {
    match load {
        LoadView::CreateDir { .. } | LoadView::OpenDir { .. } => listed.len() == 0,
        LoadView::NextEntry { actions, .. } => {
            &&& listed.no_duplicates()
            &&& forall|name: Seq<u8>| #[trigger] listed.contains(name) ==> files.contains_key(name)
            &&& actions == directory::found_in(listed)
        },
        LoadView::OpenJournal { plan, version, .. } => version == newest && is_right_plan(files, newest, plan),
        LoadView::Read { persistent, remaining } => {
            &&& persistent.next_snapshot_version == newest
            &&& {
                ||| exists|version: int| #[trigger]
                    has_come_to(same, files, newest, history, persistent, remaining, version)
                ||| persistent.written_entries == 0 && exists|latest: SnapshotVersion| #[trigger]
                    directory::has(files, FileKind::Snapshot, latest as int) && remaining == directory::plan_for(
                        files,
                        Some(latest),
                        newest,
                    )
            }
        },
    }
}

/// Does the reply say what is the case in a directory with these files? A listing names every
/// file once.
pub open spec fn is_true_reply(files: Files, listed: Seq<Seq<u8>>, request: RequestView, reply: ReplyView) -> bool {
    match request {
        RequestView::NextEntry => match reply {
            ReplyView::Entry(Some(name)) => files.contains_key(name) && !listed.contains(name),
            ReplyView::Entry(None) => forall|name: Seq<u8>| #[trigger]
                files.contains_key(name) ==> listed.contains(name),
            _ => false,
        },
        RequestView::ReadSnapshot { name } | RequestView::ReadJournal { name } => files.contains_key(name)
            && reply == ReplyView::Contents(files[name]),
        _ => reply == ReplyView::Done,
    }
}

/// What is listed of the directory, with this reply.
pub open spec fn listed_with(listed: Seq<Seq<u8>>, reply: ReplyView) -> Seq<Seq<u8>> {
    match reply {
        ReplyView::Entry(Some(name)) => listed.push(name),
        _ => listed,
    }
}

/// Is the data loaded, and like `data`, with the journal `newest`, which has `written` entries,
/// to be written on?
pub open spec fn is_restored<D>(
    same: spec_fn(D, D) -> bool,
    data: D,
    newest: int,
    written: nat,
    load: LoadView<D>,
) -> bool {
    &&& load.is_loaded()
    &&& load matches LoadView::Read { persistent, .. } && same(data, persistent.data)
        && persistent.next_snapshot_version == newest && persistent.written_entries == written
}

/// Once no file is left to be read, the data is restored.
proof fn lemma_all_read<D: Default, T: Tx<D>, S: Serializer<D> + Serializer<T>>(
    serializer: S,
    same: spec_fn(D, D) -> bool,
    files: Files,
    newest: int,
    opened: bool,
    data: D,
    history: History<D, T>,
    persistent: PersistentView<D>,
    remaining: Seq<ActionView>,
    version: int,
)
    requires
        tells::<D, T, S>(serializer, same, files, newest, opened, data, history),
        persistent.next_snapshot_version == newest,
        has_come_to(same, files, newest, history, persistent, remaining, version),
        remaining.len() == 0,
    ensures
        is_restored(
            same,
            data,
            newest,
            history.entries[newest].len(),
            LoadView::Read { persistent, remaining },
        ),
{
    let first = lemma_first_journal(files, version, newest);
    lemma_no_journal::<D, T, S>(
        serializer,
        same,
        files,
        newest,
        opened,
        data,
        history,
        version,
        newest + 1,
        persistent.data,
    );
    assert(journal_tells(serializer, files, history, newest));
    if version <= newest {
        assert(!directory::has(files, FileKind::Journal, newest));
    }
}

/// The version that a plan leads to is that of the newest journal.
proof fn lemma_plan_leads_to_newest<D: Default, T: Tx<D>, S: Serializer<D> + Serializer<T>>(
    serializer: S,
    same: spec_fn(D, D) -> bool,
    files: Files,
    newest: int,
    opened: bool,
    data: D,
    history: History<D, T>,
    latest: Option<SnapshotVersion>,
)
    requires
        tells::<D, T, S>(serializer, same, files, newest, opened, data, history),
        directory::is_latest(files, latest),
    ensures
        latest matches Some(version) ==> version < newest,
        persistent::next_version(directory::plan_for(files, latest, newest)) == newest,
{
    let plan = directory::plan_for(files, latest, newest);
    if let Some(version) = latest {
        let name = names::spec_file_name(FileKind::Snapshot, version);
        directory::own_files_are_found(FileKind::Snapshot, version);
        assert(files.contains_key(name));
        assert(directory::belongs(name, newest));
    }
    let first: int = match latest {
        Some(version) => version + 1,
        None => 0,
    };
    let journals = directory::journals_from(files, first, newest);
    if opened {
        lemma_last_journal(files, first, newest);
        assert(plan.last() == journals.last());
    } else {
        if newest > 0 {
            assert(directory::has(files, FileKind::Snapshot, newest - 1));
            assert(first == newest);
        }
        assert(directory::journals_from(files, newest + 1, newest).len() == 0);
        assert(journals.len() == 0);
        if newest > 0 {
            assert(plan.len() == 1);
        }
    }
}

/// Loading keeps on track, and does not fail, as long as the replies are true: whatever order
/// the directory is listed in, and whatever the serializer makes of the files, within what it
/// promises. When it is through, the data is like the data that the files tell of, and the
/// newest journal is written on.
pub proof fn loading_keeps_on_track<D: Default, T: Tx<D>, S: Serializer<D> + Serializer<T>>(
    serializer: S,
    same: spec_fn(D, D) -> bool,
    blank: spec_fn(Seq<u8>) -> bool,
    files: Files,
    newest: int,
    opened: bool,
    data: D,
    history: History<D, T>,
    before: LoadView<D>,
    listed: Seq<Seq<u8>>,
    reply: ReplyView,
    outcome: Result<LoadView<D>, StoreError<<S as Serializer<T>>::Error, <S as Serializer<D>>::Error>>,
)
    requires
        is_faithful::<D, T, S>(serializer, same, blank),
        tells::<D, T, S>(serializer, same, files, newest, opened, data, history),
        is_on_track::<D, T, S>(same, files, newest, history, before, listed),
        before.request() matches Some(request) && is_true_reply(files, listed, request, reply),
        persistent::load_step::<D, T, S>(serializer, before, reply, outcome),
    ensures
        before.accepts(reply),
        outcome matches Ok(after) && is_on_track::<D, T, S>(
            same,
            files,
            newest,
            history,
            after,
            listed_with(listed, reply),
        ),
        outcome matches Ok(after) && (after.is_loaded() ==> is_restored(same, data, newest, history.entries[newest].len(), after)),
{
    match before {
        LoadView::CreateDir { .. } => {},
        LoadView::OpenDir { .. } => {},
        LoadView::NextEntry { actions, .. } => {
            match reply {
                ReplyView::Entry(Some(name)) => {
                    let now = listed.push(name);
                    assert(now.drop_last() =~= listed);
                    assert(now.last() == name);
                    assert(directory::belongs(name, newest));
                    assert forall|other: Seq<u8>| #[trigger] now.contains(other) implies files.contains_key(
                        other,
                    ) by {
                        let i = choose|i: int| 0 <= i < now.len() && now[i] == other;
                        if i < listed.len() {
                            assert(listed[i] == other);
                            assert(listed.contains(other));
                        }
                    }
                    assert(now.no_duplicates()) by {
                        assert forall|i: int, j: int| 0 <= i < now.len() && 0 <= j < now.len() && i
                            != j implies now[i] != now[j] by {
                            if i == listed.len() {
                                assert(listed.contains(listed[j]));
                            }
                            if j == listed.len() {
                                assert(listed.contains(listed[i]));
                            }
                        }
                    }
                },
                ReplyView::Entry(None) => {
                    let latest = action::latest_snapshot(actions);
                    assert forall|name: Seq<u8>| #[trigger] listed.contains(name) <==> files.contains_key(
                        name,
                    ) by {}
                    if let Ok(LoadView::OpenJournal { plan, .. }) = outcome {
                        directory::listing_order_is_irrelevant(files, newest, listed, plan);
                        lemma_plan_leads_to_newest::<D, T, S>(
                            serializer,
                            same,
                            files,
                            newest,
                            opened,
                            data,
                            history,
                            latest,
                        );
                        assert(directory::is_latest(files, latest));
                    }
                },
                _ => {},
            }
        },
        LoadView::OpenJournal { plan, .. } => {
            if let Ok(LoadView::Read { persistent, remaining }) = outcome {
                let latest = choose|latest: Option<SnapshotVersion>| #[trigger]
                    directory::is_latest(files, latest) && plan == directory::plan_for(files, latest, newest);
                match latest {
                    None => {
                        assert(has_come_to(same, files, newest, history, persistent, remaining, 0));
                        if remaining.len() == 0 {
                            lemma_all_read::<D, T, S>(
                                serializer,
                                same,
                                files,
                                newest,
                                opened,
                                data,
                                history,
                                persistent,
                                remaining,
                                0,
                            );
                        }
                    },
                    Some(version) => {
                        assert(directory::has(files, FileKind::Snapshot, version as int));
                        assert(remaining.len() > 0);
                    },
                }
            }
        },
        LoadView::Read { persistent, remaining } => {
            if exists|version: int| #[trigger]
                has_come_to(same, files, newest, history, persistent, remaining, version) {
                let version = choose|version: int| #[trigger]
                    has_come_to(same, files, newest, history, persistent, remaining, version);
                let next = lemma_first_journal(files, version, newest);
                lemma_no_journal::<D, T, S>(
                    serializer,
                    same,
                    files,
                    newest,
                    opened,
                    data,
                    history,
                    version,
                    next,
                    persistent.data,
                );
                assert(remaining[0] == directory::action_for(FileKind::Journal, next as u32));
                assert(journal_tells(serializer, files, history, next));
                assert(history_goes_on(same, history, next));
                lemma_after_file::<D, T, S>(
                    serializer,
                    same,
                    blank,
                    files,
                    newest,
                    opened,
                    data,
                    history,
                    before,
                    listed,
                    reply,
                    outcome,
                    FileKind::Journal,
                    next,
                );
            } else {
                let latest = choose|latest: SnapshotVersion| #[trigger]
                    directory::has(files, FileKind::Snapshot, latest as int) && remaining
                        == directory::plan_for(files, Some(latest), newest);
                assert(remaining[0] == directory::action_for(FileKind::Snapshot, latest));
                directory::own_files_are_found(FileKind::Snapshot, latest);
                assert(directory::belongs(names::spec_file_name(FileKind::Snapshot, latest), newest));
                assert(snapshot_tells(serializer, same, files, history, latest as int));
                lemma_after_file::<D, T, S>(
                    serializer,
                    same,
                    blank,
                    files,
                    newest,
                    opened,
                    data,
                    history,
                    before,
                    listed,
                    reply,
                    outcome,
                    FileKind::Snapshot,
                    latest as int,
                );
            }
        },
    }
}

/// A file was read, and its contents applied.
proof fn lemma_after_file<D: Default, T: Tx<D>, S: Serializer<D> + Serializer<T>>(
    serializer: S,
    same: spec_fn(D, D) -> bool,
    blank: spec_fn(Seq<u8>) -> bool,
    files: Files,
    newest: int,
    opened: bool,
    data: D,
    history: History<D, T>,
    before: LoadView<D>,
    listed: Seq<Seq<u8>>,
    reply: ReplyView,
    outcome: Result<LoadView<D>, StoreError<<S as Serializer<T>>::Error, <S as Serializer<D>>::Error>>,
    kind: FileKind,
    version: int,
)
    requires
        is_faithful::<D, T, S>(serializer, same, blank),
        tells::<D, T, S>(serializer, same, files, newest, opened, data, history),
        is_on_track::<D, T, S>(same, files, newest, history, before, listed),
        before.request() matches Some(request) && is_true_reply(files, listed, request, reply),
        persistent::load_step::<D, T, S>(serializer, before, reply, outcome),
        before matches LoadView::Read { persistent, remaining } && remaining == seq![
            directory::action_for(kind, version as u32),
        ] + directory::journals_from(files, version + 1, newest) && persistent.written_entries == 0
            && (kind == FileKind::Journal ==> same(history.bases[version], persistent.data)),
        0 <= version <= newest,
        directory::has(files, kind, version),
        kind == FileKind::Snapshot ==> version < newest,
    ensures
        before.accepts(reply),
        outcome matches Ok(after) && is_on_track::<D, T, S>(
            same,
            files,
            newest,
            history,
            after,
            listed_with(listed, reply),
        ),
        outcome matches Ok(after) && (after.is_loaded() ==> is_restored(same, data, newest, history.entries[newest].len(), after)),
{
    if let LoadView::Read { persistent, remaining } = before {
        let bytes = directory::contents(files, kind, version);
        assert(remaining[0] == directory::action_for(kind, version as u32));
        assert(reply == ReplyView::Contents(bytes));
        let result = match outcome {
            Ok(LoadView::Read { persistent: changed, .. }) => Ok(changed),
            Ok(_) => Ok(persistent),
            Err(error) => Err(error),
        };
        assert(persistent::applies::<D, T, S>(serializer, remaining[0], bytes, persistent, result));
        match kind {
            FileKind::Journal => {
                assert(journal_tells(serializer, files, history, version));
                assert(history_goes_on(same, history, version));
                lemma_journal_applies::<D, T, S>(
                    serializer,
                    same,
                    blank,
                    files,
                    history,
                    version,
                    persistent,
                    result,
                );
            },
            FileKind::Snapshot => {
                assert(snapshot_tells(serializer, same, files, history, version));
                lemma_snapshot_applies::<D, T, S>(
                    serializer,
                    same,
                    blank,
                    files,
                    history,
                    version,
                    persistent,
                    result,
                );
            },
        }
        if let Ok(LoadView::Read { persistent: changed, remaining: rest }) = outcome {
            assert(rest =~= directory::journals_from(files, version + 1, newest));
            assert(has_come_to(same, files, newest, history, changed, rest, version + 1));
            if rest.len() == 0 {
                lemma_all_read::<D, T, S>(
                    serializer,
                    same,
                    files,
                    newest,
                    opened,
                    data,
                    history,
                    changed,
                    rest,
                    version + 1,
                );
            }
        }
    }
}

/// What a run of replies lists of the directory.
pub open spec fn listed_by(replies: Seq<ReplyView>) -> Seq<Seq<u8>>
    decreases replies.len(),
{
    if replies.len() == 0 {
        Seq::empty()
    } else {
        listed_with(listed_by(replies.drop_last()), replies.last())
    }
}

/// Does loading go this way, with these replies, in a directory with these files?
pub open spec fn is_load_run<D: Default, T: Tx<D>, S: Serializer<D> + Serializer<T>>(
    serializer: S,
    files: Files,
    loads: Seq<LoadView<D>>,
    replies: Seq<ReplyView>,
) -> bool {
    &&& loads.len() == replies.len() + 1
    &&& loads[0] is CreateDir
    &&& forall|i: int|
        0 <= i < replies.len() ==> is_load_run_step::<D, T, S>(serializer, files, #[trigger] loads[i], loads[i + 1], replies, i)
}

/// Is this a step of a run?
pub open spec fn is_load_run_step<D: Default, T: Tx<D>, S: Serializer<D> + Serializer<T>>(
    serializer: S,
    files: Files,
    before: LoadView<D>,
    after: LoadView<D>,
    replies: Seq<ReplyView>,
    i: int,
) -> bool {
    &&& before.request() matches Some(request) && is_true_reply(
        files,
        listed_by(replies.take(i)),
        request,
        replies[i],
    )
    &&& persistent::load_step::<D, T, S>(serializer, before, replies[i], Ok(after))
}

/// Loading gives back the data that the files tell of: whenever the data is loaded, after
/// however many steps, it is like that data, and the newest journal is written on.
pub proof fn loading_restores_the_data<D: Default, T: Tx<D>, S: Serializer<D> + Serializer<T>>(
    serializer: S,
    same: spec_fn(D, D) -> bool,
    blank: spec_fn(Seq<u8>) -> bool,
    files: Files,
    newest: int,
    opened: bool,
    written: nat,
    data: D,
    loads: Seq<LoadView<D>>,
    replies: Seq<ReplyView>,
)
    requires
        is_faithful::<D, T, S>(serializer, same, blank),
        on_record::<D, T, S>(serializer, same, files, newest, opened, written, data),
        is_load_run::<D, T, S>(serializer, files, loads, replies),
        loads.last().is_loaded(),
    ensures
        is_restored(same, data, newest, written, loads.last()),
{
    let history = choose|history: History<D, T>| #[trigger]
        tells::<D, T, S>(serializer, same, files, newest, opened, data, history) && history.entries[newest].len()
            == written;
    lemma_run_keeps_on_track::<D, T, S>(
        serializer,
        same,
        blank,
        files,
        newest,
        opened,
        data,
        history,
        loads,
        replies,
        replies.len() as int,
    );
}

proof fn lemma_run_keeps_on_track<D: Default, T: Tx<D>, S: Serializer<D> + Serializer<T>>(
    serializer: S,
    same: spec_fn(D, D) -> bool,
    blank: spec_fn(Seq<u8>) -> bool,
    files: Files,
    newest: int,
    opened: bool,
    data: D,
    history: History<D, T>,
    loads: Seq<LoadView<D>>,
    replies: Seq<ReplyView>,
    count: int,
)
    requires
        is_faithful::<D, T, S>(serializer, same, blank),
        tells::<D, T, S>(serializer, same, files, newest, opened, data, history),
        is_load_run::<D, T, S>(serializer, files, loads, replies),
        0 <= count <= replies.len(),
    ensures
        is_on_track::<D, T, S>(same, files, newest, history, loads[count], listed_by(replies.take(count))),
        loads[count].is_loaded() ==> is_restored(same, data, newest, history.entries[newest].len(), loads[count]),
    decreases count,
{
    if count > 0 {
        let i = count - 1;
        lemma_run_keeps_on_track::<D, T, S>(
            serializer,
            same,
            blank,
            files,
            newest,
            opened,
            data,
            history,
            loads,
            replies,
            i,
        );
        assert(is_load_run_step::<D, T, S>(serializer, files, loads[i], loads[i + 1], replies, i));
        assert(replies.take(count).drop_last() =~= replies.take(i));
        loading_keeps_on_track::<D, T, S>(
            serializer,
            same,
            blank,
            files,
            newest,
            opened,
            data,
            history,
            loads[i],
            listed_by(replies.take(i)),
            replies[i],
            Ok(loads[count]),
        );
    } else {
        assert(replies.take(0) =~= Seq::<ReplyView>::empty());
    }
}

/// Loading does not fail as long as the replies are true: wherever it is, it goes on.
pub proof fn loading_does_not_fail<D: Default, T: Tx<D>, S: Serializer<D> + Serializer<T>>(
    serializer: S,
    same: spec_fn(D, D) -> bool,
    blank: spec_fn(Seq<u8>) -> bool,
    files: Files,
    newest: int,
    opened: bool,
    written: nat,
    data: D,
    loads: Seq<LoadView<D>>,
    replies: Seq<ReplyView>,
    reply: ReplyView,
    outcome: Result<LoadView<D>, StoreError<<S as Serializer<T>>::Error, <S as Serializer<D>>::Error>>,
)
    requires
        is_faithful::<D, T, S>(serializer, same, blank),
        on_record::<D, T, S>(serializer, same, files, newest, opened, written, data),
        is_load_run::<D, T, S>(serializer, files, loads, replies),
        loads.last().request() matches Some(request) && is_true_reply(files, listed_by(replies), request, reply),
        persistent::load_step::<D, T, S>(serializer, loads.last(), reply, outcome),
    ensures
        loads.last().accepts(reply),
        outcome is Ok,
{
    let history = choose|history: History<D, T>| #[trigger]
        tells::<D, T, S>(serializer, same, files, newest, opened, data, history) && history.entries[newest].len()
            == written;
    assert(replies.take(replies.len() as int) =~= replies);
    lemma_run_keeps_on_track::<D, T, S>(
        serializer,
        same,
        blank,
        files,
        newest,
        opened,
        data,
        history,
        loads,
        replies,
        replies.len() as int,
    );
    loading_keeps_on_track::<D, T, S>(
        serializer,
        same,
        blank,
        files,
        newest,
        opened,
        data,
        history,
        loads.last(),
        listed_by(replies),
        reply,
        outcome,
    );
}

/// How far loading is from its end: the stages that are left, and within the stage, the entries
/// of a directory of `files` files that are not listed, or the files that are not read.
pub open spec fn distance<D>(files: nat, listed: Seq<Seq<u8>>, load: LoadView<D>) -> (nat, int) {
    match load {
        LoadView::CreateDir { .. } => (4, 0),
        LoadView::OpenDir { .. } => (3, 0),
        LoadView::NextEntry { .. } => (2, files - listed.len()),
        LoadView::OpenJournal { .. } => (1, 0),
        LoadView::Read { remaining, .. } => (0, remaining.len() as int),
    }
}

/// Loading comes to an end: every step comes closer to it.
pub proof fn loading_comes_to_an_end<D: Default, T: Tx<D>, S: Serializer<D> + Serializer<T>>(
    serializer: S,
    files: nat,
    listed: Seq<Seq<u8>>,
    before: LoadView<D>,
    reply: ReplyView,
    after: LoadView<D>,
)
    requires
        before.accepts(reply),
        persistent::load_step::<D, T, S>(serializer, before, reply, Ok(after)),
    ensures
        ({
            let (stages, left) = distance(files, listed, before);
            let (stages_after, left_after) = distance(files, listed_with(listed, reply), after);
            stages_after < stages || stages_after == stages && left_after < left
        }),
{
}

} // verus!
