//! That opening a store again, with nothing committed in between, makes no difference.
//!
//! This takes no serializer that gives back what it was given, only one that decodes the same
//! bytes to the same value, and transactions that do the same to the same data.

use vstd::prelude::*;
use crate::action;
use crate::action::ActionView;
use crate::directory;
use crate::directory::Files;
use crate::durability;
use crate::durability::Disk;
use crate::error::StoreError;
use crate::journal;
use crate::names;
use crate::names::{FileKind, SnapshotVersion};
use crate::persistent;
use crate::persistent::{LoadView, PersistentView};
use crate::recovery;
use crate::request::{ReplyView, RequestView};
use crate::serializer::Serializer;
use crate::tx;
use crate::tx::Tx;

verus! {

/// Does the serializer decode the same bytes to the same?
pub open spec fn decodes_the_same<V, S: Serializer<V>>(serializer: S) -> bool {
    forall|
        bytes: Seq<u8>,
        one: Result<Option<V>, S::Error>,
        left: Seq<u8>,
        other: Result<Option<V>, S::Error>,
        other_left: Seq<u8>,
    | #[trigger]
        serializer.decodes(bytes, one, left) && #[trigger] serializer.decodes(bytes, other, other_left) ==> one
            == other && left == other_left
}

/// Are decoding, executing and the default data determined, and is no transaction found where
/// there is no text?
pub open spec fn is_steady<D: Default, T: Tx<D>, S: Serializer<D> + Serializer<T>>(serializer: S) -> bool {
    &&& decodes_the_same::<T, S>(serializer)
    &&& decodes_the_same::<D, S>(serializer)
    &&& forall|outcome: Result<Option<T>, <S as Serializer<T>>::Error>, left: Seq<u8>| #[trigger]
        serializer.decodes(Seq::empty(), outcome, left) ==> outcome == Ok::<
            Option<T>,
            <S as Serializer<T>>::Error,
        >(None)
    &&& forall|tx: T, before: D, one: D, other: D| #[trigger]
        tx.turns(before, one, ()) && #[trigger] tx.turns(before, other, ()) ==> one == other
    &&& forall|one: D, other: D| #[trigger]
        persistent::is_default(one) && #[trigger] persistent::is_default(other) ==> one == other
}

/// May applying the files of `plan` in order lead to this data?
pub open spec fn reaches<D: Default, T: Tx<D>, S: Serializer<D> + Serializer<T>>(
    serializer: S,
    files: Files,
    flush_on_drop: bool,
    version: SnapshotVersion,
    plan: Seq<ActionView>,
    persistent: PersistentView<D>,
) -> bool
    decreases plan.len(),
{
    if plan.len() == 0 {
        persistent::is_default(persistent.data) && persistent == (PersistentView {
            data: persistent.data,
            next_snapshot_version: version,
            written_entries: 0,
            flush_on_drop,
        })
    } else {
        exists|before: PersistentView<D>|
            reaches::<D, T, S>(serializer, files, flush_on_drop, version, plan.drop_last(), before)
                && #[trigger] persistent::applies::<D, T, S>(
                serializer,
                plan.last(),
                files[plan.last().path],
                before,
                Ok(persistent),
            )
    }
}

/// Two ways to read a journal are the same.
proof fn lemma_reads_same<V, S: Serializer<V>>(
    serializer: S,
    bytes: Seq<u8>,
    ones: Seq<V>,
    lefts: Seq<Seq<u8>>,
    others: Seq<V>,
    other_lefts: Seq<Seq<u8>>,
    i: int,
)
    requires
        decodes_the_same::<V, S>(serializer),
        journal::reads(serializer, bytes, ones, lefts),
        journal::reads(serializer, bytes, others, other_lefts),
        0 <= i <= ones.len(),
        i <= others.len(),
    ensures
        lefts[i] == other_lefts[i],
        forall|j: int| 0 <= j < i ==> ones[j] == others[j],
    decreases i,
{
    if i > 0 {
        lemma_reads_same(serializer, bytes, ones, lefts, others, other_lefts, i - 1);
        assert(serializer.decodes(lefts[i - 1], Ok(Some(ones[i - 1])), lefts[i]));
        assert(serializer.decodes(other_lefts[i - 1], Ok(Some(others[i - 1])), other_lefts[i]));
    }
}

/// Two ways to read a journal to its end are the same.
pub(crate) proof fn lemma_reads_until_same<V, S: Serializer<V>>(
    serializer: S,
    bytes: Seq<u8>,
    ones: Seq<V>,
    lefts: Seq<Seq<u8>>,
    end: Result<Option<V>, S::Error>,
    rest: Seq<u8>,
    others: Seq<V>,
    other_lefts: Seq<Seq<u8>>,
    other_end: Result<Option<V>, S::Error>,
    other_rest: Seq<u8>,
)
    requires
        decodes_the_same::<V, S>(serializer),
        journal::reads_until(serializer, bytes, ones, lefts, end, rest),
        journal::reads_until(serializer, bytes, others, other_lefts, other_end, other_rest),
        !(end matches Ok(Some(_))),
        !(other_end matches Ok(Some(_))),
    ensures
        ones == others,
        end == other_end,
{
    let count = if ones.len() < others.len() {
        ones.len() as int
    } else {
        others.len() as int
    };
    lemma_reads_same(serializer, bytes, ones, lefts, others, other_lefts, count);
    if ones.len() < others.len() {
        assert(serializer.decodes(other_lefts[count], Ok(Some(others[count])), other_lefts[count + 1]));
        assert(serializer.decodes(lefts[count], end, rest));
    } else if others.len() < ones.len() {
        assert(serializer.decodes(lefts[count], Ok(Some(ones[count])), lefts[count + 1]));
        assert(serializer.decodes(other_lefts[count], other_end, other_rest));
    } else {
        assert(ones =~= others);
        assert(serializer.decodes(lefts[count], end, rest));
        assert(serializer.decodes(other_lefts[count], other_end, other_rest));
    }
}

/// Executing transactions on the same data leads to the same data.
proof fn lemma_runs_same<D: Default, T: Tx<D>, S: Serializer<D> + Serializer<T>>(
    serializer: S,
    txs: Seq<T>,
    before: D,
    one: D,
    other: D,
)
    requires
        is_steady::<D, T, S>(serializer),
        tx::runs(txs, before, one),
        tx::runs(txs, before, other),
    ensures
        one == other,
{
    let states = choose|states: Seq<D>| tx::passes(txs, states, before, one);
    let other_states = choose|states: Seq<D>| tx::passes(txs, states, before, other);
    lemma_states_same::<D, T, S>(serializer, txs, states, other_states, before, one, other, txs.len() as int);
}

proof fn lemma_states_same<D: Default, T: Tx<D>, S: Serializer<D> + Serializer<T>>(
    serializer: S,
    txs: Seq<T>,
    states: Seq<D>,
    other_states: Seq<D>,
    before: D,
    one: D,
    other: D,
    i: int,
)
    requires
        is_steady::<D, T, S>(serializer),
        tx::passes(txs, states, before, one),
        tx::passes(txs, other_states, before, other),
        0 <= i <= txs.len(),
    ensures
        states[i] == other_states[i],
    decreases i,
{
    if i > 0 {
        lemma_states_same::<D, T, S>(serializer, txs, states, other_states, before, one, other, i - 1);
        assert(txs[i - 1].turns(states[i - 1], states[i], ()));
        assert(txs[i - 1].turns(other_states[i - 1], other_states[i], ()));
    }
}

/// Where applying a file succeeded once, it does so again, with the same outcome.
proof fn lemma_applies_same<D: Default, T: Tx<D>, S: Serializer<D> + Serializer<T>>(
    serializer: S,
    action: ActionView,
    contents: Seq<u8>,
    before: PersistentView<D>,
    after: PersistentView<D>,
    outcome: Result<PersistentView<D>, StoreError<<S as Serializer<T>>::Error, <S as Serializer<D>>::Error>>,
)
    requires
        is_steady::<D, T, S>(serializer),
        persistent::applies::<D, T, S>(serializer, action, contents, before, Ok(after)),
        persistent::applies::<D, T, S>(serializer, action, contents, before, outcome),
    ensures
        outcome matches Ok(again) && again == after,
{
    match action.kind {
        FileKind::Snapshot => {
            let left = choose|left: Seq<u8>| serializer.decodes(contents, Ok(Some(after.data)), left);
            assert(serializer.decodes(contents, Ok(Some(after.data)), left));
            match outcome {
                Ok(again) => {
                    let other = choose|other: Seq<u8>| serializer.decodes(contents, Ok(Some(again.data)), other);
                    assert(serializer.decodes(contents, Ok(Some(again.data)), other));
                },
                Err(StoreError::DecodeSnapshot(crate::error::DecodeError::Corrupted)) => {
                    let other = choose|other: Seq<u8>| serializer.decodes(contents, Ok(None::<D>), other);
                    assert(serializer.decodes(contents, Ok(None::<D>), other));
                },
                Err(StoreError::DecodeSnapshot(crate::error::DecodeError::Serializer(error))) => {
                    let other = choose|other: Seq<u8>|
                        serializer.decodes(
                            contents,
                            Err::<Option<D>, <S as Serializer<D>>::Error>(error),
                            other,
                        );
                    assert(serializer.decodes(
                        contents,
                        Err::<Option<D>, <S as Serializer<D>>::Error>(error),
                        other,
                    ));
                },
                Err(_) => {},
            }
        },
        FileKind::Journal => {
            let written_on = persistent::is_written_on(action, before.next_snapshot_version);
            let txs = choose|txs: Seq<T>| #[trigger]
                journal::holds(serializer, contents, txs) && tx::runs(txs, before.data, after.data) && after == (
                PersistentView {
                    data: after.data,
                    written_entries: if written_on {
                        txs.len()
                    } else {
                        before.written_entries
                    },
                    ..before
                });
            let (lefts, rest) = choose|lefts: Seq<Seq<u8>>, rest: Seq<u8>|
                journal::reads_until(serializer, contents, txs, lefts, Ok(None), rest);
            match outcome {
                Ok(again) => {
                    let others = choose|txs: Seq<T>| #[trigger]
                        journal::holds(serializer, contents, txs) && tx::runs(txs, before.data, again.data) && again
                            == (PersistentView {
                            data: again.data,
                            written_entries: if written_on {
                                txs.len()
                            } else {
                                before.written_entries
                            },
                            ..before
                        });
                    let (other_lefts, other_rest) = choose|lefts: Seq<Seq<u8>>, rest: Seq<u8>|
                        journal::reads_until(serializer, contents, others, lefts, Ok(None), rest);
                    lemma_reads_until_same(
                        serializer,
                        contents,
                        txs,
                        lefts,
                        Ok(None),
                        rest,
                        others,
                        other_lefts,
                        Ok(None),
                        other_rest,
                    );
                    lemma_runs_same::<D, T, S>(serializer, txs, before.data, after.data, again.data);
                },
                Err(StoreError::DecodeJournalEntry(error)) => {
                    let (others, other_lefts, other_rest) = choose|
                        others: Seq<T>,
                        lefts: Seq<Seq<u8>>,
                        rest: Seq<u8>,
                    |
                        journal::reads_until(serializer, contents, others, lefts, Err(error), rest);
                    lemma_reads_until_same(
                        serializer,
                        contents,
                        txs,
                        lefts,
                        Ok(None),
                        rest,
                        others,
                        other_lefts,
                        Err(error),
                        other_rest,
                    );
                },
                Err(_) => {},
            }
        },
    }
}

/// A journal without text leaves the data alone, and has no entries.
proof fn lemma_empty_journal<D: Default, T: Tx<D>, S: Serializer<D> + Serializer<T>>(
    serializer: S,
    version: SnapshotVersion,
    before: PersistentView<D>,
    outcome: Result<PersistentView<D>, StoreError<<S as Serializer<T>>::Error, <S as Serializer<D>>::Error>>,
)
    requires
        is_steady::<D, T, S>(serializer),
        before.written_entries == 0,
        persistent::applies::<D, T, S>(
            serializer,
            directory::action_for(FileKind::Journal, version),
            Seq::empty(),
            before,
            outcome,
        ),
    ensures
        outcome matches Ok(after) && after == before,
{
    let contents = Seq::<u8>::empty();
    match outcome {
        Ok(after) => {
            let written_on = persistent::is_written_on(
                directory::action_for(FileKind::Journal, version),
                before.next_snapshot_version,
            );
            let txs = choose|txs: Seq<T>| #[trigger]
                journal::holds(serializer, contents, txs) && tx::runs(txs, before.data, after.data) && after == (
                PersistentView {
                    data: after.data,
                    written_entries: if written_on {
                        txs.len()
                    } else {
                        before.written_entries
                    },
                    ..before
                });
            let (lefts, rest) = choose|lefts: Seq<Seq<u8>>, rest: Seq<u8>|
                journal::reads_until(serializer, contents, txs, lefts, Ok(None), rest);
            if txs.len() > 0 {
                assert(serializer.decodes(lefts[0], Ok(Some(txs[0])), lefts[1]));
            }
            let states = choose|states: Seq<D>| tx::passes(txs, states, before.data, after.data);
            assert(before.data == after.data);
        },
        Err(StoreError::DecodeJournalEntry(error)) => {
            let (txs, lefts, rest) = choose|txs: Seq<T>, lefts: Seq<Seq<u8>>, rest: Seq<u8>|
                journal::reads_until(serializer, contents, txs, lefts, Err(error), rest);
            if txs.len() > 0 {
                assert(serializer.decodes(lefts[0], Ok(Some(txs[0])), lefts[1]));
            }
            assert(serializer.decodes(contents, Err::<Option<T>, <S as Serializer<T>>::Error>(error), rest));
        },
        Err(_) => {},
    }
}

/// The same plan reaches the same data, also where other files differ.
proof fn lemma_reaches_same<D: Default, T: Tx<D>, S: Serializer<D> + Serializer<T>>(
    serializer: S,
    files: Files,
    other_files: Files,
    flush_on_drop: bool,
    version: SnapshotVersion,
    plan: Seq<ActionView>,
    one: PersistentView<D>,
    other: PersistentView<D>,
)
    requires
        is_steady::<D, T, S>(serializer),
        forall|i: int| 0 <= i < plan.len() ==> files[(#[trigger] plan[i]).path] == other_files[plan[i].path],
        reaches::<D, T, S>(serializer, files, flush_on_drop, version, plan, one),
        reaches::<D, T, S>(serializer, other_files, flush_on_drop, version, plan, other),
    ensures
        one == other,
    decreases plan.len(),
{
    if plan.len() > 0 {
        let before = choose|before: PersistentView<D>|
            reaches::<D, T, S>(serializer, files, flush_on_drop, version, plan.drop_last(), before)
                && #[trigger] persistent::applies::<D, T, S>(
                serializer,
                plan.last(),
                files[plan.last().path],
                before,
                Ok(one),
            );
        let other_before = choose|before: PersistentView<D>|
            reaches::<D, T, S>(serializer, other_files, flush_on_drop, version, plan.drop_last(), before)
                && #[trigger] persistent::applies::<D, T, S>(
                serializer,
                plan.last(),
                other_files[plan.last().path],
                before,
                Ok(other),
            );
        assert forall|i: int| 0 <= i < plan.drop_last().len() implies files[(#[trigger] plan.drop_last()[i]).path]
            == other_files[plan.drop_last()[i].path] by {
            assert(files[plan[i].path] == other_files[plan[i].path]);
        }
        lemma_reaches_same::<D, T, S>(
            serializer,
            files,
            other_files,
            flush_on_drop,
            version,
            plan.drop_last(),
            before,
            other_before,
        );
        assert(files[plan[plan.len() - 1].path] == other_files[plan[plan.len() - 1].path]);
        lemma_applies_same::<D, T, S>(
            serializer,
            plan.last(),
            files[plan.last().path],
            before,
            one,
            Ok(other),
        );
    }
}

/// On the way of a plan that reaches some data lies, behind every file, data from which the next
/// file can be applied.
proof fn lemma_on_the_way<D: Default, T: Tx<D>, S: Serializer<D> + Serializer<T>>(
    serializer: S,
    files: Files,
    flush_on_drop: bool,
    version: SnapshotVersion,
    plan: Seq<ActionView>,
    end: PersistentView<D>,
    i: int,
) -> (between: (PersistentView<D>, PersistentView<D>))
    requires
        reaches::<D, T, S>(serializer, files, flush_on_drop, version, plan, end),
        0 <= i < plan.len(),
    ensures
        reaches::<D, T, S>(serializer, files, flush_on_drop, version, plan.take(i), between.0),
        persistent::applies::<D, T, S>(serializer, plan[i], files[plan[i].path], between.0, Ok(between.1)),
    decreases plan.len(),
{
    let before = choose|before: PersistentView<D>|
        reaches::<D, T, S>(serializer, files, flush_on_drop, version, plan.drop_last(), before)
            && #[trigger] persistent::applies::<D, T, S>(
            serializer,
            plan.last(),
            files[plan.last().path],
            before,
            Ok(end),
        );
    if i == plan.len() - 1 {
        assert(plan.take(i) =~= plan.drop_last());
        (before, end)
    } else {
        assert(plan.drop_last().take(i) =~= plan.take(i));
        lemma_on_the_way::<D, T, S>(serializer, files, flush_on_drop, version, plan.drop_last(), before, i)
    }
}

/// Has loading got this far, by the plan for the directory?
spec fn has_read<D: Default, T: Tx<D>, S: Serializer<D> + Serializer<T>>(
    serializer: S,
    files: Files,
    newest: int,
    flush_on_drop: bool,
    persistent: PersistentView<D>,
    remaining: Seq<ActionView>,
    plan: Seq<ActionView>,
    count: int,
) -> bool {
    &&& recovery::is_right_plan(files, newest, plan)
    &&& 0 <= count <= plan.len()
    &&& remaining == plan.skip(count)
    &&& persistent.next_snapshot_version == persistent::next_version(plan)
    &&& reaches::<D, T, S>(
        serializer,
        files,
        flush_on_drop,
        persistent.next_snapshot_version,
        plan.take(count),
        persistent,
    )
}

/// Does loading go by the plan for the directory?
spec fn goes_by_plan<D: Default, T: Tx<D>, S: Serializer<D> + Serializer<T>>(
    serializer: S,
    files: Files,
    newest: int,
    flush_on_drop: bool,
    load: LoadView<D>,
    listed: Seq<Seq<u8>>,
) -> bool {
    match load {
        LoadView::CreateDir { flush_on_drop: flush } => flush == flush_on_drop && listed.len() == 0,
        LoadView::OpenDir { flush_on_drop: flush } => flush == flush_on_drop && listed.len() == 0,
        LoadView::NextEntry { flush_on_drop: flush, actions } => {
            &&& flush == flush_on_drop
            &&& listed.no_duplicates()
            &&& forall|name: Seq<u8>| #[trigger] listed.contains(name) ==> files.contains_key(name)
            &&& actions == directory::found_in(listed)
        },
        LoadView::OpenJournal { flush_on_drop: flush, plan, version } => flush == flush_on_drop
            && recovery::is_right_plan(files, newest, plan) && version == persistent::next_version(plan),
        LoadView::Read { persistent, remaining } => exists|plan: Seq<ActionView>, count: int| #[trigger]
            has_read::<D, T, S>(
                serializer,
                files,
                newest,
                flush_on_drop,
                persistent,
                remaining,
                plan,
                count,
            ),
    }
}

proof fn lemma_step_goes_by_plan<D: Default, T: Tx<D>, S: Serializer<D> + Serializer<T>>(
    serializer: S,
    files: Files,
    newest: int,
    flush_on_drop: bool,
    before: LoadView<D>,
    listed: Seq<Seq<u8>>,
    reply: ReplyView,
    after: LoadView<D>,
)
    requires
        0 <= newest <= u32::MAX,
        directory::is_in_order(files, newest),
        goes_by_plan::<D, T, S>(serializer, files, newest, flush_on_drop, before, listed),
        before.request() matches Some(request) && recovery::is_true_reply(files, listed, request, reply),
        persistent::load_step::<D, T, S>(serializer, before, reply, Ok(after)),
    ensures
        goes_by_plan::<D, T, S>(
            serializer,
            files,
            newest,
            flush_on_drop,
            after,
            recovery::listed_with(listed, reply),
        ),
{
    match before {
        LoadView::NextEntry { actions, .. } => {
            match reply {
                ReplyView::Entry(Some(name)) => {
                    let now = listed.push(name);
                    assert(now.drop_last() =~= listed);
                    assert(directory::belongs(name, newest));
                    assert forall|other: Seq<u8>| #[trigger] now.contains(other) implies files.contains_key(
                        other,
                    ) by {
                        let i = choose|i: int| 0 <= i < now.len() && now[i] == other;
                        if i < listed.len() {
                            assert(listed.contains(listed[i]));
                        }
                    }
                    assert(now.no_duplicates()) by {
                        assert forall|i: int, j: int| 0 <= i < now.len() && 0 <= j < now.len() && i
                            != j implies now[i] != now[j] by {
                            if i == listed.len() {
                                assert(listed.contains(listed[j]));
                            }
                            if j == listed.len() {
                                assert(listed.contains(listed[i]));
                            }
                        }
                    }
                },
                ReplyView::Entry(None) => {
                    if let LoadView::OpenJournal { plan, .. } = after {
                        assert forall|name: Seq<u8>| #[trigger] listed.contains(name) <==> files.contains_key(
                            name,
                        ) by {}
                        directory::listing_order_is_irrelevant(files, newest, listed, plan);
                        assert(directory::is_latest(files, action::latest_snapshot(actions)));
                    }
                },
                _ => {},
            }
        },
        LoadView::OpenJournal { plan, .. } => {
            if let LoadView::Read { persistent, remaining } = after {
                assert(plan.skip(0) =~= plan);
                assert(plan.take(0) =~= Seq::<ActionView>::empty());
                assert(has_read::<D, T, S>(
                    serializer,
                    files,
                    newest,
                    flush_on_drop,
                    persistent,
                    remaining,
                    plan,
                    0,
                ));
            }
        },
        LoadView::Read { persistent, remaining } => {
            let (plan, count) = choose|plan: Seq<ActionView>, count: int| #[trigger]
                has_read::<D, T, S>(
                    serializer,
                    files,
                    newest,
                    flush_on_drop,
                    persistent,
                    remaining,
                    plan,
                    count,
                );
            assert(remaining[0] == plan[count]);
            if let LoadView::Read { persistent: changed, remaining: rest } = after {
                assert(rest =~= plan.skip(count + 1));
                assert(plan.take(count + 1).drop_last() =~= plan.take(count));
                assert(plan.take(count + 1).last() == plan[count]);
                assert(has_read::<D, T, S>(
                    serializer,
                    files,
                    newest,
                    flush_on_drop,
                    changed,
                    rest,
                    plan,
                    count + 1,
                ));
            }
        },
        _ => {},
    }
}

proof fn lemma_run_goes_by_plan<D: Default, T: Tx<D>, S: Serializer<D> + Serializer<T>>(
    serializer: S,
    files: Files,
    newest: int,
    flush_on_drop: bool,
    loads: Seq<LoadView<D>>,
    replies: Seq<ReplyView>,
    i: int,
)
    requires
        0 <= newest <= u32::MAX,
        directory::is_in_order(files, newest),
        recovery::is_load_run::<D, T, S>(serializer, files, loads, replies),
        loads[0] == (LoadView::<D>::CreateDir { flush_on_drop }),
        0 <= i <= replies.len(),
    ensures
        goes_by_plan::<D, T, S>(
            serializer,
            files,
            newest,
            flush_on_drop,
            loads[i],
            recovery::listed_by(replies.take(i)),
        ),
    decreases i,
{
    if i > 0 {
        lemma_run_goes_by_plan::<D, T, S>(serializer, files, newest, flush_on_drop, loads, replies, i - 1);
        assert(recovery::is_load_run_step::<D, T, S>(
            serializer,
            files,
            loads[i - 1],
            loads[i],
            replies,
            i - 1,
        ));
        assert(replies.take(i).drop_last() =~= replies.take(i - 1));
        lemma_step_goes_by_plan::<D, T, S>(
            serializer,
            files,
            newest,
            flush_on_drop,
            loads[i - 1],
            recovery::listed_by(replies.take(i - 1)),
            replies[i - 1],
            loads[i],
        );
    } else {
        assert(replies.take(0) =~= Seq::<ReplyView>::empty());
    }
}

/// What the journals from one version to another are.
proof fn lemma_journals_exist(files: Files, first: int, last: int, i: int)
    requires
        0 <= first,
        last <= u32::MAX,
        0 <= i < directory::journals_from(files, first, last).len(),
    ensures
        ({
            let journal = directory::journals_from(files, first, last)[i];
            &&& journal == directory::action_for(FileKind::Journal, journal.version)
            &&& directory::has(files, FileKind::Journal, journal.version as int)
            &&& first <= journal.version <= last
        }),
    decreases last + 1 - first,
{
    let rest = directory::journals_from(files, first + 1, last);
    if directory::has(files, FileKind::Journal, first) {
        if i > 0 {
            assert(directory::journals_from(files, first, last)[i] == rest[i - 1]);
            lemma_journals_exist(files, first + 1, last, i - 1);
        }
    } else {
        lemma_journals_exist(files, first + 1, last, i);
    }
}

proof fn lemma_journals_same(files: Files, other: Files, first: int, last: int)
    requires
        forall|version: int|
            first <= version <= last ==> #[trigger] directory::has(files, FileKind::Journal, version)
                == directory::has(other, FileKind::Journal, version),
    ensures
        directory::journals_from(files, first, last) == directory::journals_from(other, first, last),
    decreases last + 1 - first,
{
    if first <= last {
        lemma_journals_same(files, other, first + 1, last);
        assert(directory::has(files, FileKind::Journal, first) == directory::has(other, FileKind::Journal, first));
    }
}

/// The files as they are once the journal of this version is opened.
pub open spec fn with_journal(files: Files, version: SnapshotVersion) -> Files {
    let name = names::spec_file_name(FileKind::Journal, version);
    if files.contains_key(name) {
        files
    } else {
        files.insert(name, Seq::empty())
    }
}

/// With the journal that goes with them, the files lead to the same plan, and perhaps that
/// journal, without text, at its end.
proof fn lemma_plan_again(files: Files, newest: int, plan: Seq<ActionView>, version: SnapshotVersion)
    requires
        0 <= newest <= u32::MAX,
        directory::is_in_order(files, newest),
        recovery::is_right_plan(files, newest, plan),
        version == persistent::next_version(plan),
    ensures
        directory::is_in_order(with_journal(files, version), newest),
        !directory::has(files, FileKind::Journal, version as int) ==> forall|i: int|
            0 <= i < plan.len() ==> !persistent::is_written_on(#[trigger] plan[i], version),
        forall|i: int|
            0 <= i < plan.len() ==> files[(#[trigger] plan[i]).path] == with_journal(files, version)[plan[i].path],
        forall|again: Seq<ActionView>| #[trigger]
            recovery::is_right_plan(with_journal(files, version), newest, again) ==> again == if directory::has(
                files,
                FileKind::Journal,
                version as int,
            ) {
                plan
            } else {
                plan.push(directory::action_for(FileKind::Journal, version))
            },
{
    let other = with_journal(files, version);
    let name = names::spec_file_name(FileKind::Journal, version);
    let latest = choose|latest: Option<SnapshotVersion>| #[trigger]
        directory::is_latest(files, latest) && plan == directory::plan_for(files, latest, newest);
    let first: int = match latest {
        Some(snapshot) => snapshot + 1,
        None => 0,
    };
    let journals = directory::journals_from(files, first, newest);
    if let Some(snapshot) = latest {
        let path = names::spec_file_name(FileKind::Snapshot, snapshot);
        directory::own_files_are_found(FileKind::Snapshot, snapshot);
        assert(files.contains_key(path));
        assert(directory::belongs(path, newest));
        if path == name {
            names::file_names_differ(FileKind::Snapshot, snapshot, FileKind::Journal, version);
        }
    }
    assert forall|v: int| #[trigger] directory::has(other, FileKind::Snapshot, v) == directory::has(
        files,
        FileKind::Snapshot,
        v,
    ) by {
        if 0 <= v <= u32::MAX {
            durability::lemma_other_file(files, FileKind::Journal, version, Seq::empty(), FileKind::Snapshot, v);
        }
    }
    if !directory::has(files, FileKind::Journal, version as int) {
        // The journal of a version that is taken from the last journal would be there.
        if journals.len() > 0 {
            lemma_journals_exist(files, first, newest, journals.len() - 1);
            assert(plan.last() == journals.last());
        }
        assert(journals.len() == 0);
        assert(version == first);
        assert(directory::journals_from(files, first + 1, newest).len() == 0);
        assert forall|v: int| first + 1 <= v <= newest implies #[trigger] directory::has(
            files,
            FileKind::Journal,
            v,
        ) == directory::has(other, FileKind::Journal, v) by {
            durability::lemma_other_file(files, FileKind::Journal, version, Seq::empty(), FileKind::Journal, v);
        }
        lemma_journals_same(files, other, first + 1, newest);
        assert(directory::has(other, FileKind::Journal, first));
        assert(directory::journals_from(other, first, newest) =~= seq![
            directory::action_for(FileKind::Journal, version),
        ]);
    }
    assert(directory::is_in_order(other, newest)) by {
        directory::own_files_are_found(FileKind::Journal, version);
        if directory::has(files, FileKind::Journal, version as int) {
            assert(directory::belongs(name, newest));
        }
        assert forall|found: Seq<u8>| #[trigger] other.contains_key(found) implies directory::belongs(
            found,
            newest,
        ) by {
            if found != name {
                assert(files.contains_key(found));
            }
        }
    }
    assert forall|again: Seq<ActionView>| #[trigger]
        recovery::is_right_plan(other, newest, again) implies again == if directory::has(
        files,
        FileKind::Journal,
        version as int,
    ) {
        plan
    } else {
        plan.push(directory::action_for(FileKind::Journal, version))
    } by {
        let other_latest = choose|latest: Option<SnapshotVersion>| #[trigger]
            directory::is_latest(other, latest) && again == directory::plan_for(other, latest, newest);
        assert(other_latest == latest) by {
            if let Some(one) = latest {
                assert(directory::has(other, FileKind::Snapshot, one as int));
            }
            if let Some(one) = other_latest {
                assert(directory::has(other, FileKind::Snapshot, one as int));
                assert(directory::has(files, FileKind::Snapshot, one as int));
            }
        }
        if !directory::has(files, FileKind::Journal, version as int) {
            assert(again =~= plan.push(directory::action_for(FileKind::Journal, version)));
        }
    }
}

/// Where a store was opened once, its files lead to the same data again.
proof fn lemma_reaches_again<D: Default, T: Tx<D>, S: Serializer<D> + Serializer<T>>(
    serializer: S,
    files: Files,
    newest: int,
    flush_on_drop: bool,
    plan: Seq<ActionView>,
    first: PersistentView<D>,
    again: PersistentView<D>,
    other_plan: Seq<ActionView>,
    count: int,
)
    requires
        is_steady::<D, T, S>(serializer),
        0 <= newest <= u32::MAX,
        directory::is_in_order(files, newest),
        recovery::is_right_plan(files, newest, plan),
        first.next_snapshot_version == persistent::next_version(plan),
        reaches::<D, T, S>(serializer, files, flush_on_drop, first.next_snapshot_version, plan, first),
        recovery::is_right_plan(with_journal(files, first.next_snapshot_version), newest, other_plan),
        plan.len() <= count <= other_plan.len(),
        reaches::<D, T, S>(
            serializer,
            with_journal(files, first.next_snapshot_version),
            flush_on_drop,
            first.next_snapshot_version,
            other_plan.take(count),
            again,
        ),
    ensures
        again == first,
        count < other_plan.len() ==> first.written_entries == 0,
{
    let version = first.next_snapshot_version;
    let other = with_journal(files, version);
    lemma_plan_again(files, newest, plan, version);
    if plan.len() < other_plan.len() {
        lemma_not_counted::<D, T, S>(serializer, files, flush_on_drop, version, plan, first);
    }
    if count == plan.len() {
        assert(other_plan.take(count) =~= plan);
        lemma_reaches_same::<D, T, S>(serializer, files, other, flush_on_drop, version, plan, first, again);
    } else {
        // The journal that opening created was read, too.
        assert(other_plan.take(count) =~= other_plan);
        assert(other_plan.drop_last() =~= plan);
        let between = choose|before: PersistentView<D>|
            reaches::<D, T, S>(serializer, other, flush_on_drop, version, other_plan.drop_last(), before)
                && #[trigger] persistent::applies::<D, T, S>(
                serializer,
                other_plan.last(),
                other[other_plan.last().path],
                before,
                Ok(again),
            );
        lemma_reaches_same::<D, T, S>(serializer, files, other, flush_on_drop, version, plan, first, between);
        lemma_empty_journal::<D, T, S>(serializer, version, first, Ok(again));
    }
}

/// Where a store was opened once, applying its files does not fail the next time.
proof fn lemma_applies_again<D: Default, T: Tx<D>, S: Serializer<D> + Serializer<T>>(
    serializer: S,
    files: Files,
    newest: int,
    flush_on_drop: bool,
    plan: Seq<ActionView>,
    first: PersistentView<D>,
    again: PersistentView<D>,
    other_plan: Seq<ActionView>,
    count: int,
    outcome: Result<PersistentView<D>, StoreError<<S as Serializer<T>>::Error, <S as Serializer<D>>::Error>>,
)
    requires
        is_steady::<D, T, S>(serializer),
        0 <= newest <= u32::MAX,
        directory::is_in_order(files, newest),
        recovery::is_right_plan(files, newest, plan),
        first.next_snapshot_version == persistent::next_version(plan),
        reaches::<D, T, S>(serializer, files, flush_on_drop, first.next_snapshot_version, plan, first),
        recovery::is_right_plan(with_journal(files, first.next_snapshot_version), newest, other_plan),
        0 <= count < other_plan.len(),
        reaches::<D, T, S>(
            serializer,
            with_journal(files, first.next_snapshot_version),
            flush_on_drop,
            first.next_snapshot_version,
            other_plan.take(count),
            again,
        ),
        persistent::applies::<D, T, S>(
            serializer,
            other_plan[count],
            with_journal(files, first.next_snapshot_version)[other_plan[count].path],
            again,
            outcome,
        ),
    ensures
        outcome is Ok,
{
    let version = first.next_snapshot_version;
    let other = with_journal(files, version);
    lemma_plan_again(files, newest, plan, version);
    if count < plan.len() {
        assert(other_plan.take(count) =~= plan.take(count));
        assert(other_plan[count] == plan[count]);
        let (before, after) = lemma_on_the_way::<D, T, S>(
            serializer,
            files,
            flush_on_drop,
            version,
            plan,
            first,
            count,
        );
        assert forall|i: int| 0 <= i < plan.take(count).len() implies files[(#[trigger] plan.take(count)[i]).path]
            == other[plan.take(count)[i].path] by {
            assert(files[plan[i].path] == other[plan[i].path]);
        }
        lemma_reaches_same::<D, T, S>(
            serializer,
            files,
            other,
            flush_on_drop,
            version,
            plan.take(count),
            before,
            again,
        );
        assert(files[plan[count].path] == other[plan[count].path]);
        lemma_applies_same::<D, T, S>(serializer, plan[count], files[plan[count].path], before, after, outcome);
    } else {
        lemma_reaches_again::<D, T, S>(
            serializer,
            files,
            newest,
            flush_on_drop,
            plan,
            first,
            again,
            other_plan,
            count,
        );
        lemma_empty_journal::<D, T, S>(serializer, version, again, outcome);
    }
}

/// Where the journal that is written on is not among the files, no entries are counted.
proof fn lemma_not_counted<D: Default, T: Tx<D>, S: Serializer<D> + Serializer<T>>(
    serializer: S,
    files: Files,
    flush_on_drop: bool,
    version: SnapshotVersion,
    plan: Seq<ActionView>,
    end: PersistentView<D>,
)
    requires
        forall|i: int| 0 <= i < plan.len() ==> !persistent::is_written_on(#[trigger] plan[i], version),
        reaches::<D, T, S>(serializer, files, flush_on_drop, version, plan, end),
    ensures
        end.written_entries == 0,
        end.next_snapshot_version == version,
    decreases plan.len(),
{
    if plan.len() > 0 {
        let before = choose|before: PersistentView<D>|
            reaches::<D, T, S>(serializer, files, flush_on_drop, version, plan.drop_last(), before)
                && #[trigger] persistent::applies::<D, T, S>(
                serializer,
                plan.last(),
                files[plan.last().path],
                before,
                Ok(end),
            );
        assert forall|i: int| 0 <= i < plan.drop_last().len() implies !persistent::is_written_on(
            #[trigger] plan.drop_last()[i],
            version,
        ) by {
            assert(!persistent::is_written_on(plan[i], version));
        }
        lemma_not_counted::<D, T, S>(serializer, files, flush_on_drop, version, plan.drop_last(), before);
        assert(!persistent::is_written_on(plan[plan.len() - 1], version));
    }
}

/// Loading changes no file that is there: the only thing it may do to the directory is to create
/// a journal.
pub proof fn opening_changes_no_file<D>(load: LoadView<D>, disk: Disk, after_disk: Disk, name: Seq<u8>)
    requires
        load.request() matches Some(request) && durability::does(disk, request, after_disk),
        disk.files.contains_key(name),
    ensures
        after_disk.files.contains_key(name),
        after_disk.files[name] == disk.files[name],
{
}

/// Opening a store again, with nothing committed in between, gives the very same data, the same
/// version and the same count of entries, and leaves the directory as it is.
pub proof fn opening_again_makes_no_difference<D: Default, T: Tx<D>, S: Serializer<D> + Serializer<T>>(
    serializer: S,
    newest: int,
    flush_on_drop: bool,
    disk: Disk,
    loads: Seq<LoadView<D>>,
    replies: Seq<ReplyView>,
    first: PersistentView<D>,
    opened: Disk,
    again_loads: Seq<LoadView<D>>,
    again_replies: Seq<ReplyView>,
    second: PersistentView<D>,
    again_opened: Disk,
)
    requires
        is_steady::<D, T, S>(serializer),
        0 <= newest <= u32::MAX,
        directory::is_in_order(disk.files, newest),
        recovery::is_load_run::<D, T, S>(serializer, disk.files, loads, replies),
        loads[0] == (LoadView::<D>::CreateDir { flush_on_drop }),
        loads.last() == (LoadView::Read { persistent: first, remaining: Seq::empty() }),
        durability::does(
            disk,
            RequestView::OpenJournal {
                name: names::spec_file_name(FileKind::Journal, first.next_snapshot_version),
            },
            opened,
        ),
        recovery::is_load_run::<D, T, S>(serializer, opened.files, again_loads, again_replies),
        again_loads[0] == (LoadView::<D>::CreateDir { flush_on_drop }),
        again_loads.last() == (LoadView::Read { persistent: second, remaining: Seq::empty() }),
        durability::does(
            opened,
            RequestView::OpenJournal {
                name: names::spec_file_name(FileKind::Journal, second.next_snapshot_version),
            },
            again_opened,
        ),
    ensures
        second == first,
        again_opened.files == opened.files,
{
    let plan = lemma_opened::<D, T, S>(serializer, disk.files, newest, flush_on_drop, loads, replies, first);
    lemma_plan_again(disk.files, newest, plan, first.next_snapshot_version);
    lemma_run_goes_by_plan::<D, T, S>(
        serializer,
        opened.files,
        newest,
        flush_on_drop,
        again_loads,
        again_replies,
        again_replies.len() as int,
    );
    let (other_plan, count) = choose|other_plan: Seq<ActionView>, count: int| #[trigger]
        has_read::<D, T, S>(
            serializer,
            opened.files,
            newest,
            flush_on_drop,
            second,
            Seq::empty(),
            other_plan,
            count,
        );
    assert(other_plan.skip(count).len() == 0);
    assert(recovery::is_right_plan(opened.files, newest, other_plan));
    lemma_reaches_again::<D, T, S>(
        serializer,
        disk.files,
        newest,
        flush_on_drop,
        plan,
        first,
        second,
        other_plan,
        count,
    );
}

/// There is no journal behind the one that goes with a plan.
pub(crate) proof fn lemma_none_behind(
    files: Files,
    newest: int,
    plan: Seq<ActionView>,
    version: SnapshotVersion,
    behind: int,
)
    requires
        0 <= newest <= u32::MAX,
        directory::is_in_order(files, newest),
        recovery::is_right_plan(files, newest, plan),
        version == persistent::next_version(plan),
        version < behind,
    ensures
        !directory::has(files, FileKind::Journal, behind),
{
    let latest = choose|latest: Option<SnapshotVersion>| #[trigger]
        directory::is_latest(files, latest) && plan == directory::plan_for(files, latest, newest);
    let first: int = match latest {
        Some(snapshot) => snapshot + 1,
        None => 0,
    };
    let journals = directory::journals_from(files, first, newest);
    if journals.len() > 0 {
        lemma_journals_exist(files, first, newest, journals.len() - 1);
        assert(plan.last() == journals.last());
    }
    if directory::has(files, FileKind::Journal, behind) {
        let name = names::spec_file_name(FileKind::Journal, behind as u32);
        directory::own_files_are_found(FileKind::Journal, behind as u32);
        assert(directory::belongs(name, newest));
        lemma_last_journal_is_behind(files, first, newest, behind);
    }
}

/// The last of the journals comes no earlier than any of them.
proof fn lemma_last_journal_is_behind(files: Files, first: int, last: int, version: int)
    requires
        0 <= first <= version <= last <= u32::MAX,
        directory::has(files, FileKind::Journal, version),
    ensures
        directory::journals_from(files, first, last).len() > 0,
        directory::journals_from(files, first, last).last().version >= version,
    decreases last + 1 - first,
{
    let rest = directory::journals_from(files, first + 1, last);
    if first < version {
        lemma_last_journal_is_behind(files, first + 1, last, version);
        assert(directory::journals_from(files, first, last).last() == rest.last());
    } else if rest.len() > 0 {
        lemma_journals_exist(files, first + 1, last, rest.len() - 1);
        assert(directory::journals_from(files, first, last).last() == rest.last());
    }
}

/// What a load that is through has read.
pub(crate) proof fn lemma_opened<D: Default, T: Tx<D>, S: Serializer<D> + Serializer<T>>(
    serializer: S,
    files: Files,
    newest: int,
    flush_on_drop: bool,
    loads: Seq<LoadView<D>>,
    replies: Seq<ReplyView>,
    first: PersistentView<D>,
) -> (plan: Seq<ActionView>)
    requires
        0 <= newest <= u32::MAX,
        directory::is_in_order(files, newest),
        recovery::is_load_run::<D, T, S>(serializer, files, loads, replies),
        loads[0] == (LoadView::<D>::CreateDir { flush_on_drop }),
        loads.last() == (LoadView::Read { persistent: first, remaining: Seq::empty() }),
    ensures
        recovery::is_right_plan(files, newest, plan),
        first.next_snapshot_version == persistent::next_version(plan),
        reaches::<D, T, S>(serializer, files, flush_on_drop, first.next_snapshot_version, plan, first),
{
    lemma_run_goes_by_plan::<D, T, S>(
        serializer,
        files,
        newest,
        flush_on_drop,
        loads,
        replies,
        replies.len() as int,
    );
    let (plan, count) = choose|plan: Seq<ActionView>, count: int| #[trigger]
        has_read::<D, T, S>(serializer, files, newest, flush_on_drop, first, Seq::empty(), plan, count);
    assert(plan.skip(count).len() == 0);
    assert(plan.take(count) =~= plan);
    plan
}

/// Opening a store again does not fail, as long as the replies are true.
pub proof fn opening_again_does_not_fail<D: Default, T: Tx<D>, S: Serializer<D> + Serializer<T>>(
    serializer: S,
    newest: int,
    flush_on_drop: bool,
    disk: Disk,
    loads: Seq<LoadView<D>>,
    replies: Seq<ReplyView>,
    first: PersistentView<D>,
    opened: Disk,
    again_loads: Seq<LoadView<D>>,
    again_replies: Seq<ReplyView>,
    reply: ReplyView,
    outcome: Result<LoadView<D>, StoreError<<S as Serializer<T>>::Error, <S as Serializer<D>>::Error>>,
)
    requires
        is_steady::<D, T, S>(serializer),
        0 <= newest <= u32::MAX,
        directory::is_in_order(disk.files, newest),
        recovery::is_load_run::<D, T, S>(serializer, disk.files, loads, replies),
        loads[0] == (LoadView::<D>::CreateDir { flush_on_drop }),
        loads.last() == (LoadView::Read { persistent: first, remaining: Seq::empty() }),
        durability::does(
            disk,
            RequestView::OpenJournal {
                name: names::spec_file_name(FileKind::Journal, first.next_snapshot_version),
            },
            opened,
        ),
        recovery::is_load_run::<D, T, S>(serializer, opened.files, again_loads, again_replies),
        again_loads[0] == (LoadView::<D>::CreateDir { flush_on_drop }),
        again_loads.last().request() matches Some(request) && recovery::is_true_reply(
            opened.files,
            recovery::listed_by(again_replies),
            request,
            reply,
        ),
        persistent::load_step::<D, T, S>(serializer, again_loads.last(), reply, outcome),
    ensures
        again_loads.last().accepts(reply),
        outcome is Ok,
{
    let plan = lemma_opened::<D, T, S>(serializer, disk.files, newest, flush_on_drop, loads, replies, first);
    let listed = recovery::listed_by(again_replies);
    lemma_plan_again(disk.files, newest, plan, first.next_snapshot_version);
    assert(opened.files == with_journal(disk.files, first.next_snapshot_version));
    assert(again_replies.take(again_replies.len() as int) =~= again_replies);
    lemma_run_goes_by_plan::<D, T, S>(
        serializer,
        opened.files,
        newest,
        flush_on_drop,
        again_loads,
        again_replies,
        again_replies.len() as int,
    );
    match again_loads.last() {
        LoadView::NextEntry { actions, .. } => {
            match reply {
                ReplyView::Entry(Some(name)) => {
                    assert(directory::belongs(name, newest));
                },
                ReplyView::Entry(None) => {
                    if let Ok(LoadView::OpenJournal { plan: found, .. }) = outcome {
                        assert forall|name: Seq<u8>| #[trigger]
                            listed.contains(name) <==> opened.files.contains_key(name) by {}
                        directory::listing_order_is_irrelevant(opened.files, newest, listed, found);
                        if let Some(version) = action::latest_snapshot(actions) {
                            let name = names::spec_file_name(FileKind::Snapshot, version);
                            directory::own_files_are_found(FileKind::Snapshot, version);
                            assert(opened.files.contains_key(name));
                            assert(directory::belongs(name, newest));
                        }
                    }
                },
                _ => {},
            }
        },
        LoadView::Read { persistent, remaining } => {
            let (other_plan, count) = choose|other_plan: Seq<ActionView>, count: int| #[trigger]
                has_read::<D, T, S>(
                    serializer,
                    opened.files,
                    newest,
                    flush_on_drop,
                    persistent,
                    remaining,
                    other_plan,
                    count,
                );
            assert(recovery::is_right_plan(opened.files, newest, other_plan));
            assert(remaining[0] == other_plan[count]);
            let result = match outcome {
                Ok(LoadView::Read { persistent: changed, .. }) => Ok(changed),
                Ok(_) => Ok(persistent),
                Err(error) => Err(error),
            };
            lemma_applies_again::<D, T, S>(
                serializer,
                disk.files,
                newest,
                flush_on_drop,
                plan,
                first,
                persistent,
                other_plan,
                count,
                result,
            );
        },
        _ => {},
    }
}

} // verus!
