//! Which files of a directory have to be read, and in which order, to get the data back.

use vstd::prelude::*;
use crate::error::{StoreError, StoreResult};
use crate::names;
use crate::names::{parse_file_name, parse_version, FileKind, SnapshotVersion};

verus! {

/// One step on the way to the latest data: a file that has to be read.
#[derive(Debug)]
pub enum PersistenceAction {
    /// Take the data from a snapshot.
    Snapshot { version: SnapshotVersion, path: Vec<u8> },
    /// Execute the transactions of a journal. Its version is that of a snapshot which may not
    /// exist yet, because the journal is not full.
    Journal { version: SnapshotVersion, path: Vec<u8> },
}

/// A [PersistenceAction] as contracts see it.
#[verifier::ext_equal]
pub struct ActionView {
    pub kind: FileKind,
    pub version: SnapshotVersion,
    pub path: Seq<u8>,
}

impl View for PersistenceAction {
    type V = ActionView;

    open spec fn view(&self) -> ActionView {
        match self {
            PersistenceAction::Snapshot { version, path } => ActionView {
                kind: FileKind::Snapshot,
                version: *version,
                path: path@,
            },
            PersistenceAction::Journal { version, path } => ActionView {
                kind: FileKind::Journal,
                version: *version,
                path: path@,
            },
        }
    }
}

/// The actions in a vector, as contracts see them.
pub open spec fn views(actions: Seq<PersistenceAction>) -> Seq<ActionView> {
    actions.map_values(|action: PersistenceAction| action@)
}

/// What the file called `name` is to the store: an action, nothing (another extension), or,
/// if its stem is no version, an error that blames the stem.
pub open spec fn spec_read_entry(name: Seq<u8>) -> Result<Option<ActionView>, Option<Seq<u8>>> {
    let version = match names::stem(name) {
        Some(text) => names::spec_parse_version(text),
        None => None,
    };
    match version {
        None => Err(names::stem(name)),
        Some(version) => if names::extension(name) == Some(names::extension_of(FileKind::Journal)) {
            Ok(Some(ActionView { kind: FileKind::Journal, version, path: name }))
        } else if names::extension(name) == Some(names::extension_of(FileKind::Snapshot)) {
            Ok(Some(ActionView { kind: FileKind::Snapshot, version, path: name }))
        } else {
            Ok(None)
        },
    }
}

/// The highest version among the snapshots.
pub open spec fn latest_snapshot(actions: Seq<ActionView>) -> Option<SnapshotVersion>
    decreases actions.len(),
{
    if actions.len() == 0 {
        None
    } else {
        let before = latest_snapshot(actions.drop_last());
        let last = actions.last();
        if last.kind == FileKind::Snapshot && (before matches Some(version) ==> version <= last.version) {
            Some(last.version)
        } else {
            before
        }
    }
}

/// Is the action needed, if this is the latest snapshot? Older snapshots are not, nor are the
/// journals that the latest one covers.
pub open spec fn needed(latest: Option<SnapshotVersion>, action: ActionView) -> bool {
    match latest {
        None => true,
        Some(version) => match action.kind {
            FileKind::Snapshot => action.version == version,
            FileKind::Journal => action.version > version,
        },
    }
}

/// The actions of one version, in the order in which they stand.
pub open spec fn of_version(actions: Seq<ActionView>, version: SnapshotVersion) -> Seq<ActionView> {
    actions.filter(|action: ActionView| action.version == version)
}

/// The actions that are needed, in the order in which they stand.
pub open spec fn all_needed(latest: Option<SnapshotVersion>, actions: Seq<ActionView>) -> Seq<ActionView> {
    actions.filter(|action: ActionView| needed(latest, action))
}

/// Do versions never go down in `actions`?
pub open spec fn in_order(actions: Seq<ActionView>) -> bool {
    forall|i: int, j: int|
        0 <= i <= j < actions.len() ==> (#[trigger] actions[i]).version <= (#[trigger] actions[j]).version
}

/// Does `plan` hold the actions that are needed out of `actions` and no others, by ascending
/// version, actions of the same version in the order in which they were found?
pub open spec fn is_plan(actions: Seq<ActionView>, plan: Seq<ActionView>) -> bool {
    &&& in_order(plan)
    &&& forall|version: SnapshotVersion| #[trigger]
        of_version(plan, version) == of_version(all_needed(latest_snapshot(actions), actions), version)
}

pub(crate) proof fn lemma_filter_first<A>(first: A, rest: Seq<A>, keep: spec_fn(A) -> bool)
    ensures
        (seq![first] + rest).filter(keep) == if keep(first) {
            seq![first] + rest.filter(keep)
        } else {
            rest.filter(keep)
        },
{
    Seq::filter_distributes_over_add(seq![first], rest, keep);
    reveal_with_fuel(Seq::filter, 2);
    assert(seq![first].drop_last() =~= Seq::<A>::empty());
    assert(seq![first].filter(keep) =~= if keep(first) {
        seq![first]
    } else {
        Seq::empty()
    });
    assert(Seq::<A>::empty() + rest.filter(keep) =~= rest.filter(keep));
}

pub(crate) proof fn lemma_filter_none<A>(items: Seq<A>, keep: spec_fn(A) -> bool)
    requires
        forall|i: int| 0 <= i < items.len() ==> !keep(#[trigger] items[i]),
    ensures
        items.filter(keep) == Seq::<A>::empty(),
    decreases items.len(),
{
    reveal(Seq::filter);
    if items.len() > 0 {
        assert(!keep(items[items.len() - 1]));
        assert forall|i: int| 0 <= i < items.drop_last().len() implies !keep(#[trigger] items.drop_last()[i]) by {
            assert(items.drop_last()[i] == items[i]);
        }
        lemma_filter_none(items.drop_last(), keep);
    } else {
        assert(items =~= Seq::<A>::empty());
    }
}

pub(crate) proof fn lemma_latest_snapshot_bounds(actions: Seq<ActionView>, i: int)
    requires
        0 <= i < actions.len(),
        actions[i].kind == FileKind::Snapshot,
    ensures
        latest_snapshot(actions) matches Some(latest) && actions[i].version <= latest,
    decreases actions.len(),
{
    if i < actions.len() - 1 {
        assert(actions.drop_last()[i] == actions[i]);
        lemma_latest_snapshot_bounds(actions.drop_last(), i);
    }
}

/// The latest snapshot is one of those that were found, and none has a higher version; there is
/// none only if no snapshot was found.
pub proof fn the_latest_snapshot_is_the_highest(actions: Seq<ActionView>)
    ensures
        match latest_snapshot(actions) {
            Some(latest) => (exists|i: int|
                0 <= i < actions.len() && (#[trigger] actions[i]).kind == FileKind::Snapshot && actions[i].version
                    == latest) && (forall|i: int|
                0 <= i < actions.len() && (#[trigger] actions[i]).kind == FileKind::Snapshot ==> actions[i].version
                    <= latest),
            None => forall|i: int| 0 <= i < actions.len() ==> (#[trigger] actions[i]).kind != FileKind::Snapshot,
        },
    decreases actions.len(),
{
    if actions.len() > 0 {
        let rest = actions.drop_last();
        let last = actions.len() - 1;
        the_latest_snapshot_is_the_highest(rest);
        assert forall|i: int| 0 <= i < last implies actions[i] == rest[i] by {}
        if let Some(before) = latest_snapshot(rest) {
            let i = choose|i: int|
                0 <= i < rest.len() && (#[trigger] rest[i]).kind == FileKind::Snapshot && rest[i].version == before;
            assert(actions[i].version == before);
        }
        assert forall|i: int| 0 <= i < actions.len() && (#[trigger] actions[i]).kind == FileKind::Snapshot implies (
        latest_snapshot(actions) matches Some(latest) && actions[i].version <= latest) by {
            if i < last {
                assert(rest[i] == actions[i]);
            }
        }
        assert(actions[last] == actions.last());
    }
}

/// Putting an action before the ones of its own and of higher versions.
proof fn lemma_insert(plan: Seq<ActionView>, position: int, action: ActionView)
    requires
        in_order(plan),
        0 <= position <= plan.len(),
        forall|i: int| 0 <= i < position ==> (#[trigger] plan[i]).version < action.version,
        position < plan.len() ==> action.version <= plan[position].version,
    ensures
        in_order(plan.insert(position, action)),
        forall|version: SnapshotVersion| #[trigger]
            of_version(plan.insert(position, action), version) == if version == action.version {
                seq![action] + of_version(plan, version)
            } else {
                of_version(plan, version)
            },
{
    let low = plan.take(position);
    let high = plan.skip(position);
    assert(plan.insert(position, action) =~= low + (seq![action] + high));
    assert(plan =~= low + high);
    assert forall|version: SnapshotVersion| #[trigger]
        of_version(plan.insert(position, action), version) == if version == action.version {
            seq![action] + of_version(plan, version)
        } else {
            of_version(plan, version)
        } by {
        let keep = |action: ActionView| action.version == version;
        Seq::filter_distributes_over_add(low, seq![action] + high, keep);
        Seq::filter_distributes_over_add(low, high, keep);
        lemma_filter_first(action, high, keep);
        if version == action.version {
            lemma_filter_none(low, keep);
            assert(Seq::<ActionView>::empty() + (seq![action] + high.filter(keep)) =~= seq![action] + (
            Seq::<ActionView>::empty() + high.filter(keep)));
        }
    }
}

proof fn lemma_filter_last<A>(items: Seq<A>, keep: spec_fn(A) -> bool)
    requires
        items.len() > 0,
        keep(items.last()),
    ensures
        items.filter(keep).len() > 0,
        items.filter(keep).last() == items.last(),
        items.filter(keep).drop_last() == items.drop_last().filter(keep),
{
    reveal(Seq::filter);
    assert(items.filter(keep).drop_last() =~= items.drop_last().filter(keep));
}

/// In a plan, the last action has the highest version that any action has.
proof fn lemma_last_is_highest(actions: Seq<ActionView>, version: SnapshotVersion)
    requires
        in_order(actions),
        of_version(actions, version).len() > 0,
    ensures
        actions.len() > 0,
        version <= actions.last().version,
{
    let same = |action: ActionView| action.version == version;
    let first = actions.filter(same)[0];
    actions.lemma_filter_pred(same, 0);
    actions.lemma_filter_contains_rev(same, first);
    let i = choose|i: int| 0 <= i < actions.len() && actions[i] == first;
    assert(actions[i].version <= actions[actions.len() - 1].version);
}

proof fn lemma_same_by_version(one: Seq<ActionView>, other: Seq<ActionView>)
    requires
        in_order(one),
        in_order(other),
        forall|version: SnapshotVersion| #[trigger] of_version(one, version) == of_version(other, version),
    ensures
        one == other,
    decreases one.len(),
{
    reveal(Seq::filter);
    if one.len() == 0 {
        if other.len() > 0 {
            let version = other.last().version;
            lemma_filter_last(other, |action: ActionView| action.version == version);
            assert(of_version(one, version) == of_version(other, version));
        }
        assert(one =~= other);
    } else {
        let version = one.last().version;
        lemma_filter_last(one, |action: ActionView| action.version == version);
        assert(of_version(one, version) == of_version(other, version));
        lemma_last_is_highest(other, version);
        let highest = other.last().version;
        lemma_filter_last(other, |action: ActionView| action.version == highest);
        assert(of_version(one, highest) == of_version(other, highest));
        lemma_last_is_highest(one, highest);
        assert(one.last() == other.last());
        assert forall|version: SnapshotVersion| #[trigger]
            of_version(one.drop_last(), version) == of_version(other.drop_last(), version) by {
            assert(of_version(one, version) == of_version(other, version));
            if version == highest {
                lemma_filter_last(one, |action: ActionView| action.version == version);
                lemma_filter_last(other, |action: ActionView| action.version == version);
            }
        }
        lemma_same_by_version(one.drop_last(), other.drop_last());
        assert(one =~= one.drop_last().push(one.last()));
        assert(other =~= other.drop_last().push(other.last()));
    }
}

/// There is only one plan for what was found in a directory.
pub proof fn plans_are_unique(actions: Seq<ActionView>, one: Seq<ActionView>, other: Seq<ActionView>)
    requires
        is_plan(actions, one),
        is_plan(actions, other),
    ensures
        one == other,
{
    assert forall|version: SnapshotVersion| #[trigger] of_version(one, version) == of_version(other, version) by {
        assert(of_version(one, version) == of_version(
            all_needed(latest_snapshot(actions), actions),
            version,
        ));
    }
    lemma_same_by_version(one, other);
}

proof fn lemma_filter_twice<A>(items: Seq<A>, one: spec_fn(A) -> bool, other: spec_fn(A) -> bool)
    ensures
        items.filter(one).filter(other) == items.filter(|item: A| one(item) && other(item)),
    decreases items.len(),
{
    reveal(Seq::filter);
    let both = |item: A| one(item) && other(item);
    if items.len() > 0 {
        let rest = items.drop_last();
        lemma_filter_twice(rest, one, other);
        if one(items.last()) {
            assert(rest.filter(one).push(items.last()).drop_last() =~= rest.filter(one));
        }
    } else {
        assert(items.filter(one) =~= Seq::<A>::empty());
        assert(items.filter(both) =~= Seq::<A>::empty());
    }
}

proof fn lemma_filter_alike<A>(items: Seq<A>, one: spec_fn(A) -> bool, other: spec_fn(A) -> bool)
    requires
        forall|i: int| 0 <= i < items.len() ==> one(#[trigger] items[i]) == other(items[i]),
    ensures
        items.filter(one) == items.filter(other),
    decreases items.len(),
{
    reveal(Seq::filter);
    if items.len() > 0 {
        assert forall|i: int| 0 <= i < items.drop_last().len() implies one(#[trigger] items.drop_last()[i]) == other(
            items.drop_last()[i],
        ) by {
            assert(one(items[i]) == other(items[i]));
        }
        lemma_filter_alike(items.drop_last(), one, other);
        assert(one(items[items.len() - 1]) == other(items[items.len() - 1]));
    }
}

/// The plan for what was found: by ascending version, and of each version, in the order in which
/// they were found, the snapshots that no snapshot has a higher version than, and the journals
/// that no snapshot has the version of, or a higher one; and nothing else.
pub proof fn plans_hold_what_no_snapshot_covers(
    actions: Vec<PersistenceAction>,
    plan: Vec<PersistenceAction>,
    version: SnapshotVersion,
)
    requires
        call_ensures(PersistenceAction::rebuild, (actions,), plan),
    ensures
        forall|i: int, j: int|
            0 <= i <= j < plan@.len() ==> (#[trigger] plan@[i])@.version <= (#[trigger] plan@[j])@.version,
        plan@.map_values(|action: PersistenceAction| action@).filter(|action: ActionView| action.version == version)
            == actions@.map_values(|action: PersistenceAction| action@).filter(
            |action: ActionView|
                action.version == version && forall|i: int|
                    0 <= i < actions@.len() && (#[trigger] actions@[i])@.kind == FileKind::Snapshot
                        ==> match action.kind {
                        FileKind::Snapshot => actions@[i]@.version <= action.version,
                        FileKind::Journal => actions@[i]@.version < action.version,
                    },
        ),
{
    let found = views(actions@);
    let latest = latest_snapshot(found);
    let wanted = |action: ActionView| needed(latest, action);
    let same = |action: ActionView| action.version == version;
    let direct = |action: ActionView|
        action.version == version && forall|i: int|
            0 <= i < actions@.len() && (#[trigger] actions@[i])@.kind == FileKind::Snapshot ==> match action.kind {
                FileKind::Snapshot => actions@[i]@.version <= action.version,
                FileKind::Journal => actions@[i]@.version < action.version,
            };
    assert(is_plan(found, views(plan@)));
    assert(of_version(views(plan@), version) == of_version(all_needed(latest, found), version));
    lemma_filter_twice(found, wanted, same);
    the_latest_snapshot_is_the_highest(found);
    assert forall|n: int| 0 <= n < found.len() implies (wanted(#[trigger] found[n]) && same(found[n])) == direct(
        found[n],
    ) by {
        let action = found[n];
        assert forall|i: int| 0 <= i < actions@.len() implies #[trigger] actions@[i]@ == found[i] by {}
        if let Some(highest) = latest {
            let top = choose|i: int|
                0 <= i < found.len() && (#[trigger] found[i]).kind == FileKind::Snapshot && found[i].version
                    == highest;
            assert(actions@[top]@ == found[top]);
        }
    }
    lemma_filter_alike(found, |item: ActionView| wanted(item) && same(item), direct);
    assert forall|i: int, j: int| 0 <= i <= j < plan@.len() implies (#[trigger] plan@[i])@.version <= (
    #[trigger] plan@[j])@.version by {
        assert(views(plan@)[i].version <= views(plan@)[j].version);
    }
}

impl PersistenceAction {
    /// The version of the file.
    pub fn snapshot_version(&self) -> (version: u32)
        ensures
            version == self@.version,
    {
        match self {
            PersistenceAction::Snapshot { version, .. } => *version,
            PersistenceAction::Journal { version, .. } => *version,
        }
    }

    /// What the file called `name` is to the store. A file whose stem is no version is an
    /// error; one with another extension than the store's own is passed over.
    pub fn read_entry<J, S>(name: Vec<u8>) -> (action: StoreResult<Option<PersistenceAction>, J, S>)
        ensures
            match action {
                Ok(Some(found)) => spec_read_entry(name@) == Ok::<_, Option<Seq<u8>>>(Some(found@)),
                Ok(None) => spec_read_entry(name@) == Ok::<Option<ActionView>, Option<Seq<u8>>>(None),
                Err(error) => spec_read_entry(name@) == Err::<Option<ActionView>, _>(names::stem(name@))
                    && error.blames_name(names::stem(name@)),
            },
    {
        let parts = parse_file_name(name.as_slice());
        let text = match parts.stem {
            Some(text) => text,
            None => return Err(StoreError::JournalInvalidFileName(None)),
        };
        let version = match parse_version(text.as_slice()) {
            Some(version) => version,
            None => return Err(StoreError::JournalInvalidFileName(Some(text))),
        };
        let kind = match parts.extension {
            Some(text) => FileKind::from_extension(text.as_slice()),
            None => None,
        };
        match kind {
            Some(FileKind::Journal) => Ok(Some(PersistenceAction::Journal { version, path: name })),
            Some(FileKind::Snapshot) => Ok(Some(PersistenceAction::Snapshot { version, path: name })),
            None => Ok(None),
        }
    }

    /// The highest version among the snapshots.
    pub fn latest_snapshot(actions: &Vec<PersistenceAction>) -> (latest: Option<SnapshotVersion>)
        ensures
            latest == latest_snapshot(views(actions@)),
    {
        let mut latest: Option<SnapshotVersion> = None;
        let mut i: usize = 0;
        assert(views(actions@).take(0) =~= Seq::<ActionView>::empty());
        while i < actions.len()
            invariant
                i <= actions.len(),
                latest == latest_snapshot(views(actions@).take(i as int)),
            decreases actions.len() - i,
        {
            assert(views(actions@).take(i + 1).drop_last() =~= views(actions@).take(i as int));
            assert(views(actions@).take(i + 1).last() == actions@[i as int]@);
            if let PersistenceAction::Snapshot { version, .. } = &actions[i] {
                let higher = match latest {
                    Some(before) => before <= *version,
                    None => true,
                };
                if higher {
                    latest = Some(*version);
                }
            }
            i = i + 1;
        }
        assert(views(actions@).take(i as int) =~= views(actions@));
        latest
    }

    /// Is the action needed, if this is the latest snapshot?
    fn is_needed(&self, latest: Option<SnapshotVersion>) -> (answer: bool)
        ensures
            answer == needed(latest, self@),
    {
        match latest {
            None => true,
            Some(latest_version) => match self {
                PersistenceAction::Snapshot { version, .. } => *version == latest_version,
                PersistenceAction::Journal { version, .. } => *version > latest_version,
            },
        }
    }

    /// Keeps only the actions that are required to rebuild the latest data, by ascending
    /// version. All journals whose version is not higher than that of the latest snapshot are
    /// left out, and so are all snapshots but the latest.
    ///
    /// Out of
    /// - `0000000001.journal`
    /// - `0000000001.snapshot`
    /// - `0000000002.journal`
    ///
    /// it makes
    /// - `0000000001.snapshot`
    /// - `0000000002.journal`
    pub fn rebuild(actions: Vec<PersistenceAction>) -> (plan: Vec<PersistenceAction>)
        ensures
            is_plan(views(actions@), views(plan@)),
    {
        let latest = Self::latest_snapshot(&actions);
        let ghost all = views(actions@);
        let mut actions = actions;
        let mut plan: Vec<PersistenceAction> = Vec::new();
        proof {
            assert(views(actions@) =~= all);
            assert(all.skip(all.len() as int) =~= Seq::<ActionView>::empty());
            reveal(Seq::filter);
            assert(views(plan@) =~= Seq::<ActionView>::empty());
        }
        while actions.len() > 0
            invariant
                actions.len() <= all.len(),
                views(actions@) == all.take(actions.len() as int),
                in_order(views(plan@)),
                forall|version: SnapshotVersion| #[trigger]
                    of_version(views(plan@), version) == of_version(
                        all_needed(latest, all.skip(actions.len() as int)),
                        version,
                    ),
            decreases actions.len(),
        {
            let ghost count = actions.len() as int;
            let ghost before = plan@;
            let ghost found = views(actions@);
            let action = actions.pop().unwrap();
            proof {
                assert(found[count - 1] == action@);
                assert(all[count - 1] == action@);
                assert(views(actions@) =~= found.drop_last());
                assert(found.drop_last() =~= all.take(count - 1));
                assert(all.skip(count - 1) =~= seq![action@] + all.skip(count));
                lemma_filter_first(action@, all.skip(count), |action: ActionView| needed(latest, action));
                if needed(latest, action@) {
                    assert forall|version: SnapshotVersion| #[trigger]
                        of_version(all_needed(latest, all.skip(count - 1)), version) == if version
                            == action@.version {
                            seq![action@] + of_version(all_needed(latest, all.skip(count)), version)
                        } else {
                            of_version(all_needed(latest, all.skip(count)), version)
                        } by {
                        lemma_filter_first(
                            action@,
                            all_needed(latest, all.skip(count)),
                            |action: ActionView| action.version == version,
                        );
                    }
                }
            }
            if action.is_needed(latest) {
                let version = action.snapshot_version();
                let mut position: usize = 0;
                while position < plan.len() && plan[position].snapshot_version() < version
                    invariant
                        position <= plan.len(),
                        version == action@.version,
                        forall|i: int|
                            0 <= i < position ==> (#[trigger] views(plan@)[i]).version < version,
                    decreases plan.len() - position,
                {
                    assert(views(plan@)[position as int] == plan@[position as int]@);
                    position = position + 1;
                }
                proof {
                    lemma_insert(views(plan@), position as int, action@);
                    assert(views(plan@.insert(position as int, action)) =~= views(plan@).insert(
                        position as int,
                        action@,
                    ));
                }
                plan.insert(position, action);
            }
        }
        assert(all.skip(0) =~= all);
        plan
    }
}

} // verus!
