//! What a listing of the store's directory leads to.

use vstd::prelude::*;
use crate::action;
use crate::action::ActionView;
use crate::names;
use crate::names::{FileKind, SnapshotVersion};

verus! {

/// What the files of a directory hold, by name.
pub type Files = Map<Seq<u8>, Seq<u8>>;

/// The action for the file of this kind and version, under the name that the store gives it.
pub open spec fn action_for(kind: FileKind, version: SnapshotVersion) -> ActionView {
    ActionView { kind, version, path: names::spec_file_name(kind, version) }
}

/// Is there a file of this kind and version?
pub open spec fn has(files: Files, kind: FileKind, version: int) -> bool {
    0 <= version <= u32::MAX && files.contains_key(names::spec_file_name(kind, version as u32))
}

/// What the file of this kind and version holds.
pub open spec fn contents(files: Files, kind: FileKind, version: int) -> Seq<u8> {
    files[names::spec_file_name(kind, version as u32)]
}

/// Does every file either not concern the store, or bear the name that the store gives to a
/// journal of version `newest` or lower, or to a snapshot of a lower version?
pub open spec fn is_in_order(files: Files, newest: int) -> bool {
    forall|name: Seq<u8>| #[trigger] files.contains_key(name) ==> belongs(name, newest)
}

/// Does a file of this name not concern the store, or bear the name that the store gives to a
/// journal of version `newest` or lower, or to a snapshot of a lower version?
pub open spec fn belongs(name: Seq<u8>, newest: int) -> bool {
    match action::spec_read_entry(name) {
        Ok(None) => true,
        Ok(Some(found)) => found == action_for(found.kind, found.version) && match found.kind {
            FileKind::Journal => found.version <= newest,
            FileKind::Snapshot => found.version < newest,
        },
        Err(_) => false,
    }
}

/// Does no file concern the store?
pub open spec fn has_no_store(files: Files) -> bool {
    forall|name: Seq<u8>| #[trigger]
        files.contains_key(name) ==> action::spec_read_entry(name) == Ok::<Option<ActionView>, Option<Seq<u8>>>(
            None,
        )
}

/// The actions that a listing leads to.
pub open spec fn found_in(listed: Seq<Seq<u8>>) -> Seq<ActionView>
    decreases listed.len(),
{
    if listed.len() == 0 {
        Seq::empty()
    } else {
        match action::spec_read_entry(listed.last()) {
            Ok(Some(found)) => found_in(listed.drop_last()).push(found),
            _ => found_in(listed.drop_last()),
        }
    }
}

/// The journals from one version to another, by ascending version.
pub open spec fn journals_from(files: Files, first: int, last: int) -> Seq<ActionView>
    decreases last + 1 - first,
{
    if first > last {
        Seq::empty()
    } else if has(files, FileKind::Journal, first) {
        seq![action_for(FileKind::Journal, first as u32)] + journals_from(files, first + 1, last)
    } else {
        journals_from(files, first + 1, last)
    }
}

/// The files to be read in a directory whose latest snapshot is this one: that snapshot, then
/// the journals behind it.
pub open spec fn plan_for(files: Files, latest: Option<SnapshotVersion>, newest: int) -> Seq<ActionView> {
    match latest {
        None => journals_from(files, 0, newest),
        Some(version) => seq![action_for(FileKind::Snapshot, version)] + journals_from(
            files,
            version + 1,
            newest,
        ),
    }
}

/// Is this the version of the latest snapshot?
pub open spec fn is_latest(files: Files, latest: Option<SnapshotVersion>) -> bool {
    match latest {
        None => forall|version: int| !#[trigger] has(files, FileKind::Snapshot, version),
        Some(version) => has(files, FileKind::Snapshot, version as int) && forall|other: int| #[trigger]
            has(files, FileKind::Snapshot, other) ==> other <= version,
    }
}

/// A file that the store named is found again as what it is.
pub proof fn own_files_are_found(kind: FileKind, version: SnapshotVersion)
    ensures
        action::spec_read_entry(names::spec_file_name(kind, version)) == Ok::<_, Option<Seq<u8>>>(
            Some(action_for(kind, version)),
        ),
{
    names::file_name_reads_back(kind, version);
    assert(names::extension_of(FileKind::Journal).len() == 7);
    assert(names::extension_of(FileKind::Snapshot).len() == 8);
}

proof fn lemma_journals_from(files: Files, first: int, last: int)
    requires
        0 <= first,
        last <= u32::MAX,
    ensures
        action::in_order(journals_from(files, first, last)),
        forall|i: int|
            0 <= i < journals_from(files, first, last).len() ==> {
                let action = #[trigger] journals_from(files, first, last)[i];
                &&& action.kind == FileKind::Journal
                &&& first <= action.version <= last
            },
        forall|version: SnapshotVersion| #[trigger]
            action::of_version(journals_from(files, first, last), version) == if first <= version <= last
                && has(files, FileKind::Journal, version as int) {
                seq![action_for(FileKind::Journal, version)]
            } else {
                Seq::empty()
            },
    decreases last + 1 - first,
{
    let all = journals_from(files, first, last);
    if first > last {
        assert forall|version: SnapshotVersion| #[trigger]
            action::of_version(all, version) == Seq::<ActionView>::empty() by {
            action::lemma_filter_none(all, |action: ActionView| action.version == version);
        }
    } else {
        lemma_journals_from(files, first + 1, last);
        let rest = journals_from(files, first + 1, last);
        if has(files, FileKind::Journal, first) {
            let action = action_for(FileKind::Journal, first as u32);
            assert forall|i: int, j: int| 0 <= i <= j < all.len() implies (#[trigger] all[i]).version <= (
            #[trigger] all[j]).version by {
                if i > 0 {
                    assert(all[i] == rest[i - 1]);
                }
                if j > 0 {
                    assert(all[j] == rest[j - 1]);
                }
            }
            assert forall|i: int| 0 <= i < all.len() implies {
                let action = #[trigger] all[i];
                &&& action.kind == FileKind::Journal
                &&& first <= action.version <= last
            } by {
                if i > 0 {
                    assert(all[i] == rest[i - 1]);
                }
            }
            assert forall|version: SnapshotVersion| #[trigger]
                action::of_version(all, version) == if first <= version <= last && has(
                    files,
                    FileKind::Journal,
                    version as int,
                ) {
                    seq![action_for(FileKind::Journal, version)]
                } else {
                    Seq::empty()
                } by {
                action::lemma_filter_first(action, rest, |action: ActionView| action.version == version);
                assert(action::of_version(rest, version) == if first + 1 <= version <= last && has(
                    files,
                    FileKind::Journal,
                    version as int,
                ) {
                    seq![action_for(FileKind::Journal, version)]
                } else {
                    Seq::empty()
                });
                assert(seq![action] + Seq::<ActionView>::empty() =~= seq![action]);
            }
        }
    }
}

proof fn lemma_plan_for(files: Files, latest: Option<SnapshotVersion>, newest: int)
    requires
        newest <= u32::MAX,
    ensures
        action::in_order(plan_for(files, latest, newest)),
        forall|version: SnapshotVersion| #[trigger]
            action::of_version(plan_for(files, latest, newest), version) == if latest == Some(version) {
                seq![action_for(FileKind::Snapshot, version)]
            } else if version <= newest && has(files, FileKind::Journal, version as int) && (
            latest matches Some(covered) ==> covered < version) {
                seq![action_for(FileKind::Journal, version)]
            } else {
                Seq::empty()
            },
{
    let plan = plan_for(files, latest, newest);
    match latest {
        None => {
            lemma_journals_from(files, 0, newest);
        },
        Some(covered) => {
            lemma_journals_from(files, covered + 1, newest);
            let rest = journals_from(files, covered + 1, newest);
            let action = action_for(FileKind::Snapshot, covered);
            assert forall|i: int, j: int| 0 <= i <= j < plan.len() implies (#[trigger] plan[i]).version <= (
            #[trigger] plan[j]).version by {
                if i > 0 {
                    assert(plan[i] == rest[i - 1]);
                }
                if j > 0 {
                    assert(plan[j] == rest[j - 1]);
                }
            }
            assert forall|version: SnapshotVersion| #[trigger]
                action::of_version(plan, version) == if latest == Some(version) {
                    seq![action_for(FileKind::Snapshot, version)]
                } else if version <= newest && has(files, FileKind::Journal, version as int) && covered
                    < version {
                    seq![action_for(FileKind::Journal, version)]
                } else {
                    Seq::empty()
                } by {
                action::lemma_filter_first(action, rest, |action: ActionView| action.version == version);
                assert(action::of_version(rest, version) == if covered + 1 <= version <= newest && has(
                    files,
                    FileKind::Journal,
                    version as int,
                ) {
                    seq![action_for(FileKind::Journal, version)]
                } else {
                    Seq::empty()
                });
                assert(seq![action] + Seq::<ActionView>::empty() =~= seq![action]);
            }
        },
    }
}

proof fn lemma_filter_single<A>(items: Seq<A>, keep: spec_fn(A) -> bool, item: A)
    requires
        items.no_duplicates(),
        items.contains(item),
        keep(item),
        forall|other: A| items.contains(other) && #[trigger] keep(other) ==> other == item,
    ensures
        items.filter(keep) == seq![item],
    decreases items.len(),
{
    reveal(Seq::filter);
    let front = items.drop_last();
    assert(items == front.push(items.last()));
    assert forall|other: A| front.contains(other) implies items.contains(other) by {
        let i = choose|i: int| 0 <= i < front.len() && front[i] == other;
        assert(items[i] == other);
    }
    if keep(items.last()) {
        assert(items.contains(items.last()));
        assert forall|i: int| 0 <= i < front.len() implies !keep(#[trigger] front[i]) by {
            assert(front[i] == items[i]);
            assert(items.contains(front[i]));
            assert(items[i] != items[items.len() - 1]);
        }
        action::lemma_filter_none(front, keep);
        assert(items.filter(keep) =~= seq![item]);
    } else {
        let i = choose|i: int| 0 <= i < items.len() && items[i] == item;
        assert(front[i] == item);
        lemma_filter_single(front, keep, item);
    }
}

proof fn lemma_filter_twice<A>(items: Seq<A>, one: spec_fn(A) -> bool, other: spec_fn(A) -> bool)
    ensures
        items.filter(one).filter(other) == items.filter(|item: A| one(item) && other(item)),
    decreases items.len(),
{
    reveal(Seq::filter);
    if items.len() > 0 {
        lemma_filter_twice(items.drop_last(), one, other);
        if one(items.last()) {
            let front = items.drop_last().filter(one);
            assert(front.push(items.last()).drop_last() =~= front);
        }
    }
}

/// What was found stems from the listing, and what is listed was found.
proof fn lemma_found_in(listed: Seq<Seq<u8>>)
    requires
        listed.no_duplicates(),
    ensures
        found_in(listed).no_duplicates(),
        forall|found: ActionView| #[trigger]
            found_in(listed).contains(found) <==> listed.contains(found.path) && action::spec_read_entry(
                found.path,
            ) == Ok::<_, Option<Seq<u8>>>(Some(found)),
    decreases listed.len(),
{
    if listed.len() > 0 {
        let front = listed.drop_last();
        let name = listed.last();
        assert(listed == front.push(name));
        lemma_found_in(front);
        let before = found_in(front);
        assert(!front.contains(name));
        assert forall|found: ActionView| #[trigger]
            found_in(listed).contains(found) <==> listed.contains(found.path) && action::spec_read_entry(
                found.path,
            ) == Ok::<_, Option<Seq<u8>>>(Some(found)) by {
            assert(before.contains(found) <==> front.contains(found.path) && action::spec_read_entry(
                found.path,
            ) == Ok::<_, Option<Seq<u8>>>(Some(found)));
            assert(listed.contains(found.path) <==> front.contains(found.path) || found.path == name) by {
                if front.contains(found.path) {
                    let i = choose|i: int| 0 <= i < front.len() && front[i] == found.path;
                    assert(listed[i] == found.path);
                }
                assert(listed[listed.len() - 1] == name);
            }
            if let Ok(Some(last)) = action::spec_read_entry(name) {
                assert(found_in(listed) == before.push(last));
                assert(before.push(last).contains(found) <==> before.contains(found) || found == last) by {
                    if before.contains(found) {
                        let i = choose|i: int| 0 <= i < before.len() && before[i] == found;
                        assert(before.push(last)[i] == found);
                    }
                    assert(before.push(last)[before.len() as int] == last);
                }
                assert(last.path == name);
            }
        }
        if let Ok(Some(last)) = action::spec_read_entry(name) {
            assert(last.path == name);
            assert(!before.contains(last));
            assert(found_in(listed) == before.push(last));
        }
    }
}

proof fn lemma_latest_is_found(actions: Seq<ActionView>)
    ensures
        match action::latest_snapshot(actions) {
            Some(version) => exists|i: int|
                0 <= i < actions.len() && (#[trigger] actions[i]).kind == FileKind::Snapshot && actions[i].version
                    == version,
            None => forall|i: int| 0 <= i < actions.len() ==> (#[trigger] actions[i]).kind != FileKind::Snapshot,
        },
    decreases actions.len(),
{
    if actions.len() > 0 {
        let front = actions.drop_last();
        lemma_latest_is_found(front);
        assert(actions.last() == actions[actions.len() - 1]);
        match action::latest_snapshot(front) {
            Some(version) => {
                let i = choose|i: int|
                    0 <= i < front.len() && (#[trigger] front[i]).kind == FileKind::Snapshot && front[i].version
                        == version;
                assert(actions[i] == front[i]);
            },
            None => {
                assert forall|i: int| 0 <= i < front.len() implies (#[trigger] actions[i]).kind
                    != FileKind::Snapshot by {
                    assert(actions[i] == front[i]);
                }
            },
        }
    }
}

/// Is this a listing of the directory: every file once, in any order?
pub open spec fn lists(files: Files, listed: Seq<Seq<u8>>) -> bool {
    &&& listed.no_duplicates()
    &&& forall|name: Seq<u8>| #[trigger] listed.contains(name) <==> files.contains_key(name)
}

/// In whatever order a directory is listed, the plan is the latest snapshot, if there is one,
/// and then the journals behind it, by ascending version.
pub proof fn listing_order_is_irrelevant(
    files: Files,
    newest: int,
    listed: Seq<Seq<u8>>,
    plan: Seq<ActionView>,
)
    requires
        newest <= u32::MAX,
        is_in_order(files, newest),
        lists(files, listed),
        action::is_plan(found_in(listed), plan),
    ensures
        is_latest(files, action::latest_snapshot(found_in(listed))),
        plan == plan_for(files, action::latest_snapshot(found_in(listed)), newest),
{
    let actions = found_in(listed);
    let latest = action::latest_snapshot(actions);
    lemma_found_in(listed);
    // Exactly the store's own files are found.
    assert forall|found: ActionView| #[trigger] actions.contains(found) implies found == action_for(
        found.kind,
        found.version,
    ) && has(files, found.kind, found.version as int) && (found.kind == FileKind::Journal ==> found.version
        <= newest) by {
        assert(listed.contains(found.path));
        assert(files.contains_key(found.path));
    }
    assert forall|kind: FileKind, version: SnapshotVersion| #[trigger]
        has(files, kind, version as int) implies actions.contains(action_for(kind, version)) by {
        own_files_are_found(kind, version);
        assert(listed.contains(names::spec_file_name(kind, version)));
    }
    lemma_latest_is_found(actions);
    assert(is_latest(files, latest)) by {
        match latest {
            None => {
                assert forall|version: int| !#[trigger] has(files, FileKind::Snapshot, version) by {
                    if has(files, FileKind::Snapshot, version) {
                        assert(has(files, FileKind::Snapshot, (version as u32) as int));
                        let action = action_for(FileKind::Snapshot, version as u32);
                        assert(actions.contains(action));
                        let i = choose|i: int| 0 <= i < actions.len() && actions[i] == action;
                        assert(actions[i].kind != FileKind::Snapshot);
                    }
                }
            },
            Some(highest) => {
                let i = choose|i: int|
                    0 <= i < actions.len() && (#[trigger] actions[i]).kind == FileKind::Snapshot
                        && actions[i].version == highest;
                assert(actions.contains(actions[i]));
                assert forall|other: int| #[trigger] has(files, FileKind::Snapshot, other) implies other
                    <= highest by {
                    assert(has(files, FileKind::Snapshot, (other as u32) as int));
                    let action = action_for(FileKind::Snapshot, other as u32);
                    assert(actions.contains(action));
                    let j = choose|j: int| 0 <= j < actions.len() && actions[j] == action;
                    action::lemma_latest_snapshot_bounds(actions, j);
                }
            },
        }
    }
    let expected = plan_for(files, latest, newest);
    lemma_plan_for(files, latest, newest);
    assert forall|version: SnapshotVersion| #[trigger]
        action::of_version(expected, version) == action::of_version(
            action::all_needed(latest, actions),
            version,
        ) by {
        let wanted = |action: ActionView| action::needed(latest, action);
        let same = |action: ActionView| action.version == version;
        let both = |action: ActionView| wanted(action) && same(action);
        lemma_filter_twice(actions, wanted, same);
        if latest == Some(version) {
            let action = action_for(FileKind::Snapshot, version);
            assert(has(files, FileKind::Snapshot, version as int));
            assert(actions.contains(action));
            lemma_filter_single(actions, both, action);
        } else if version <= newest && has(files, FileKind::Journal, version as int) && (
        latest matches Some(covered) ==> covered < version) {
            let action = action_for(FileKind::Journal, version);
            assert(actions.contains(action));
            assert forall|other: ActionView| actions.contains(other) && #[trigger] both(other) implies other
                == action by {
                if other.kind == FileKind::Snapshot {
                    assert(has(files, FileKind::Snapshot, other.version as int));
                }
            }
            lemma_filter_single(actions, both, action);
        } else {
            assert forall|i: int| 0 <= i < actions.len() implies !both(#[trigger] actions[i]) by {
                let other = actions[i];
                assert(actions.contains(other));
                if both(other) && other.kind == FileKind::Snapshot {
                    assert(has(files, FileKind::Snapshot, other.version as int));
                }
            }
            action::lemma_filter_none(actions, both);
        }
    }
    action::plans_are_unique(actions, plan, expected);
}

} // verus!
