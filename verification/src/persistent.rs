//! The data of a store together with what is needed to make it persistent, and how both are
//! loaded from the store's directory.

use vstd::prelude::*;
use crate::action;
use crate::action::{ActionView, PersistenceAction};
use crate::error::{DecodeError, StoreError, StoreResult};
use crate::journal;
use crate::journal::{JournalFile, Persist};
use crate::names;
use crate::names::{file_name, is_name_of, FileKind, SnapshotVersion};
use crate::request::{Reply, ReplyView, Request, RequestView};
use crate::serializer::Serializer;
use crate::tx;
use crate::tx::{execute_all, Tx};

verus! {

/// The data of a store, and the state of its files.
#[derive(Debug)]
pub struct PersistentData<D> {
    data: D,
    next_snapshot_version: SnapshotVersion,
    journal: JournalFile,
    flush_on_drop: bool,
}

/// [PersistentData] as contracts see it.
#[verifier::ext_equal]
pub struct PersistentView<D> {
    /// The data.
    pub data: D,
    /// The version of the journal that is being written, and of the next snapshot.
    pub next_snapshot_version: SnapshotVersion,
    /// How many entries were written to the journal, before it was opened and since.
    pub written_entries: nat,
    /// Has the journal to be flushed when the data goes away?
    pub flush_on_drop: bool,
}

impl<D> View for PersistentData<D> {
    type V = PersistentView<D>;

    closed spec fn view(&self) -> PersistentView<D> {
        PersistentView {
            data: self.data,
            next_snapshot_version: self.next_snapshot_version,
            written_entries: self.journal@,
            flush_on_drop: self.flush_on_drop,
        }
    }
}

impl<D> PersistentView<D> {
    /// What has to be done to the journal when the data goes away.
    pub open spec fn spec_on_drop(self) -> Option<Persist> {
        if self.flush_on_drop {
            Some(Persist::Flushing { then_sync: true })
        } else {
            None
        }
    }
}

/// Is `data` what a store without files starts with?
pub open spec fn is_default<D: Default>(data: D) -> bool {
    call_ensures(D::default, (), data)
}

/// May `data` be what the snapshot `bytes` holds?
pub open spec fn snapshot_holds<D, S: Serializer<D>>(serializer: S, bytes: Seq<u8>, data: D) -> bool {
    exists|left: Seq<u8>| serializer.decodes(bytes, Ok(Some(data)), left)
}

/// May the serializer find no data in the snapshot `bytes`?
pub open spec fn snapshot_is_empty<D, S: Serializer<D>>(serializer: S, bytes: Seq<u8>) -> bool {
    exists|left: Seq<u8>| serializer.decodes(bytes, Ok(None::<D>), left)
}

/// May the serializer refuse the snapshot `bytes`?
pub open spec fn snapshot_is_refused<D, S: Serializer<D>>(serializer: S, bytes: Seq<u8>, error: S::Error) -> bool {
    exists|left: Seq<u8>| serializer.decodes(bytes, Err::<Option<D>, S::Error>(error), left)
}

/// Is the file the journal of this version, under the name by which it is opened and written on?
pub open spec fn is_written_on(action: ActionView, version: SnapshotVersion) -> bool {
    action.kind == FileKind::Journal && action.path == names::spec_file_name(FileKind::Journal, version)
}

/// May executing all transactions of the journal `bytes` turn `before` into `after`? If the
/// journal is written on, they are the entries that it has so far.
pub open spec fn journal_turns<D, T: Tx<D>, S: Serializer<T>>(
    serializer: S,
    bytes: Seq<u8>,
    written_on: bool,
    before: PersistentView<D>,
    after: PersistentView<D>,
) -> bool {
    exists|txs: Seq<T>| #[trigger]
        journal::holds(serializer, bytes, txs) && tx::runs(txs, before.data, after.data) && after == (
        PersistentView {
            data: after.data,
            written_entries: if written_on {
                txs.len()
            } else {
                before.written_entries
            },
            ..before
        })
}

/// May a file with these contents, applied to the data `before`, have this outcome? A snapshot
/// replaces the data, whatever it was; a journal changes it. The entries of the journal that is
/// written on are counted.
pub open spec fn applies<D, T: Tx<D>, S: Serializer<D> + Serializer<T>>(
    serializer: S,
    action: ActionView,
    contents: Seq<u8>,
    before: PersistentView<D>,
    outcome: Result<PersistentView<D>, StoreError<<S as Serializer<T>>::Error, <S as Serializer<D>>::Error>>,
) -> bool {
    match action.kind {
        FileKind::Snapshot => match outcome {
            Ok(after) => snapshot_holds(serializer, contents, after.data) && after == (PersistentView {
                data: after.data,
                ..before
            }),
            Err(StoreError::DecodeSnapshot(DecodeError::Corrupted)) => snapshot_is_empty::<D, S>(
                serializer,
                contents,
            ),
            Err(StoreError::DecodeSnapshot(DecodeError::Serializer(error))) => snapshot_is_refused::<D, S>(
                serializer,
                contents,
                error,
            ),
            Err(_) => false,
        },
        FileKind::Journal => match outcome {
            Ok(after) => journal_turns::<D, T, S>(
                serializer,
                contents,
                is_written_on(action, before.next_snapshot_version),
                before,
                after,
            ),
            Err(StoreError::DecodeJournalEntry(error)) => journal::refuses::<T, S>(
                serializer,
                contents,
                error,
            ),
            Err(_) => false,
        },
    }
}

/// The version of the journal that is written once the actions of `plan` are done: that of the
/// last journal, which is written on, or the one behind the last snapshot.
pub open spec fn next_version(plan: Seq<ActionView>) -> int {
    if plan.len() == 0 {
        0
    } else {
        match plan.last().kind {
            FileKind::Snapshot => plan.last().version + 1,
            FileKind::Journal => plan.last().version as int,
        }
    }
}

proof fn lemma_filter_at<A>(items: Seq<A>, keep: spec_fn(A) -> bool, i: int)
    requires
        0 <= i < items.filter(keep).len(),
    ensures
        items.contains(items.filter(keep)[i]),
        keep(items.filter(keep)[i]),
{
    items.lemma_filter_pred(keep, i);
    items.lemma_filter_contains_rev(keep, items.filter(keep)[i]);
}

/// Every action of a plan is one of those that it was made of, and needed.
proof fn lemma_plan_member(actions: Seq<ActionView>, plan: Seq<ActionView>, i: int)
    requires
        action::is_plan(actions, plan),
        0 <= i < plan.len(),
    ensures
        actions.contains(plan[i]),
        action::needed(action::latest_snapshot(actions), plan[i]),
{
    let version = plan[i].version;
    let same = |action: ActionView| action.version == version;
    let latest = action::latest_snapshot(actions);
    let wanted = |action: ActionView| action::needed(latest, action);
    plan.lemma_filter_contains(same, i);
    assert(action::of_version(plan, version).contains(plan[i]));
    assert(action::of_version(action::all_needed(latest, actions), version).contains(plan[i]));
    actions.filter(wanted).lemma_filter_contains_rev(same, plan[i]);
    let j = choose|j: int|
        0 <= j < actions.filter(wanted).len() && actions.filter(wanted)[j] == plan[i];
    lemma_filter_at(actions, wanted, j);
}

/// The version behind a plan exists, unless the directory holds a snapshot of the highest
/// version.
proof fn lemma_next_version_fits(actions: Seq<ActionView>, plan: Seq<ActionView>)
    requires
        action::is_plan(actions, plan),
        action::latest_snapshot(actions) != Some(u32::MAX),
    ensures
        0 <= next_version(plan) <= u32::MAX,
{
    if plan.len() > 0 {
        let i = plan.len() - 1;
        lemma_plan_member(actions, plan, i);
        let j = choose|j: int| 0 <= j < actions.len() && actions[j] == plan[i];
        if plan[i].kind == FileKind::Snapshot {
            action::lemma_latest_snapshot_bounds(actions, j);
        }
    }
}

/// The version behind a plan is behind every file that was found: no lower than that of any
/// journal, and higher than that of any snapshot. And it is no higher than that takes.
pub proof fn the_next_version_is_behind_all_files(actions: Seq<ActionView>, plan: Seq<ActionView>)
    requires
        action::is_plan(actions, plan),
    ensures
        forall|i: int|
            0 <= i < actions.len() ==> match (#[trigger] actions[i]).kind {
                FileKind::Journal => actions[i].version <= next_version(plan),
                FileKind::Snapshot => actions[i].version < next_version(plan),
            },
        next_version(plan) == 0 && actions.len() == 0 || exists|i: int|
            0 <= i < actions.len() && match (#[trigger] actions[i]).kind {
                FileKind::Journal => actions[i].version == next_version(plan),
                FileKind::Snapshot => actions[i].version + 1 == next_version(plan),
            },
{
    let latest = action::latest_snapshot(actions);
    action::the_latest_snapshot_is_the_highest(actions);
    if plan.len() > 0 {
        lemma_plan_member(actions, plan, plan.len() - 1);
        let i = choose|i: int| 0 <= i < actions.len() && actions[i] == plan.last();
        assert(actions[i] == plan.last());
    }
    assert forall|i: int| 0 <= i < actions.len() implies match (#[trigger] actions[i]).kind {
        FileKind::Journal => actions[i].version <= next_version(plan),
        FileKind::Snapshot => actions[i].version < next_version(plan),
    } by {
        // What is needed comes no later than the last of the plan, and all else is covered by the
        // latest snapshot, which is needed.
        let top = match latest {
            Some(highest) => if action::needed(latest, actions[i]) {
                i
            } else {
                choose|n: int|
                    0 <= n < actions.len() && (#[trigger] actions[n]).kind == FileKind::Snapshot && actions[n].version
                        == highest
            },
            None => i,
        };
        lemma_needed_is_planned(actions, plan, top);
    }
    if plan.len() == 0 && actions.len() > 0 {
        let top = match latest {
            Some(highest) => choose|n: int|
                0 <= n < actions.len() && (#[trigger] actions[n]).kind == FileKind::Snapshot && actions[n].version
                    == highest,
            None => 0,
        };
        lemma_needed_is_planned(actions, plan, top);
    }
}

/// An action that is needed is in the plan, and so not behind its last.
proof fn lemma_needed_is_planned(actions: Seq<ActionView>, plan: Seq<ActionView>, i: int)
    requires
        action::is_plan(actions, plan),
        0 <= i < actions.len(),
        action::needed(action::latest_snapshot(actions), actions[i]),
    ensures
        plan.contains(actions[i]),
        plan.len() > 0,
        actions[i].version <= plan.last().version,
        plan.last().version == actions[i].version && plan.last().kind == FileKind::Journal ==> actions[i].kind
            == FileKind::Journal,
{
    let latest = action::latest_snapshot(actions);
    let wanted = |action: ActionView| action::needed(latest, action);
    let version = actions[i].version;
    let same = |action: ActionView| action.version == version;
    actions.lemma_filter_contains(wanted, i);
    let j = choose|j: int| 0 <= j < actions.filter(wanted).len() && actions.filter(wanted)[j] == actions[i];
    actions.filter(wanted).lemma_filter_contains(same, j);
    assert(action::of_version(plan, version).contains(actions[i]));
    plan.lemma_filter_contains_rev(same, actions[i]);
    let n = choose|n: int| 0 <= n < plan.len() && plan[n] == actions[i];
    assert(plan[n].version <= plan[plan.len() - 1].version);
    lemma_plan_member(actions, plan, plan.len() - 1);
    if actions[i].kind == FileKind::Snapshot {
        action::lemma_latest_snapshot_bounds(actions, i);
    }
}

impl<D> PersistentData<D> {
    /// The data.
    pub fn data(&self) -> (data: &D)
        ensures
            *data == self@.data,
    {
        &self.data
    }

    /// The version of the journal that is being written, and of the next snapshot.
    pub fn next_snapshot_version(&self) -> (version: SnapshotVersion)
        ensures
            version == self@.next_snapshot_version,
    {
        self.next_snapshot_version
    }

    /// How many entries were written to the journal, before it was opened and since.
    pub fn written_entries(&self) -> (entries: usize)
        ensures
            entries == self@.written_entries,
    {
        self.journal.written_entries()
    }

    /// Starts to load the data from the store's directory.
    pub fn load(flush_on_drop: bool) -> (load: Load<D>)
        ensures
            load@ == (LoadView::<D>::CreateDir { flush_on_drop }),
    {
        Load { stage: LoadStage::CreateDir { flush_on_drop } }
    }

    /// Applies a file to the data: takes the data from a snapshot, or executes the transactions
    /// of a journal. If the journal is the one that is written on, it counts them.
    pub fn rebuild<T: Tx<D>, S: Serializer<D> + Serializer<T>>(
        &mut self,
        serializer: &S,
        action: &PersistenceAction,
        contents: &[u8],
    ) -> (outcome: StoreResult<(), <S as Serializer<T>>::Error, <S as Serializer<D>>::Error>)
        ensures
            match outcome {
                Ok(()) => applies::<D, T, S>(*serializer, action@, contents@, old(self)@, Ok(final(self)@)),
                Err(error) => applies::<D, T, S>(*serializer, action@, contents@, old(self)@, Err(error))
                    && final(self)@ == old(self)@,
            },
    {
        match action {
            PersistenceAction::Snapshot { .. } => {
                let mut reader: &[u8] = contents;
                let read: Result<Option<D>, <S as Serializer<D>>::Error> = serializer.deserialize(&mut reader);
                match read {
                    Ok(Some(data)) => {
                        self.data = data;
                        Ok(())
                    },
                    Ok(None) => Err(StoreError::DecodeSnapshot(DecodeError::Corrupted)),
                    Err(error) => Err(StoreError::DecodeSnapshot(DecodeError::Serializer(error))),
                }
            },
            PersistenceAction::Journal { path, .. } => {
                let txs: Vec<T> = match JournalFile::parse(serializer, contents) {
                    Ok(txs) => txs,
                    Err(error) => return Err(error),
                };
                if is_name_of(path.as_slice(), FileKind::Journal, self.next_snapshot_version) {
                    self.journal = JournalFile::open(txs.len());
                }
                execute_all(txs, &mut self.data);
                Ok(())
            },
        }
    }

    /// Encodes the data for a snapshot.
    pub fn snapshot<E, S: Serializer<D>>(&self, serializer: &S) -> (outcome: StoreResult<Vec<u8>, E, S::Error>)
        ensures
            match outcome {
                Ok(bytes) => serializer.encodes(self@.data, Ok(bytes@)),
                Err(StoreError::EncodeSnapshot(error)) => serializer.encodes(self@.data, Err(error)),
                Err(_) => false,
            },
    {
        match serializer.serialize(&self.data) {
            Ok(bytes) => Ok(bytes),
            Err(error) => Err(StoreError::EncodeSnapshot(error)),
        }
    }

    /// Counts the snapshot that was written. From now on, loading the data starts from it.
    pub fn snapshot_written(&mut self)
        requires
            old(self)@.next_snapshot_version < u32::MAX,
        ensures
            final(self)@ == (PersistentView {
                next_snapshot_version: (old(self)@.next_snapshot_version + 1) as u32,
                ..old(self)@
            }),
    {
        self.next_snapshot_version = self.next_snapshot_version + 1;
    }

    /// Takes up a journal that was just created.
    pub fn journal_opened(&mut self)
        ensures
            final(self)@ == (PersistentView { written_entries: 0, ..old(self)@ }),
    {
        self.journal = JournalFile::open(0);
    }

    /// Counts an entry that was appended to the journal.
    pub fn entry_appended(&mut self)
        requires
            old(self)@.written_entries < usize::MAX,
        ensures
            final(self)@ == (PersistentView { written_entries: old(self)@.written_entries + 1, ..old(self)@ }),
    {
        self.journal.append();
    }

    /// Executes a transaction on the data.
    pub fn execute<Q: Tx<D, R>, R>(&mut self, tx_query: Q) -> (result: R)
        ensures
            tx_query.turns(old(self)@.data, final(self)@.data, result),
            final(self)@ == (PersistentView { data: final(self)@.data, ..old(self)@ }),
    {
        tx_query.execute(&mut self.data)
    }

    /// The journal that is being written.
    pub fn journal(&self) -> (journal: &JournalFile)
        ensures
            journal@ == self@.written_entries,
    {
        &self.journal
    }

    /// What has to be done to the journal when the data goes away.
    pub fn on_drop(&self) -> (persist: Option<Persist>)
        ensures
            persist == self@.spec_on_drop(),
    {
        if self.flush_on_drop {
            Some(self.journal.flush_and_sync())
        } else {
            None
        }
    }
}

/// The data is being loaded from the store's directory.
#[derive(Debug)]
pub struct Load<D> {
    stage: LoadStage<D>,
}

#[derive(Debug)]
enum LoadStage<D> {
    CreateDir { flush_on_drop: bool },
    OpenDir { flush_on_drop: bool },
    NextEntry { flush_on_drop: bool, actions: Vec<PersistenceAction> },
    OpenJournal { flush_on_drop: bool, plan: Vec<PersistenceAction>, version: SnapshotVersion },
    Read { persistent: PersistentData<D>, plan: Vec<PersistenceAction>, position: usize },
}

/// [Load] as contracts see it.
#[verifier::ext_equal]
pub enum LoadView<D> {
    /// The directory is being created.
    CreateDir { flush_on_drop: bool },
    /// The directory is being opened.
    OpenDir { flush_on_drop: bool },
    /// The directory is being listed; `actions` is what was found so far.
    NextEntry { flush_on_drop: bool, actions: Seq<ActionView> },
    /// The journal of the given version is being opened.
    OpenJournal { flush_on_drop: bool, plan: Seq<ActionView>, version: SnapshotVersion },
    /// Files are being read; those in `remaining` are not yet. The data is loaded if there are
    /// none.
    Read { persistent: PersistentView<D>, remaining: Seq<ActionView> },
}

impl<D> View for Load<D> {
    type V = LoadView<D>;

    closed spec fn view(&self) -> LoadView<D> {
        match self.stage {
            LoadStage::CreateDir { flush_on_drop } => LoadView::CreateDir { flush_on_drop },
            LoadStage::OpenDir { flush_on_drop } => LoadView::OpenDir { flush_on_drop },
            LoadStage::NextEntry { flush_on_drop, actions } => LoadView::NextEntry {
                flush_on_drop,
                actions: action::views(actions@),
            },
            LoadStage::OpenJournal { flush_on_drop, plan, version } => LoadView::OpenJournal {
                flush_on_drop,
                plan: action::views(plan@),
                version,
            },
            LoadStage::Read { persistent, plan, position } => LoadView::Read {
                persistent: persistent@,
                remaining: action::views(plan@).skip(position as int),
            },
        }
    }
}

impl<D> LoadView<D> {
    /// Is the data loaded?
    pub open spec fn is_loaded(self) -> bool {
        self matches LoadView::Read { remaining, .. } && remaining.len() == 0
    }

    /// What has to be done next; `None` if the data is loaded.
    pub open spec fn request(self) -> Option<RequestView> {
        match self {
            LoadView::CreateDir { .. } => Some(RequestView::CreateDir),
            LoadView::OpenDir { .. } => Some(RequestView::OpenDir),
            LoadView::NextEntry { .. } => Some(RequestView::NextEntry),
            LoadView::OpenJournal { version, .. } => Some(
                RequestView::OpenJournal { name: names::spec_file_name(FileKind::Journal, version) },
            ),
            LoadView::Read { remaining, .. } => if remaining.len() == 0 {
                None
            } else {
                match remaining[0].kind {
                    FileKind::Snapshot => Some(RequestView::ReadSnapshot { name: remaining[0].path }),
                    FileKind::Journal => Some(RequestView::ReadJournal { name: remaining[0].path }),
                }
            },
        }
    }

    /// Can the machine go on with `reply`? It has to answer the request. And when the listing is
    /// at its end, there has to be a version behind the latest snapshot.
    pub open spec fn accepts(self, reply: ReplyView) -> bool {
        &&& self.request() matches Some(request)
        &&& request.answered_by(reply)
        &&& (self matches LoadView::NextEntry { actions, .. } && reply == ReplyView::Entry(None))
            ==> action::latest_snapshot(self->NextEntry_actions) != Some(u32::MAX)
    }
}

/// May loading go on from `before`, with this reply, to this outcome?
///
/// A failed request ends it with the error of that request, and so does a file whose name is
/// wrong or whose contents cannot be decoded. Else the directory is created and opened; its
/// entries are taken down one by one; the journal that goes with them is opened; and the files
/// of the plan are applied in order, to the default data. A journal that is only created has no
/// entries; one that is written on has those that are found when it is applied.
pub open spec fn load_step<D: Default, T: Tx<D>, S: Serializer<D> + Serializer<T>>(
    serializer: S,
    before: LoadView<D>,
    reply: ReplyView,
    outcome: Result<LoadView<D>, StoreError<<S as Serializer<T>>::Error, <S as Serializer<D>>::Error>>,
) -> bool {
    match reply {
        ReplyView::Failed(error) => before.request() matches Some(request) && outcome == Err::<LoadView<D>, _>(
            request.failure::<<S as Serializer<T>>::Error, <S as Serializer<D>>::Error>(error),
        ),
        ReplyView::Entry(entry) => before matches LoadView::NextEntry { flush_on_drop, actions } && match entry {
            Some(name) => match action::spec_read_entry(name) {
                Ok(Some(found)) => outcome matches Ok(after) && after == (LoadView::<D>::NextEntry {
                    flush_on_drop,
                    actions: actions.push(found),
                }),
                Ok(None) => outcome matches Ok(after) && after == before,
                Err(stem) => outcome matches Err(error) && error.blames_name(stem),
            },
            None => outcome matches Ok(after) && after matches LoadView::OpenJournal {
                flush_on_drop: flush,
                plan,
                version,
            } && flush == flush_on_drop && action::is_plan(actions, plan) && version == next_version(plan),
        },
        ReplyView::Contents(contents) => before matches LoadView::Read { persistent, remaining }
            && match outcome {
            Ok(after) => after matches LoadView::Read { persistent: changed, remaining: rest } && rest
                == remaining.skip(1) && applies::<D, T, S>(
                serializer,
                remaining[0],
                contents,
                persistent,
                Ok(changed),
            ),
            Err(error) => applies::<D, T, S>(serializer, remaining[0], contents, persistent, Err(error)),
        },
        ReplyView::Done => outcome matches Ok(after) && match before {
            LoadView::CreateDir { flush_on_drop } => after == (LoadView::<D>::OpenDir { flush_on_drop }),
            LoadView::OpenDir { flush_on_drop } => after == (LoadView::<D>::NextEntry {
                flush_on_drop,
                actions: Seq::empty(),
            }),
            LoadView::OpenJournal { flush_on_drop, plan, version } => after matches LoadView::Read {
                persistent,
                remaining,
            } && persistent == (PersistentView {
                data: persistent.data,
                next_snapshot_version: version,
                written_entries: 0,
                flush_on_drop,
            }) && is_default(persistent.data) && remaining == plan,
            _ => false,
        },
    }
}

/// The outcome of a step, as contracts see it.
pub open spec fn step_view<D, J, S>(outcome: StoreResult<Load<D>, J, S>) -> StoreResult<LoadView<D>, J, S> {
    match outcome {
        Ok(load) => Ok(load@),
        Err(error) => Err(error),
    }
}

impl<D> Load<D> {
    #[verifier::type_invariant]
    spec fn position_fits(self) -> bool {
        self.stage matches LoadStage::Read { plan, position, .. } ==> position <= plan@.len()
    }

    /// Is the data loaded?
    pub fn is_loaded(&self) -> (answer: bool)
        ensures
            answer == self@.is_loaded(),
    {
        proof {
            use_type_invariant(self);
        }
        match &self.stage {
            LoadStage::Read { plan, position, .. } => *position == plan.len(),
            _ => false,
        }
    }

    /// The data, once it is loaded.
    pub fn into_persistent(self) -> (persistent: PersistentData<D>)
        requires
            self@.is_loaded(),
        ensures
            self@ matches LoadView::Read { persistent: loaded, .. } && persistent@ == loaded,
    {
        match self.stage {
            LoadStage::Read { persistent, .. } => persistent,
            _ => vstd::pervasive::unreached(),
        }
    }

    /// What has to be done to the journal if loading is given up.
    pub fn on_drop(&self) -> (persist: Option<Persist>)
        ensures
            persist == match self@ {
                LoadView::Read { persistent, .. } => persistent.spec_on_drop(),
                _ => None,
            },
    {
        match &self.stage {
            LoadStage::Read { persistent, .. } => persistent.on_drop(),
            _ => None,
        }
    }

    /// What has to be done next; `None` if the data is loaded.
    pub fn request<'a>(&self) -> (request: Option<Request<'a>>)
        ensures
            crate::request::asked(request) == self@.request(),
    {
        proof {
            use_type_invariant(self);
        }
        match &self.stage {
            LoadStage::CreateDir { .. } => Some(Request::CreateDir),
            LoadStage::OpenDir { .. } => Some(Request::OpenDir),
            LoadStage::NextEntry { .. } => Some(Request::NextEntry),
            LoadStage::OpenJournal { version, .. } => Some(
                Request::OpenJournal { name: file_name(FileKind::Journal, *version) },
            ),
            LoadStage::Read { plan, position, .. } => if *position == plan.len() {
                None
            } else {
                assert(action::views(plan@).skip(*position as int)[0] == plan@[*position as int]@);
                match &plan[*position] {
                    PersistenceAction::Snapshot { path, .. } => Some(
                        Request::ReadSnapshot { name: path.clone() },
                    ),
                    PersistenceAction::Journal { path, .. } => Some(
                        Request::ReadJournal { name: path.clone() },
                    ),
                }
            },
        }
    }

    /// Can the machine go on with `reply`? It has to answer the request. And when the listing is
    /// at its end, there has to be a version behind the latest snapshot.
    pub fn accepts(&self, reply: &Reply) -> (answer: bool)
        ensures
            answer == self@.accepts(reply@),
    {
        let answers = match self.request() {
            Some(request) => request.answered_by(reply),
            None => false,
        };
        let fits = match (&self.stage, reply) {
            (LoadStage::NextEntry { actions, .. }, Reply::Entry(None)) => match PersistenceAction::latest_snapshot(
                actions,
            ) {
                Some(version) => version != u32::MAX,
                None => true,
            },
            _ => true,
        };
        answers && fits
    }

    /// Goes on with what the last request was answered.
    pub fn resume<T, S>(self, serializer: &S, reply: Reply) -> (outcome: StoreResult<
        Load<D>,
        <S as Serializer<T>>::Error,
        <S as Serializer<D>>::Error,
    >) where D: Default, T: Tx<D>, S: Serializer<D> + Serializer<T>
        requires
            self@.accepts(reply@),
        ensures
            load_step::<D, T, S>(*serializer, self@, reply@, step_view(outcome)),
    {
        proof {
            use_type_invariant(&self);
        }
        let reply = match reply {
            Reply::Failed(error) => return match self.request() {
                Some(request) => Err(request.failure(error)),
                None => vstd::pervasive::unreached(),
            },
            reply => reply,
        };
        let ghost before = self@;
        match (self.stage, reply) {
            (LoadStage::CreateDir { flush_on_drop }, Reply::Done) => Ok(
                Load { stage: LoadStage::OpenDir { flush_on_drop } },
            ),
            (LoadStage::OpenDir { flush_on_drop }, Reply::Done) => {
                let actions: Vec<PersistenceAction> = Vec::new();
                assert(action::views(actions@) =~= Seq::<ActionView>::empty());
                Ok(Load { stage: LoadStage::NextEntry { flush_on_drop, actions } })
            },
            (LoadStage::NextEntry { flush_on_drop, actions }, Reply::Entry(Some(name))) => {
                let mut actions = actions;
                match PersistenceAction::read_entry(name) {
                    Ok(Some(found)) => {
                        assert(action::views(actions@.push(found)) =~= action::views(actions@).push(found@));
                        actions.push(found);
                    },
                    Ok(None) => {},
                    Err(error) => return Err(error),
                }
                Ok(Load { stage: LoadStage::NextEntry { flush_on_drop, actions } })
            },
            (LoadStage::NextEntry { flush_on_drop, actions }, Reply::Entry(None)) => {
                let ghost found = action::views(actions@);
                let plan = PersistenceAction::rebuild(actions);
                proof {
                    lemma_next_version_fits(found, action::views(plan@));
                }
                let version: SnapshotVersion = if plan.len() == 0 {
                    0
                } else {
                    let last = plan.len() - 1;
                    assert(action::views(plan@).last() == plan@[last as int]@);
                    match &plan[last] {
                        PersistenceAction::Snapshot { version, .. } => *version + 1,
                        PersistenceAction::Journal { version, .. } => *version,
                    }
                };
                Ok(Load { stage: LoadStage::OpenJournal { flush_on_drop, plan, version } })
            },
            (LoadStage::OpenJournal { flush_on_drop, plan, version }, Reply::Done) => {
                let persistent = PersistentData {
                    data: D::default(),
                    next_snapshot_version: version,
                    journal: JournalFile::open(0),
                    flush_on_drop,
                };
                assert(action::views(plan@).skip(0) =~= action::views(plan@));
                Ok(Load { stage: LoadStage::Read { persistent, plan, position: 0 } })
            },
            (LoadStage::Read { persistent, plan, position }, Reply::Contents(contents)) => {
                let mut persistent = persistent;
                let ghost remaining = action::views(plan@).skip(position as int);
                assert(remaining[0] == plan@[position as int]@);
                match persistent.rebuild::<T, S>(serializer, &plan[position], contents.as_slice()) {
                    Ok(()) => {
                        assert(position < plan.len());
                        assert(action::views(plan@).skip(position + 1) =~= remaining.skip(1));
                        Ok(Load { stage: LoadStage::Read { persistent, plan, position: position + 1 } })
                    },
                    Err(error) => Err(error),
                }
            },
            _ => vstd::pervasive::unreached(),
        }
    }
}

} // verus!
