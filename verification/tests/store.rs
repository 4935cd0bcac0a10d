//! Stores on a directory that is held in memory.

use std::collections::{BTreeMap, HashMap};
use std::io::{Error, ErrorKind};
use std::time::Duration;

use airomem::{
    Commit, DecodeError, JournalFlushMethod, JournalFlushPolicy, JsonSerializer, Load, NonZeroUsize, Persist,
    PersistentData, Query, Reply, Request, Serializer, Store, StoreError, StoreOptions, Tx,
};
use serde::de::DeserializeOwned;
use serde::{Deserialize, Deserializer, Serialize};

/// JSON for everything that serde knows.
#[derive(Clone, Copy)]
struct Json;

impl<V: Serialize + DeserializeOwned> Serializer<V> for Json {
    type Error = serde_json::Error;

    fn serialize(&self, value: &V) -> Result<Vec<u8>, serde_json::Error> {
        JsonSerializer.serialize(value)
    }

    fn deserialize(&self, reader: &mut &[u8]) -> Result<Option<V>, serde_json::Error> {
        JsonSerializer.deserialize_next(reader)
    }
}

type Failure = StoreError<serde_json::Error, serde_json::Error>;

/// A directory, and the journal that is open in it.
#[derive(Default)]
struct Dir {
    files: BTreeMap<Vec<u8>, Vec<u8>>,
    listing: Vec<Vec<u8>>,
    journal: Vec<u8>,
    buffer: Vec<u8>,
    syncs: usize,
    /// The requests that were done.
    log: Vec<String>,
    /// Fails the request whose log line starts with this.
    fails: Option<&'static str>,
}

fn text(bytes: &[u8]) -> String {
    String::from_utf8(bytes.to_vec()).unwrap()
}

impl Dir {
    fn put(&mut self, name: &str, contents: &str) {
        self.files.insert(name.as_bytes().to_vec(), contents.as_bytes().to_vec());
    }

    fn get(&self, name: &str) -> Option<String> {
        self.files.get(name.as_bytes()).map(|contents| text(contents))
    }

    fn names(&self) -> Vec<String> {
        self.files.keys().map(|name| text(name)).collect()
    }

    fn answer(&mut self, request: Request<'_>) -> Reply {
        let line = match &request {
            Request::CreateDir => "create dir".to_string(),
            Request::OpenDir => "open dir".to_string(),
            Request::NextEntry => "next entry".to_string(),
            Request::OpenJournal { name } => format!("open {}", text(name)),
            Request::ReadSnapshot { name } => format!("read {}", text(name)),
            Request::ReadJournal { name } => format!("read {}", text(name)),
            Request::Append { .. } => "append".to_string(),
            Request::Flush => "flush".to_string(),
            Request::Sync => "sync".to_string(),
            Request::WriteSnapshot { name, .. } => format!("write {}", text(name)),
        };
        if let Some(fails) = self.fails {
            if line.starts_with(fails) {
                return Reply::Failed(Error::from(ErrorKind::PermissionDenied));
            }
        }
        self.log.push(line);
        match request {
            Request::CreateDir => Reply::Done,
            Request::OpenDir => {
                self.listing = self.files.keys().cloned().collect();
                Reply::Done
            }
            Request::NextEntry => Reply::Entry(self.listing.pop()),
            Request::OpenJournal { name } => {
                self.files.entry(name.clone()).or_default();
                self.journal = name;
                self.buffer.clear();
                Reply::Done
            }
            Request::ReadSnapshot { name } | Request::ReadJournal { name } => match self.files.get(&name) {
                Some(contents) => Reply::Contents(contents.clone()),
                None => Reply::Failed(Error::from(ErrorKind::NotFound)),
            },
            Request::Append { bytes } => {
                self.buffer.extend_from_slice(bytes);
                Reply::Done
            }
            Request::Flush => {
                let journal = self.files.get_mut(&self.journal).unwrap();
                journal.append(&mut self.buffer);
                Reply::Done
            }
            Request::Sync => {
                self.syncs += 1;
                Reply::Done
            }
            Request::WriteSnapshot { name, bytes } => {
                let file = self.files.entry(name).or_default();
                let rest = if file.len() > bytes.len() { file.split_off(bytes.len()) } else { Vec::new() };
                *file = [bytes, rest.as_slice()].concat();
                Reply::Done
            }
        }
    }

    fn persist(&mut self, persist: Persist) -> Result<(), Failure> {
        let mut persist = persist;
        while let Some(request) = persist.request() {
            let reply = self.answer(request);
            persist = persist.resume(reply)?;
        }
        assert_eq!(persist, Persist::Persisted);
        Ok(())
    }
}

/// An open store.
struct Opened<D, T> {
    store: Store<D, T, Json>,
    holder: Option<PersistentData<D>>,
}

fn load<D, T>(store: &Store<D, T, Json>, load: Load<D>, dir: &mut Dir) -> Result<PersistentData<D>, Failure>
where
    D: Default + Serialize + DeserializeOwned,
    T: Tx<D> + Serialize + DeserializeOwned,
{
    let mut load = load;
    loop {
        let reply = match load.request() {
            Some(request) => dir.answer(request),
            None => break,
        };
        assert!(load.accepts(&reply));
        let on_drop = load.on_drop();
        load = match store.resume_load(load, reply) {
            Ok(load) => load,
            Err(error) => {
                if let Some(persist) = on_drop {
                    dir.persist(persist)?;
                }
                return Err(error);
            }
        };
    }
    assert!(load.is_loaded());
    Ok(load.into_persistent())
}

fn open<D, T>(options: StoreOptions, dir: &mut Dir) -> Result<Opened<D, T>, Failure>
where
    D: Default + Serialize + DeserializeOwned,
    T: Tx<D> + Serialize + DeserializeOwned,
{
    let (store, loading) = Store::open(Json, options);
    let persistent = load(&store, loading, dir)?;
    Ok(Opened { store, holder: Some(persistent) })
}

impl<D, T> Opened<D, T>
where
    D: Default + Serialize + DeserializeOwned,
    T: Tx<D> + Serialize + DeserializeOwned,
{
    fn commit<Q, R>(&mut self, dir: &mut Dir, tx_query: Q) -> Result<R, Failure>
    where
        Q: Tx<D, R> + Into<T> + From<T>,
    {
        let commit: Commit<D, T> = self.store.commit(tx_query)?;
        assert!(commit.request().is_none());
        assert!(!commit.is_persisted());
        let mut commit = commit.begin(&self.store, &mut self.holder);
        assert!(self.holder.is_none());
        loop {
            let reply = match commit.request() {
                Some(request) => dir.answer(request),
                None => break,
            };
            assert!(commit.accepts(&reply));
            let on_drop = commit.on_drop();
            commit = match commit.resume(&self.store, reply) {
                Ok(commit) => commit,
                Err(error) => {
                    if let Some(persist) = on_drop {
                        dir.persist(persist)?;
                    }
                    return Err(error);
                }
            };
        }
        assert!(commit.is_persisted());
        Ok(commit.finish::<Q, R>(&mut self.holder))
    }

    fn query(&mut self, dir: &mut Dir) -> &D {
        let reload = match self.store.query(&self.holder) {
            Query::Data(_) => None,
            Query::Reload(loading) => Some(loading),
        };
        if let Some(loading) = reload {
            self.holder = Some(load(&self.store, loading, dir).unwrap());
        }
        match self.store.query(&self.holder) {
            Query::Data(data) => data,
            Query::Reload(_) => panic!("the data is loaded"),
        }
    }

    fn version(&self) -> u32 {
        self.holder.as_ref().unwrap().next_snapshot_version()
    }

    fn close(self, dir: &mut Dir) {
        if let Some(persistent) = self.holder {
            if let Some(persist) = persistent.on_drop() {
                dir.persist(persist).unwrap();
            }
        }
        dir.buffer.clear();
    }
}

#[derive(Default, Debug)]
struct Counter {
    value: usize,
}

impl Serialize for Counter {
    fn serialize<S: serde::Serializer>(&self, serializer: S) -> Result<S::Ok, S::Error> {
        self.value.serialize(serializer)
    }
}

impl<'de> Deserialize<'de> for Counter {
    fn deserialize<E: Deserializer<'de>>(deserializer: E) -> Result<Self, E::Error> {
        Ok(Counter { value: Deserialize::deserialize(deserializer)? })
    }
}

struct Increase;

struct IncreaseBy {
    by: usize,
}

struct DecreaseBy {
    by: usize,
}

enum CounterTx {
    Increase(Increase),
    IncreaseBy(IncreaseBy),
    DecreaseBy(DecreaseBy),
}

impl Tx<Counter> for Increase {
    fn execute(self, data: &mut Counter) {
        data.value += 1;
    }
}

impl Tx<Counter> for IncreaseBy {
    fn execute(self, data: &mut Counter) {
        data.value += data.value;
    }
}

impl Tx<Counter> for DecreaseBy {
    fn execute(self, data: &mut Counter) {
        data.value -= data.value;
    }
}

impl Tx<Counter> for CounterTx {
    fn execute(self, data: &mut Counter) {
        match self {
            CounterTx::Increase(child) => child.execute(data),
            CounterTx::IncreaseBy(child) => child.execute(data),
            CounterTx::DecreaseBy(child) => child.execute(data),
        }
    }
}

impl From<Increase> for CounterTx {
    fn from(child: Increase) -> Self {
        CounterTx::Increase(child)
    }
}

impl From<CounterTx> for Increase {
    fn from(tx: CounterTx) -> Self {
        match tx {
            CounterTx::Increase(child) => child,
            _ => unreachable!(),
        }
    }
}

impl From<IncreaseBy> for CounterTx {
    fn from(child: IncreaseBy) -> Self {
        CounterTx::IncreaseBy(child)
    }
}

impl From<CounterTx> for IncreaseBy {
    fn from(tx: CounterTx) -> Self {
        match tx {
            CounterTx::IncreaseBy(child) => child,
            _ => unreachable!(),
        }
    }
}

impl From<DecreaseBy> for CounterTx {
    fn from(child: DecreaseBy) -> Self {
        CounterTx::DecreaseBy(child)
    }
}

impl From<CounterTx> for DecreaseBy {
    fn from(tx: CounterTx) -> Self {
        match tx {
            CounterTx::DecreaseBy(child) => child,
            _ => unreachable!(),
        }
    }
}

/// The name of the transaction and its number.
impl Serialize for CounterTx {
    fn serialize<S: serde::Serializer>(&self, serializer: S) -> Result<S::Ok, S::Error> {
        match self {
            CounterTx::Increase(_) => ("increase", 0).serialize(serializer),
            CounterTx::IncreaseBy(child) => ("increase_by", child.by).serialize(serializer),
            CounterTx::DecreaseBy(child) => ("decrease_by", child.by).serialize(serializer),
        }
    }
}

impl<'de> Deserialize<'de> for CounterTx {
    fn deserialize<E: Deserializer<'de>>(deserializer: E) -> Result<Self, E::Error> {
        let (name, by): (String, usize) = Deserialize::deserialize(deserializer)?;
        Ok(match name.as_str() {
            "increase" => CounterTx::Increase(Increase),
            "increase_by" => CounterTx::IncreaseBy(IncreaseBy { by }),
            "decrease_by" => CounterTx::DecreaseBy(DecreaseBy { by }),
            _ => return Err(serde::de::Error::custom("no such transaction")),
        })
    }
}

type UserId = usize;

#[derive(Default, Debug)]
struct Sessions {
    tokens: HashMap<String, UserId>,
    operations: usize,
}

impl Serialize for Sessions {
    fn serialize<S: serde::Serializer>(&self, serializer: S) -> Result<S::Ok, S::Error> {
        (&self.tokens, self.operations).serialize(serializer)
    }
}

impl<'de> Deserialize<'de> for Sessions {
    fn deserialize<E: Deserializer<'de>>(deserializer: E) -> Result<Self, E::Error> {
        let (tokens, operations) = Deserialize::deserialize(deserializer)?;
        Ok(Sessions { tokens, operations })
    }
}

struct CreateSession {
    token: String,
    user_id: UserId,
    /// Is not written to the journal.
    ignored: usize,
}

struct DeleteSession {
    token: String,
}

enum SessionsTx {
    CreateSession(CreateSession),
    DeleteSession(DeleteSession),
}

impl Tx<Sessions, ()> for CreateSession {
    fn execute(self, data: &mut Sessions) {
        data.operations += 1;
        data.tokens.insert(self.token, self.user_id);
    }
}

impl Tx<Sessions, Option<UserId>> for DeleteSession {
    fn execute(self, data: &mut Sessions) -> Option<UserId> {
        data.operations += 1;
        data.tokens.remove(&self.token)
    }
}

impl Tx<Sessions> for SessionsTx {
    fn execute(self, data: &mut Sessions) {
        match self {
            SessionsTx::CreateSession(child) => child.execute(data),
            SessionsTx::DeleteSession(child) => {
                child.execute(data);
            }
        }
    }
}

impl From<CreateSession> for SessionsTx {
    fn from(child: CreateSession) -> Self {
        SessionsTx::CreateSession(child)
    }
}

impl From<SessionsTx> for CreateSession {
    fn from(tx: SessionsTx) -> Self {
        match tx {
            SessionsTx::CreateSession(child) => child,
            _ => unreachable!(),
        }
    }
}

impl From<DeleteSession> for SessionsTx {
    fn from(child: DeleteSession) -> Self {
        SessionsTx::DeleteSession(child)
    }
}

impl From<SessionsTx> for DeleteSession {
    fn from(tx: SessionsTx) -> Self {
        match tx {
            SessionsTx::DeleteSession(child) => child,
            _ => unreachable!(),
        }
    }
}

/// The token, and the user of a session that is created.
impl Serialize for SessionsTx {
    fn serialize<S: serde::Serializer>(&self, serializer: S) -> Result<S::Ok, S::Error> {
        match self {
            SessionsTx::CreateSession(child) => (&child.token, Some(child.user_id)).serialize(serializer),
            SessionsTx::DeleteSession(child) => (&child.token, None::<UserId>).serialize(serializer),
        }
    }
}

impl<'de> Deserialize<'de> for SessionsTx {
    fn deserialize<E: Deserializer<'de>>(deserializer: E) -> Result<Self, E::Error> {
        let (token, user_id): (String, Option<UserId>) = Deserialize::deserialize(deserializer)?;
        Ok(match user_id {
            Some(user_id) => SessionsTx::CreateSession(CreateSession { token, user_id, ignored: 0 }),
            None => SessionsTx::DeleteSession(DeleteSession { token }),
        })
    }
}

type CounterStore = Opened<Counter, CounterTx>;
type SessionsStore = Opened<Sessions, SessionsTx>;

fn with_entries(entries: usize) -> StoreOptions {
    StoreOptions::default().max_journal_entries(NonZeroUsize::new(entries).unwrap())
}

#[test]
fn test_journal_chunking() {
    let mut dir = Dir::default();
    let options = StoreOptions::default().max_journal_entries(NonZeroUsize::new(2).unwrap());
    let mut store: CounterStore = open(options, &mut dir).unwrap();
    let first_ver = store.version();
    store.commit(&mut dir, IncreaseBy { by: 2115 }).unwrap();
    store.commit(&mut dir, Increase).unwrap();
    assert_eq!(store.version(), first_ver);
    store.commit(&mut dir, Increase).unwrap();
    assert_eq!(store.version(), first_ver + 1);
}

#[test]
fn test_retake_unfulfilled_journal_on_recovery() {
    let mut dir = Dir::default();
    let options = StoreOptions::default().max_journal_entries(NonZeroUsize::new(10).unwrap());
    let first_ver = {
        let mut store: CounterStore = open(options.clone(), &mut dir).unwrap();
        store.commit(&mut dir, Increase).unwrap();
        let version = store.version();
        store.close(&mut dir);
        version
    };

    let mut store: CounterStore = open(options, &mut dir).unwrap();
    store.commit(&mut dir, Increase).unwrap();
    assert_eq!(store.version(), first_ver);
}

#[test]
fn test_mem_commit() {
    let mut dir = Dir::default();
    let mut store: SessionsStore = open(StoreOptions::default(), &mut dir).unwrap();
    let example_token = "access_token".to_string();
    let example_uid = 1;
    store
        .commit(&mut dir, CreateSession { token: example_token.clone(), user_id: example_uid, ignored: 0 })
        .unwrap();

    let mut expected_tokens = HashMap::new();
    expected_tokens.insert(example_token.clone(), example_uid);
    assert_eq!(store.query(&mut dir).tokens, expected_tokens);

    let deleted_uid = store.commit(&mut dir, DeleteSession { token: example_token }).unwrap();
    assert_eq!(deleted_uid, Some(example_uid));
}

#[test]
fn test_manual_flush() {
    let mut dir = Dir::default();
    let do_store_commit = |options: StoreOptions, dir: &mut Dir| {
        let mut store: SessionsStore = open(options, dir).unwrap();
        store
            .commit(dir, CreateSession { token: "access_token".to_string(), user_id: 1, ignored: 0 })
            .unwrap();
        store.close(dir);
    };

    {
        do_store_commit(
            StoreOptions::default()
                .journal_flush_policy(JournalFlushPolicy::Manually)
                .flush_synchronously_on_drop(false),
            &mut dir,
        );
        let mut store: SessionsStore = open(StoreOptions::default(), &mut dir).unwrap();
        assert_eq!(
            store.query(&mut dir).tokens.len(),
            0,
            "flushed journal log on drop, but it shouldn't"
        );
        store.close(&mut dir);
    }

    {
        do_store_commit(
            StoreOptions::default()
                .journal_flush_policy(JournalFlushPolicy::Manually)
                .flush_synchronously_on_drop(true),
            &mut dir,
        );
        let mut store: SessionsStore = open(StoreOptions::default(), &mut dir).unwrap();
        assert_eq!(store.query(&mut dir).tokens.len(), 1, "should flush journal log on drop");
    }
}

#[test]
fn test_journal_rebuild() {
    let mut dir = Dir::default();
    let options = StoreOptions::default().max_journal_entries(NonZeroUsize::new(10).unwrap());
    for i in 0..2 {
        let mut store: SessionsStore = open(options.clone(), &mut dir).unwrap();
        store
            .commit(&mut dir, CreateSession { token: format!("token{i}"), user_id: i, ignored: 0 })
            .unwrap();
        store.close(&mut dir);
    }
    let mut store: SessionsStore = open(options, &mut dir).unwrap();
    let expected_tokens = {
        let mut it = HashMap::new();
        it.insert("token0".to_string(), 0);
        it.insert("token1".to_string(), 1);
        it
    };
    assert_eq!(store.query(&mut dir).tokens, expected_tokens);
}

#[test]
fn test_rebuild_with_snapshot() {
    let options = StoreOptions::default().max_journal_entries(NonZeroUsize::new(2).unwrap());
    for commits in 0..=5 {
        let mut dir = Dir::default();
        {
            let mut store: SessionsStore = open(options.clone(), &mut dir).unwrap();
            for i in 0..commits {
                store
                    .commit(&mut dir, CreateSession { token: format!("token{i}"), user_id: i, ignored: 0 })
                    .unwrap();
            }
            store.close(&mut dir);
        }
        let mut store: SessionsStore = open(options.clone(), &mut dir).unwrap();
        let expected_tokens = {
            let mut it = HashMap::new();
            for i in 0..commits {
                it.insert(format!("token{i}"), i);
            }
            it
        };
        let state = store.query(&mut dir);
        assert_eq!(state.tokens, expected_tokens);
        assert_eq!(state.operations, commits);
    }
}

#[test]
fn a_new_store_has_the_default_data() {
    let mut dir = Dir::default();
    let mut store: CounterStore = open(StoreOptions::default(), &mut dir).unwrap();
    assert_eq!(store.query(&mut dir).value, 0);
    assert_eq!(store.version(), 0);
    assert_eq!(dir.names(), vec!["0000000000.journal"]);
    assert_eq!(dir.log, vec!["create dir", "open dir", "next entry", "open 0000000000.journal"]);
}

#[test]
fn a_commit_is_one_line_of_the_journal() {
    let mut dir = Dir::default();
    let mut store: CounterStore = open(StoreOptions::default(), &mut dir).unwrap();
    store.commit(&mut dir, Increase).unwrap();
    store.commit(&mut dir, DecreaseBy { by: 3 }).unwrap();
    assert_eq!(dir.get("0000000000.journal").unwrap(), "[\"increase\",0]\n[\"decrease_by\",3]\n");
    assert_eq!(store.query(&mut dir).value, 0);
}

#[test]
fn a_full_journal_is_sealed_by_a_snapshot() {
    let mut dir = Dir::default();
    let mut store: CounterStore = open(with_entries(2), &mut dir).unwrap();
    store.commit(&mut dir, Increase).unwrap();
    store.commit(&mut dir, Increase).unwrap();
    assert_eq!(dir.names(), vec!["0000000000.journal"]);
    dir.log.clear();
    store.commit(&mut dir, IncreaseBy { by: 0 }).unwrap();
    assert_eq!(
        dir.log,
        vec![
            "flush",
            "sync",
            "write 0000000000.snapshot",
            "open 0000000001.journal",
            "append",
            "flush",
            "sync"
        ]
    );
    assert_eq!(dir.get("0000000000.snapshot").unwrap(), "2\n");
    assert_eq!(dir.get("0000000001.journal").unwrap(), "[\"increase_by\",0]\n");
    assert_eq!(store.query(&mut dir).value, 4);
    assert_eq!(store.holder.as_ref().unwrap().written_entries(), 1);
}

#[test]
fn a_reopened_journal_counts_what_it_holds() {
    let mut dir = Dir::default();
    let mut store: CounterStore = open(with_entries(2), &mut dir).unwrap();
    store.commit(&mut dir, Increase).unwrap();
    store.commit(&mut dir, Increase).unwrap();
    store.close(&mut dir);
    let mut store: CounterStore = open(with_entries(2), &mut dir).unwrap();
    assert_eq!(store.holder.as_ref().unwrap().written_entries(), 2);
    assert_eq!(store.version(), 0);
    store.commit(&mut dir, Increase).unwrap();
    assert_eq!(store.version(), 1);
    assert_eq!(dir.get("0000000000.snapshot").unwrap(), "2\n");
    assert_eq!(dir.get("0000000000.journal").unwrap(), "[\"increase\",0]\n[\"increase\",0]\n");
    assert_eq!(dir.get("0000000001.journal").unwrap(), "[\"increase\",0]\n");
    assert_eq!(store.query(&mut dir).value, 3);
}

#[test]
fn no_journal_holds_more_than_allowed() {
    for entries in 1..4 {
        let mut dir = Dir::default();
        for stores in 1..6 {
            let mut store: CounterStore = open(with_entries(entries), &mut dir).unwrap();
            for _ in 0..stores {
                store.commit(&mut dir, Increase).unwrap();
            }
            store.close(&mut dir);
            for (name, contents) in &dir.files {
                if name.ends_with(b".journal") {
                    assert!(contents.iter().filter(|byte| **byte == b'\n').count() <= entries);
                }
            }
        }
        let mut store: CounterStore = open(with_entries(entries), &mut dir).unwrap();
        assert_eq!(store.query(&mut dir).value, 15);
        assert_eq!(store.version() as usize, 14 / entries);
    }
}

#[test]
fn a_lower_limit_seals_a_journal_that_holds_more() {
    let mut dir = Dir::default();
    let mut store: CounterStore = open(with_entries(10), &mut dir).unwrap();
    for _ in 0..5 {
        store.commit(&mut dir, Increase).unwrap();
    }
    store.close(&mut dir);
    let mut store: CounterStore = open(with_entries(2), &mut dir).unwrap();
    assert_eq!(store.holder.as_ref().unwrap().written_entries(), 5);
    store.commit(&mut dir, Increase).unwrap();
    assert_eq!(store.version(), 1);
    assert_eq!(dir.get("0000000000.snapshot").unwrap(), "5\n");
}

#[test]
fn only_the_journal_that_is_written_on_is_counted() {
    let mut dir = Dir::default();
    dir.put("0000000000.journal", "[\"increase\",0]\n[\"increase\",0]\n[\"increase\",0]\n");
    dir.put("0000000001.journal", "[\"increase\",0]\n");
    let store: CounterStore = open(with_entries(2), &mut dir).unwrap();
    assert_eq!(store.version(), 1);
    assert_eq!(store.holder.as_ref().unwrap().written_entries(), 1);

    // The journal of this version is opened under another name, and is new.
    let mut dir = Dir::default();
    dir.put("1.journal", "[\"increase\",0]\n[\"increase\",0]\n");
    let mut store: CounterStore = open(with_entries(2), &mut dir).unwrap();
    assert_eq!(store.version(), 1);
    assert_eq!(store.holder.as_ref().unwrap().written_entries(), 0);
    assert_eq!(store.query(&mut dir).value, 2);
    store.commit(&mut dir, Increase).unwrap();
    assert_eq!(dir.get("0000000001.journal").unwrap(), "[\"increase\",0]\n");
}

#[test]
fn many_stores_on_one_directory() {
    let mut dir = Dir::default();
    let mut expected = 0;
    for round in 0..6 {
        let mut store: CounterStore = open(with_entries(1 + round % 3), &mut dir).unwrap();
        assert_eq!(store.query(&mut dir).value, expected);
        store.commit(&mut dir, Increase).unwrap();
        store.commit(&mut dir, IncreaseBy { by: 0 }).unwrap();
        store.commit(&mut dir, Increase).unwrap();
        expected = (expected + 1) * 2 + 1;
        assert_eq!(store.query(&mut dir).value, expected);
        store.close(&mut dir);
    }
    let mut store: CounterStore = open(StoreOptions::default(), &mut dir).unwrap();
    assert_eq!(store.query(&mut dir).value, expected);
    assert_eq!(expected, 189);
}

#[test]
fn flush_and_sync_saves_the_entries_of_all_commits() {
    let mut dir = Dir::default();
    let options = with_entries(2).journal_flush_policy(JournalFlushPolicy::Manually).flush_synchronously_on_drop(false);
    let mut store: CounterStore = open(options, &mut dir).unwrap();
    for _ in 0..5 {
        store.commit(&mut dir, Increase).unwrap();
    }
    let flush = store.store.flush_and_sync::<(), ()>(&store.holder).unwrap();
    let syncs = dir.syncs;
    dir.persist(flush).unwrap();
    assert_eq!(dir.syncs, syncs + 1);
    let line = "[\"increase\",0]\n";
    assert_eq!(dir.get("0000000000.journal").unwrap(), line.repeat(2));
    assert_eq!(dir.get("0000000001.journal").unwrap(), line.repeat(2));
    assert_eq!(dir.get("0000000002.journal").unwrap(), line);
    assert_eq!(store.query(&mut dir).value, 5);
    assert_eq!(store.version(), 2);
    assert_eq!(store.holder.as_ref().unwrap().written_entries(), 1);
}

#[test]
fn a_snapshot_can_be_removed_before_the_next_journal_is_opened() {
    let mut dir = Dir::default();
    let mut store: CounterStore = open(with_entries(2), &mut dir).unwrap();
    store.commit(&mut dir, Increase).unwrap();
    store.commit(&mut dir, Increase).unwrap();
    let commit = store.store.commit(Increase).unwrap();
    let mut commit = commit.begin(&store.store, &mut store.holder);
    while !matches!(commit.request(), Some(Request::OpenJournal { .. })) {
        let reply = dir.answer(commit.request().unwrap());
        commit = commit.resume(&store.store, reply).unwrap();
    }
    assert_eq!(dir.names(), vec!["0000000000.journal", "0000000000.snapshot"]);
    dir.files.remove("0000000000.snapshot".as_bytes());
    let mut store: CounterStore = open(with_entries(2), &mut dir).unwrap();
    assert_eq!(store.query(&mut dir).value, 2);
    assert_eq!(store.version(), 0);
}

#[test]
fn loading_starts_from_the_latest_snapshot() {
    let mut dir = Dir::default();
    dir.put("0000000000.journal", "not read");
    dir.put("0000000000.snapshot", "not read");
    dir.put("0000000001.journal", "not read");
    dir.put("0000000001.snapshot", "40\n");
    dir.put("0000000002.journal", "[\"increase\",0]\n");
    dir.put("3.journal", "[\"increase\",0]\n");
    dir.put("7.txt", "not read");
    let mut store: CounterStore = open(StoreOptions::default(), &mut dir).unwrap();
    assert_eq!(store.query(&mut dir).value, 42);
    assert_eq!(store.version(), 3);
    let reads: Vec<String> = dir.log.iter().filter(|line| line.starts_with("read")).cloned().collect();
    assert_eq!(reads, vec!["read 0000000001.snapshot", "read 0000000002.journal", "read 3.journal"]);
    assert!(dir.get("0000000003.journal").is_some());
}

#[test]
fn behind_a_snapshot_comes_the_next_journal() {
    let mut dir = Dir::default();
    dir.put("0000000004.snapshot", "5");
    let mut store: CounterStore = open(StoreOptions::default(), &mut dir).unwrap();
    assert_eq!(store.query(&mut dir).value, 5);
    assert_eq!(store.version(), 5);
    assert!(dir.get("0000000005.journal").is_some());
}

#[test]
fn the_listing_order_does_not_matter() {
    for rotation in 0..4 {
        let mut dir = Dir::default();
        dir.put("0000000000.snapshot", "1\n");
        dir.put("0000000001.journal", "[\"increase\",0]\n");
        dir.put("0000000002.journal", "[\"increase_by\",0]\n");
        dir.put("0000000000.journal", "[\"increase\",0]\n");
        let (_, loading): (Store<Counter, CounterTx, Json>, Load<Counter>) =
            Store::open(Json, StoreOptions::default());
        let mut loading = loading;
        let mut names: Vec<Vec<u8>> = dir.files.keys().cloned().collect();
        names.rotate_left(rotation);
        while let Some(request) = loading.request() {
            let reply = match request {
                Request::NextEntry => Reply::Entry(names.pop()),
                request => dir.answer(request),
            };
            assert!(loading.accepts(&reply));
            loading = loading.resume::<CounterTx, Json>(&Json, reply).unwrap();
        }
        assert_eq!(loading.into_persistent().data().value, 4);
    }
}

#[test]
fn a_removed_snapshot_is_rebuilt_from_the_journals() {
    let mut dir = Dir::default();
    let mut store: CounterStore = open(with_entries(2), &mut dir).unwrap();
    for _ in 0..5 {
        store.commit(&mut dir, Increase).unwrap();
    }
    store.close(&mut dir);
    assert_eq!(
        dir.names(),
        vec![
            "0000000000.journal",
            "0000000000.snapshot",
            "0000000001.journal",
            "0000000001.snapshot",
            "0000000002.journal"
        ]
    );
    dir.put("0000000001.snapshot", "");
    let refused: Result<CounterStore, Failure> = open(with_entries(2), &mut dir);
    assert!(matches!(refused, Err(StoreError::DecodeSnapshot(DecodeError::Corrupted))));
    dir.files.remove("0000000001.snapshot".as_bytes());
    let mut store: CounterStore = open(with_entries(2), &mut dir).unwrap();
    assert_eq!(store.query(&mut dir).value, 5);
    assert_eq!(store.version(), 2);
    store.close(&mut dir);
    dir.files.remove("0000000000.snapshot".as_bytes());
    let mut store: CounterStore = open(with_entries(2), &mut dir).unwrap();
    assert_eq!(store.query(&mut dir).value, 5);
}

#[test]
fn every_stage_leaves_the_data_before_or_after() {
    // A commit that fills the second journal is cut off behind each of its requests.
    for requests in 0..=7 {
        let mut dir = Dir::default();
        let mut store: CounterStore = open(with_entries(2), &mut dir).unwrap();
        store.commit(&mut dir, Increase).unwrap();
        store.commit(&mut dir, Increase).unwrap();
        let commit = store.store.commit(Increase).unwrap();
        let mut commit = commit.begin(&store.store, &mut store.holder);
        for _ in 0..requests {
            let reply = dir.answer(commit.request().unwrap());
            assert!(commit.accepts(&reply));
            commit = commit.resume(&store.store, reply).unwrap();
        }
        assert_eq!(commit.is_persisted(), requests == 7);
        dir.buffer.clear();
        let mut reopened: CounterStore = open(with_entries(2), &mut dir).unwrap();
        let expected = if requests < 6 { 2 } else { 3 };
        assert_eq!(reopened.query(&mut dir).value, expected, "cut off after {requests} requests");
    }
}

#[test]
fn a_failed_commit_leaves_the_store_to_be_reloaded() {
    let mut dir = Dir::default();
    let mut store: CounterStore = open(StoreOptions::default(), &mut dir).unwrap();
    store.commit(&mut dir, Increase).unwrap();
    dir.fails = Some("append");
    let failed = store.commit(&mut dir, Increase);
    assert!(matches!(failed, Err(StoreError::JournalIO(error)) if error.kind() == ErrorKind::PermissionDenied));
    assert!(store.holder.is_none());
    let refused: Result<Persist, Failure> = store.store.flush(&store.holder);
    assert!(matches!(refused, Err(StoreError::StatePoisoned)));
    let refused: Result<Persist, Failure> = store.store.flush_and_sync(&store.holder);
    assert!(matches!(refused, Err(StoreError::StatePoisoned)));
    assert!(Store::<Counter, CounterTx, Json>::background_flush(&store.holder, JournalFlushMethod::Flush).is_none());
    dir.fails = None;
    dir.log.clear();
    store.commit(&mut dir, Increase).unwrap();
    assert_eq!(dir.log[..4], ["create dir", "open dir", "next entry", "next entry"]);
    assert_eq!(store.query(&mut dir).value, 2);
    assert_eq!(dir.get("0000000000.journal").unwrap(), "[\"increase\",0]\n[\"increase\",0]\n");
}

#[test]
fn a_query_reloads_lost_data() {
    let mut dir = Dir::default();
    let mut store: CounterStore = open(StoreOptions::default(), &mut dir).unwrap();
    store.commit(&mut dir, Increase).unwrap();
    dir.fails = Some("flush");
    assert!(matches!(store.commit(&mut dir, Increase), Err(StoreError::JournalIO(_))));
    dir.fails = None;
    assert!(matches!(store.store.query(&store.holder), Query::Reload(_)));
    assert_eq!(store.query(&mut dir).value, 1);
    assert!(matches!(store.store.query(&store.holder), Query::Data(Counter { value: 1 })));
}

#[test]
fn a_failed_commit_flushes_if_the_store_does_so_on_drop() {
    let mut dir = Dir::default();
    let manually = with_entries(1).journal_flush_policy(JournalFlushPolicy::Manually);
    let mut store: CounterStore = open(manually, &mut dir).unwrap();
    store.commit(&mut dir, Increase).unwrap();
    assert_eq!(dir.get("0000000000.journal").unwrap(), "");
    dir.fails = Some("write");
    assert!(matches!(store.commit(&mut dir, Increase), Err(StoreError::SnapshotIO(_))));
    assert_eq!(dir.get("0000000000.journal").unwrap(), "[\"increase\",0]\n");
}

#[test]
fn every_request_fails_with_its_error() {
    let failures = |fails: &'static str| {
        let mut dir = Dir::default();
        dir.put("0000000000.snapshot", "1\n");
        dir.put("0000000001.journal", "");
        dir.fails = Some(fails);
        let opened: Result<CounterStore, Failure> = open(with_entries(1), &mut dir);
        opened.err()
    };
    assert!(matches!(failures("create dir"), Some(StoreError::FileIO(_))));
    assert!(matches!(failures("open dir"), Some(StoreError::JournalIO(_))));
    assert!(matches!(failures("next entry"), Some(StoreError::JournalIO(_))));
    assert!(matches!(failures("open 0000000001.journal"), Some(StoreError::JournalIO(_))));
    assert!(matches!(failures("read 0000000000.snapshot"), Some(StoreError::SnapshotIO(_))));
    assert!(matches!(failures("read 0000000001.journal"), Some(StoreError::JournalIO(_))));
    assert!(failures("nothing").is_none());

    let failures = |fails: &'static str| {
        let mut dir = Dir::default();
        let mut store: CounterStore = open(with_entries(1), &mut dir).unwrap();
        store.commit(&mut dir, Increase).unwrap();
        dir.fails = Some(fails);
        store.commit(&mut dir, Increase).err()
    };
    assert!(matches!(failures("flush"), Some(StoreError::JournalIO(_))));
    assert!(matches!(failures("sync"), Some(StoreError::JournalIO(_))));
    assert!(matches!(failures("write 0000000000.snapshot"), Some(StoreError::SnapshotIO(_))));
    assert!(matches!(failures("open 0000000001.journal"), Some(StoreError::JournalIO(_))));
    assert!(matches!(failures("append"), Some(StoreError::JournalIO(_))));
    assert!(failures("nothing").is_none());
}

#[test]
fn a_foreign_file_name_is_refused() {
    let refuses = |name: &str| {
        let mut dir = Dir::default();
        dir.put(name, "");
        let opened: Result<CounterStore, Failure> = open(StoreOptions::default(), &mut dir);
        match opened {
            Err(StoreError::JournalInvalidFileName(stem)) => stem.map(|stem| text(&stem)),
            _ => panic!("{name} was not refused"),
        }
    };
    assert_eq!(refuses("README.md"), Some("README".to_string()));
    assert_eq!(refuses("4294967296.journal"), Some("4294967296".to_string()));
    assert_eq!(refuses(".snapshot"), Some(".snapshot".to_string()));
}

#[test]
fn damaged_files_are_refused() {
    let refuses = |name: &str, contents: &str| {
        let mut dir = Dir::default();
        dir.put(name, contents);
        let opened: Result<CounterStore, Failure> = open(StoreOptions::default(), &mut dir);
        opened.err()
    };
    assert!(matches!(refuses("0000000000.journal", "[\"increase\",0]\n[\"incr"), Some(StoreError::DecodeJournalEntry(_))));
    assert!(matches!(refuses("0000000000.journal", "[\"double\",0]\n"), Some(StoreError::DecodeJournalEntry(_))));
    assert!(matches!(
        refuses("0000000000.snapshot", "x"),
        Some(StoreError::DecodeSnapshot(DecodeError::Serializer(_)))
    ));
    assert!(matches!(refuses("0000000000.snapshot", "\n"), Some(StoreError::DecodeSnapshot(DecodeError::Corrupted))));
    assert!(matches!(
        refuses("0000000000.snapshot", "null\n"),
        Some(StoreError::DecodeSnapshot(DecodeError::Corrupted))
    ));
}

/// Data whose snapshot, and whose transactions, cannot be encoded.
#[derive(Default)]
struct Stubborn;

impl Serialize for Stubborn {
    fn serialize<S: serde::Serializer>(&self, _: S) -> Result<S::Ok, S::Error> {
        Err(serde::ser::Error::custom("no"))
    }
}

impl<'de> Deserialize<'de> for Stubborn {
    fn deserialize<E: Deserializer<'de>>(_: E) -> Result<Self, E::Error> {
        Err(serde::de::Error::custom("no"))
    }
}

impl Tx<Counter> for Stubborn {
    fn execute(self, _: &mut Counter) {}
}

impl Tx<Stubborn> for u8 {
    fn execute(self, _: &mut Stubborn) {}
}

#[test]
fn what_cannot_be_encoded_is_refused() {
    let mut dir = Dir::default();
    let mut store: Opened<Counter, Stubborn> = open(StoreOptions::default(), &mut dir).unwrap();
    assert!(matches!(store.commit(&mut dir, Stubborn), Err(StoreError::EncodeJournalEntry(_))));
    assert!(store.holder.is_some(), "the data is not touched");
    assert_eq!(dir.get("0000000000.journal").unwrap(), "");

    let mut dir = Dir::default();
    let mut store: Opened<Stubborn, u8> = open(with_entries(1), &mut dir).unwrap();
    store.commit(&mut dir, 7u8).unwrap();
    assert!(matches!(store.commit(&mut dir, 8u8), Err(StoreError::EncodeSnapshot(_))));
    assert_eq!(dir.get("0000000000.journal").unwrap(), "7\n");
    assert_eq!(dir.names(), vec!["0000000000.journal"]);
}

#[test]
fn flushing_by_hand() {
    let mut dir = Dir::default();
    let options = StoreOptions::default()
        .journal_flush_policy(JournalFlushPolicy::Manually)
        .flush_synchronously_on_drop(false);
    let mut store: CounterStore = open(options, &mut dir).unwrap();
    store.commit(&mut dir, Increase).unwrap();
    assert_eq!(dir.get("0000000000.journal").unwrap(), "");
    let flush: Persist = store.store.flush::<(), ()>(&store.holder).unwrap();
    dir.persist(flush).unwrap();
    assert_eq!(dir.get("0000000000.journal").unwrap(), "[\"increase\",0]\n");
    assert_eq!(dir.syncs, 0);
    store.commit(&mut dir, Increase).unwrap();
    let flush: Persist = store.store.flush_and_sync::<(), ()>(&store.holder).unwrap();
    dir.persist(flush).unwrap();
    assert_eq!(dir.get("0000000000.journal").unwrap(), "[\"increase\",0]\n[\"increase\",0]\n");
    assert_eq!(dir.syncs, 1);
    assert!(store.store.flusher().is_none());
}

#[test]
fn flushing_in_the_background() {
    let mut dir = Dir::default();
    let every = JournalFlushPolicy::Every {
        duration: Duration::from_millis(5),
        journal_flush_method: JournalFlushMethod::Flush,
    };
    let mut store: CounterStore = open(StoreOptions::default().journal_flush_policy(every), &mut dir).unwrap();
    store.commit(&mut dir, Increase).unwrap();
    assert_eq!(dir.get("0000000000.journal").unwrap(), "");
    let (interval, method) = store.store.flusher().unwrap();
    assert_eq!(interval, Duration::from_millis(5));
    let flush = Store::<Counter, CounterTx, Json>::background_flush(&store.holder, method).unwrap();
    dir.persist(flush).unwrap();
    assert_eq!(dir.get("0000000000.journal").unwrap(), "[\"increase\",0]\n");
    assert_eq!(dir.syncs, 0);
    store.close(&mut dir);
    assert_eq!(dir.syncs, 1);
}

#[test]
fn every_commit_flushes_by_its_method() {
    for (method, syncs) in [(JournalFlushMethod::Flush, 0), (JournalFlushMethod::FlushAndSync, 1)] {
        let mut dir = Dir::default();
        let policy = JournalFlushPolicy::EveryCommit { journal_flush_method: method };
        let mut store: CounterStore = open(StoreOptions::default().journal_flush_policy(policy), &mut dir).unwrap();
        store.commit(&mut dir, Increase).unwrap();
        assert_eq!(dir.get("0000000000.journal").unwrap(), "[\"increase\",0]\n");
        assert_eq!(dir.syncs, syncs);
        store.close(&mut dir);
        assert_eq!(dir.syncs, syncs);
    }
}

#[test]
fn a_machine_accepts_only_what_answers_its_request() {
    let mut dir = Dir::default();
    let (_, loading): (Store<Counter, CounterTx, Json>, Load<Counter>) = Store::open(Json, StoreOptions::default());
    assert!(!loading.is_loaded());
    assert!(loading.accepts(&Reply::Done));
    assert!(loading.accepts(&Reply::Failed(Error::from(ErrorKind::Other))));
    assert!(!loading.accepts(&Reply::Entry(None)));
    assert!(!loading.accepts(&Reply::Contents(Vec::new())));

    dir.put("4294967295.snapshot", "1");
    let opened: Result<Opened<Counter, CounterTx>, Failure> = {
        dir.fails = Some("next entry");
        open(StoreOptions::default(), &mut dir)
    };
    assert!(opened.is_err());
    let (_, loading): (Store<Counter, CounterTx, Json>, Load<Counter>) = Store::open(Json, StoreOptions::default());
    let loading = loading.resume::<CounterTx, Json>(&Json, Reply::Done).unwrap();
    let loading = loading.resume::<CounterTx, Json>(&Json, Reply::Done).unwrap();
    let last = Reply::Entry(Some(b"4294967295.snapshot".to_vec()));
    let loading = loading.resume::<CounterTx, Json>(&Json, last).unwrap();
    assert!(!loading.accepts(&Reply::Entry(None)), "there is no version behind the highest");

    let mut dir = Dir::default();
    dir.put("4294967295.journal", "");
    let mut store: CounterStore = open(with_entries(1), &mut dir).unwrap();
    assert_eq!(store.version(), u32::MAX);
    store.commit(&mut dir, Increase).unwrap();
    let commit = store.store.commit(Increase).unwrap();
    assert!(!commit.accepts(&Reply::Done));
    let commit = commit.begin(&store.store, &mut store.holder);
    let commit = commit.resume(&store.store, Reply::Done).unwrap();
    let commit = commit.resume(&store.store, Reply::Done).unwrap();
    assert!(matches!(commit.request(), Some(Request::WriteSnapshot { .. })));
    assert!(!commit.accepts(&Reply::Done), "there is no version behind the highest");
    assert!(commit.accepts(&Reply::Failed(Error::from(ErrorKind::Other))));
}

#[test]
fn journals_are_only_appended_to() {
    let mut dir = Dir::default();
    let mut store: CounterStore = open(with_entries(2), &mut dir).unwrap();
    for _ in 0..7 {
        let commit = store.store.commit(Increase).unwrap();
        let mut commit = commit.begin(&store.store, &mut store.holder);
        let mut before = dir.files.clone();
        while !commit.is_persisted() {
            let reply = dir.answer(commit.request().unwrap());
            commit = commit.resume(&store.store, reply).unwrap();
            for (name, contents) in &before {
                assert!(dir.files[name].starts_with(contents));
            }
            before = dir.files.clone();
        }
        commit.finish::<Increase, ()>(&mut store.holder);
    }
    assert_eq!(dir.get("0000000003.journal").unwrap(), "[\"increase\",0]\n");
    assert_eq!(dir.get("0000000002.snapshot").unwrap(), "6\n");
}

#[test]
fn flushed_data_is_there_after_a_crash() {
    let mut dir = Dir::default();
    let options = StoreOptions::default().journal_flush_policy(JournalFlushPolicy::Manually);
    let mut store: CounterStore = open(options.clone(), &mut dir).unwrap();
    store.commit(&mut dir, Increase).unwrap();
    store.commit(&mut dir, Increase).unwrap();
    let flush = store.store.flush_and_sync::<(), ()>(&store.holder).unwrap();
    dir.persist(flush).unwrap();
    store.commit(&mut dir, Increase).unwrap();
    assert_eq!(store.query(&mut dir).value, 3);
    dir.buffer.clear();
    let mut store: CounterStore = open(options, &mut dir).unwrap();
    assert_eq!(store.query(&mut dir).value, 2);
}

#[test]
fn a_store_without_room_for_a_second_entry() {
    let mut dir = Dir::default();
    let mut store: CounterStore = open(with_entries(1), &mut dir).unwrap();
    for version in 0..5 {
        store.commit(&mut dir, Increase).unwrap();
        assert_eq!(store.version(), version);
        assert_eq!(store.holder.as_ref().unwrap().written_entries(), 1);
    }
    store.close(&mut dir);
    let mut store: CounterStore = open(with_entries(1), &mut dir).unwrap();
    assert_eq!(store.query(&mut dir).value, 5);
    assert_eq!(store.version(), 4);
}

#[test]
fn opening_again_makes_no_difference() {
    let mut full = Dir::default();
    let mut store: CounterStore = open(with_entries(2), &mut full).unwrap();
    for _ in 0..5 {
        store.commit(&mut full, Increase).unwrap();
    }
    store.close(&mut full);
    let mut sealed = Dir::default();
    sealed.put("0000000000.journal", "[\"increase\",0]\n");
    sealed.put("0000000000.snapshot", "1\n");
    for mut dir in [Dir::default(), full, sealed] {
        let before = dir.files.clone();
        let mut store: CounterStore = open(with_entries(2), &mut dir).unwrap();
        let first = (store.query(&mut dir).value, store.version(), store.holder.as_ref().unwrap().written_entries());
        for (name, contents) in &before {
            assert_eq!(&dir.files[name], contents);
        }
        store.close(&mut dir);
        let opened = dir.files.clone();
        let mut store: CounterStore = open(with_entries(2), &mut dir).unwrap();
        let second = (store.query(&mut dir).value, store.version(), store.holder.as_ref().unwrap().written_entries());
        assert_eq!(second, first);
        assert_eq!(dir.files, opened);
    }
}

#[test]
fn commits_go_on_after_one_that_was_cut_off() {
    for requests in 0..=7 {
        let mut dir = Dir::default();
        let mut store: CounterStore = open(with_entries(2), &mut dir).unwrap();
        store.commit(&mut dir, Increase).unwrap();
        store.commit(&mut dir, Increase).unwrap();
        let commit = store.store.commit(IncreaseBy { by: 0 }).unwrap();
        let mut commit = commit.begin(&store.store, &mut store.holder);
        for _ in 0..requests {
            let reply = dir.answer(commit.request().unwrap());
            commit = commit.resume(&store.store, reply).unwrap();
        }
        dir.buffer.clear();
        let mut store: CounterStore = open(with_entries(2), &mut dir).unwrap();
        store.commit(&mut dir, Increase).unwrap();
        store.close(&mut dir);
        let mut store: CounterStore = open(with_entries(2), &mut dir).unwrap();
        assert_eq!(store.query(&mut dir).value, if requests < 6 { 3 } else { 5 });
    }
}

#[test]
fn a_lost_buffer_falls_back_to_the_last_flush() {
    let mut dir = Dir::default();
    let options = with_entries(3).journal_flush_policy(JournalFlushPolicy::Manually);
    for round in 1..4 {
        let mut store: CounterStore = open(options.clone(), &mut dir).unwrap();
        assert_eq!(store.query(&mut dir).value, round - 1);
        store.commit(&mut dir, Increase).unwrap();
        let flush = store.store.flush::<(), ()>(&store.holder).unwrap();
        dir.persist(flush).unwrap();
        if round < 3 {
            store.commit(&mut dir, Increase).unwrap();
        }
        dir.buffer.clear();
    }
    let mut store: CounterStore = open(options, &mut dir).unwrap();
    assert_eq!(store.query(&mut dir).value, 3);
    assert_eq!(store.version(), 0);
    assert_eq!(store.holder.as_ref().unwrap().written_entries(), 3);
    // The journal is full. It is flushed before the next one is begun, whose entry is lost.
    store.commit(&mut dir, Increase).unwrap();
    dir.buffer.clear();
    let mut store: CounterStore = open(with_entries(3), &mut dir).unwrap();
    assert_eq!(store.query(&mut dir).value, 3);
    assert_eq!(store.version(), 1);
}
