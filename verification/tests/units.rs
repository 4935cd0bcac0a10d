//! File names, plans, options, JSON and journals.

use std::io::{Error, ErrorKind};
use std::time::Duration;

use airomem::names::{file_name, is_name_of, parse_file_name, parse_version};
use airomem::tx::execute_all;
use airomem::{
    FileKind, JournalFile, JournalFlushMethod, JournalFlushPolicy, JsonFailure, JsonSerializer, NonZeroUsize,
    Persist, PersistenceAction, Reply, Request, Serializer, StoreError, StoreOptions, StoreResult, Tx,
};

#[test]
fn names_are_padded() {
    assert_eq!(file_name(FileKind::Journal, 7), b"0000000007.journal".to_vec());
    assert_eq!(file_name(FileKind::Snapshot, 0), b"0000000000.snapshot".to_vec());
    assert_eq!(file_name(FileKind::Journal, u32::MAX), b"4294967295.journal".to_vec());
    assert_eq!(file_name(FileKind::Snapshot, 1234567890), b"1234567890.snapshot".to_vec());
}

#[test]
fn names_are_recognised() {
    assert!(is_name_of(b"0000000007.journal", FileKind::Journal, 7));
    assert!(!is_name_of(b"0000000007.journal", FileKind::Journal, 8));
    assert!(!is_name_of(b"0000000007.journal", FileKind::Snapshot, 7));
    assert!(!is_name_of(b"7.journal", FileKind::Journal, 7));
    assert!(!is_name_of(b"0000000007.journals", FileKind::Journal, 7));
    assert!(!is_name_of(b"", FileKind::Journal, 0));
}

#[test]
fn versions_are_decimal_numbers() {
    assert_eq!(parse_version(b"0"), Some(0));
    assert_eq!(parse_version(b"0000000042"), Some(42));
    assert_eq!(parse_version(b"+5"), Some(5));
    assert_eq!(parse_version(b"000000000000004294967295"), Some(u32::MAX));
    assert_eq!(parse_version(b"4294967296"), None);
    assert_eq!(parse_version(b"99999999999999999999"), None);
    assert_eq!(parse_version(b""), None);
    assert_eq!(parse_version(b"+"), None);
    assert_eq!(parse_version(b"++1"), None);
    assert_eq!(parse_version(b"-1"), None);
    assert_eq!(parse_version(b" 1"), None);
    assert_eq!(parse_version(b"1a"), None);
    assert_eq!(parse_version(&[0xff]), None);
}

#[test]
fn names_are_cut_at_the_last_dot() {
    let cut = |name: &str| {
        let parts = parse_file_name(name.as_bytes());
        let text = |part: Option<Vec<u8>>| part.map(|part| String::from_utf8(part).unwrap());
        (text(parts.stem), text(parts.extension))
    };
    let parts = |stem: &str, extension: &str| (Some(stem.to_string()), Some(extension.to_string()));
    assert_eq!(cut("0000000001.journal"), parts("0000000001", "journal"));
    assert_eq!(cut("1.2.snapshot"), parts("1.2", "snapshot"));
    assert_eq!(cut("1."), parts("1", ""));
    assert_eq!(cut("1"), (Some("1".to_string()), None));
    assert_eq!(cut(".journal"), (Some(".journal".to_string()), None));
    assert_eq!(cut(".."), (None, None));
}

fn found(name: &str) -> StoreResult<Option<PersistenceAction>, (), ()> {
    PersistenceAction::read_entry(name.as_bytes().to_vec())
}

#[test]
fn entries_are_told_apart() {
    assert!(matches!(
        found("0000000003.journal"),
        Ok(Some(PersistenceAction::Journal { version: 3, path })) if path == b"0000000003.journal"
    ));
    assert!(matches!(found("+3.snapshot"), Ok(Some(PersistenceAction::Snapshot { version: 3, .. }))));
    assert!(matches!(found("3.txt"), Ok(None)));
    assert!(matches!(found("3.Journal"), Ok(None)));
    assert!(matches!(found("3"), Ok(None)));
    assert!(matches!(
        found("x.journal"),
        Err(StoreError::JournalInvalidFileName(Some(stem))) if stem == b"x"
    ));
    assert!(matches!(found(".."), Err(StoreError::JournalInvalidFileName(None))));
}

fn planned(names: &[&str]) -> Vec<String> {
    let actions: Vec<PersistenceAction> = names.iter().map(|name| found(name).unwrap().unwrap()).collect();
    PersistenceAction::rebuild(actions)
        .into_iter()
        .map(|action| match action {
            PersistenceAction::Snapshot { path, .. } => String::from_utf8(path).unwrap(),
            PersistenceAction::Journal { path, .. } => String::from_utf8(path).unwrap(),
        })
        .collect()
}

#[test]
fn only_needed_files_are_read() {
    assert_eq!(
        planned(&["0000000001.journal", "0000000001.snapshot", "0000000002.journal"]),
        vec!["0000000001.snapshot", "0000000002.journal"]
    );
    assert_eq!(planned(&[]), Vec::<String>::new());
    assert_eq!(planned(&["2.journal", "0.journal", "1.journal"]), vec!["0.journal", "1.journal", "2.journal"]);
    assert_eq!(
        planned(&["4.journal", "1.snapshot", "3.snapshot", "2.journal", "5.journal", "3.journal"]),
        vec!["3.snapshot", "4.journal", "5.journal"]
    );
    assert_eq!(planned(&["9.snapshot", "3.journal"]), vec!["9.snapshot"]);
}

#[test]
fn files_of_one_version_keep_their_order() {
    assert_eq!(planned(&["01.journal", "1.journal", "0.journal"]), vec!["0.journal", "01.journal", "1.journal"]);
    assert_eq!(planned(&["1.journal", "01.journal", "0.journal"]), vec!["0.journal", "1.journal", "01.journal"]);
    assert_eq!(planned(&["2.snapshot", "+2.snapshot", "2.journal"]), vec!["2.snapshot", "+2.snapshot"]);
}

#[test]
fn versions_of_actions() {
    assert_eq!(found("12.snapshot").unwrap().unwrap().snapshot_version(), 12);
    assert_eq!(found("13.journal").unwrap().unwrap().snapshot_version(), 13);
    let actions: Vec<PersistenceAction> =
        ["1.snapshot", "8.journal", "3.snapshot", "2.snapshot"].iter().map(|name| found(name).unwrap().unwrap()).collect();
    assert_eq!(PersistenceAction::latest_snapshot(&actions), Some(3));
    assert_eq!(PersistenceAction::latest_snapshot(&Vec::new()), None);
}

#[test]
fn default_options() {
    let options = StoreOptions::default();
    assert_eq!(options.journal_capacity(), 65535);
    assert_eq!(options.commit_flush(), Some(JournalFlushMethod::FlushAndSync));
    assert_eq!(options.background_flush(), None);
    assert!(!options.can_flush_synchronously_on_drop());
}

#[test]
fn options_are_set_one_by_one() {
    let entries = NonZeroUsize::new(3).unwrap();
    let every = JournalFlushPolicy::Every {
        duration: Duration::from_secs(2),
        journal_flush_method: JournalFlushMethod::FlushAndSync,
    };
    let options = StoreOptions::default().max_journal_entries(entries).journal_flush_policy(every);
    assert_eq!(options.journal_capacity(), 3);
    assert_eq!(options.commit_flush(), None);
    assert_eq!(options.background_flush(), Some((Duration::from_secs(2), JournalFlushMethod::FlushAndSync)));
    assert!(options.can_flush_synchronously_on_drop());
    let options = options.flush_synchronously_on_drop(false);
    assert_eq!(options.journal_capacity(), 3);
    assert!(!options.can_flush_synchronously_on_drop());
}

#[test]
fn flushing_on_drop_does_nothing_if_every_commit_flushes() {
    for journal_flush_method in [JournalFlushMethod::Flush, JournalFlushMethod::FlushAndSync] {
        let policy = JournalFlushPolicy::EveryCommit { journal_flush_method };
        let options = StoreOptions::default().journal_flush_policy(policy).flush_synchronously_on_drop(true);
        assert!(!options.can_flush_synchronously_on_drop());
    }
    let options = StoreOptions::default().journal_flush_policy(JournalFlushPolicy::Manually);
    assert!(options.can_flush_synchronously_on_drop());
}

#[test]
fn zero_is_no_number_of_entries() {
    assert_eq!(NonZeroUsize::new(0), None);
    assert_eq!(NonZeroUsize::new(1).unwrap().get(), 1);
    assert_eq!(NonZeroUsize::new(usize::MAX).unwrap().get(), usize::MAX);
}

#[test]
fn json_comes_in_lines() {
    assert_eq!(JsonSerializer.serialize(&vec![1, 2]).unwrap(), b"[1,2]\n".to_vec());
    assert_eq!(JsonSerializer.serialize(&"a\nb").unwrap(), b"\"a\\nb\"\n".to_vec());
    assert_eq!(JsonSerializer.serialize(&()).unwrap(), b"null\n".to_vec());
}

#[test]
fn json_is_read_value_by_value() {
    let mut reader: &[u8] = b"[1,2]\n[]\n[3]\n";
    assert_eq!(JsonSerializer.deserialize::<Vec<u8>>(&mut reader).unwrap(), Some(vec![1, 2]));
    assert_eq!(reader, b"\n[]\n[3]\n");
    assert_eq!(JsonSerializer.deserialize::<Vec<u8>>(&mut reader).unwrap(), Some(vec![]));
    assert_eq!(JsonSerializer.deserialize::<Vec<u8>>(&mut reader).unwrap(), Some(vec![3]));
    assert_eq!(reader, b"\n");
    assert_eq!(JsonSerializer.deserialize::<Vec<u8>>(&mut reader).unwrap(), None);
    assert_eq!(JsonSerializer.deserialize::<Vec<u8>>(&mut reader).unwrap(), None);
}

#[test]
fn json_lines_are_read_back_one_by_one() {
    let values = vec![vec!["a".to_string()], vec![], vec!["b\n".to_string(), "c".to_string()]];
    let lines: Vec<u8> = values.iter().flat_map(|value| JsonSerializer.serialize(value).unwrap()).collect();
    let mut reader: &[u8] = &lines;
    for value in values {
        assert_eq!(JsonSerializer.deserialize(&mut reader).unwrap(), Some(value));
    }
    assert_eq!(JsonSerializer.deserialize::<Vec<String>>(&mut reader).unwrap(), None);
}

/// Is read from no text at all.
#[derive(Debug)]
struct Silent;

impl<'de> serde::Deserialize<'de> for Silent {
    fn deserialize<E: serde::Deserializer<'de>>(_: E) -> Result<Self, E::Error> {
        Ok(Silent)
    }
}

#[test]
fn a_value_that_is_read_from_no_text_is_refused() {
    let mut reader: &[u8] = b"";
    assert!(matches!(JsonSerializer.deserialize::<Silent>(&mut reader), Ok(Some(Silent))));
    let error = JsonSerializer.deserialize_next::<Silent>(&mut reader).unwrap_err();
    assert_eq!(error.to_string(), "a value was read from no text");
    let mut reader: &[u8] = b"[1]\n";
    assert_eq!(JsonSerializer.deserialize_next::<Vec<u8>>(&mut reader).unwrap(), Some(vec![1]));
    assert_eq!(reader, b"\n");
    assert_eq!(JsonSerializer.deserialize_next::<Vec<u8>>(&mut reader).unwrap(), None);
    let mut reader: &[u8] = b"[x";
    assert!(JsonSerializer.deserialize_next::<Vec<u8>>(&mut reader).is_err());
}

#[test]
fn progress_is_told_by_the_bytes_left() {
    assert!(matches!(JsonSerializer::or_stuck(Ok(Some(1)), 5, 4), Ok(Some(1))));
    assert!(JsonSerializer::or_stuck(Ok(Some(1)), 5, 5).is_err());
    assert!(JsonSerializer::or_stuck(Ok(Some(1)), 0, 0).is_err());
    assert!(matches!(JsonSerializer::or_stuck::<u8>(Ok(None), 5, 5), Ok(None)));
}

#[test]
fn the_byte_behind_a_json_number_is_read_with_it() {
    let mut reader: &[u8] = b"12\n3\n";
    assert_eq!(JsonSerializer.deserialize::<u8>(&mut reader).unwrap(), Some(12));
    assert_eq!(reader, b"3\n");
    assert_eq!(JsonSerializer.deserialize::<u8>(&mut reader).unwrap(), Some(3));
    assert_eq!(JsonSerializer.deserialize::<u8>(&mut reader).unwrap(), None);
}

#[test]
fn null_is_no_value() {
    let mut reader: &[u8] = b"null\n5\n";
    assert_eq!(JsonSerializer.deserialize::<u8>(&mut reader).unwrap(), None);
    assert_eq!(JsonSerializer.deserialize::<u8>(&mut reader).unwrap(), Some(5));
}

#[test]
fn json_that_is_cut_off_is_an_error() {
    let mut reader: &[u8] = b"[1,";
    let error = JsonSerializer.deserialize::<Vec<u8>>(&mut reader).unwrap_err();
    assert!(error.is_eof());
    let mut reader: &[u8] = b"\n[1,";
    assert!(JsonSerializer.deserialize::<Vec<u8>>(&mut reader).is_err());
    let mut reader: &[u8] = b"[x]";
    let error = JsonSerializer.deserialize::<Vec<u8>>(&mut reader).unwrap_err();
    assert!(error.is_syntax());
    // Cut off behind a newline, a value is taken for the end.
    let mut reader: &[u8] = b"[1,\n";
    assert_eq!(JsonSerializer.deserialize::<Vec<u8>>(&mut reader).unwrap(), None);
}

#[test]
fn lines_and_ends() {
    let line: Result<Vec<u8>, ()> = JsonSerializer::as_line(Ok(b"1".to_vec()));
    assert_eq!(line, Ok(b"1\n".to_vec()));
    assert_eq!(JsonSerializer::as_line(Err::<Vec<u8>, u8>(3)), Err(3));
    let failure = |is_eof: bool, column: usize| {
        let error = JsonSerializer.deserialize::<u8>(&mut &b"x"[..]).unwrap_err();
        JsonSerializer::or_end::<u8>(Err(JsonFailure { error, is_eof, column }))
    };
    assert!(matches!(failure(true, 0), Ok(None)));
    assert!(failure(true, 1).is_err());
    assert!(failure(false, 0).is_err());
    assert!(matches!(JsonSerializer::or_end(Ok(Some(4))), Ok(Some(4))));
    assert!(matches!(JsonSerializer::or_end::<u8>(Ok(None)), Ok(None)));
}

/// One byte per value; zero is refused.
struct Bytes;

impl Serializer<u8> for Bytes {
    type Error = usize;

    fn serialize(&self, value: &u8) -> Result<Vec<u8>, usize> {
        if *value == 0 {
            Err(0)
        } else {
            Ok(vec![*value])
        }
    }

    fn deserialize(&self, reader: &mut &[u8]) -> Result<Option<u8>, usize> {
        match reader.split_first() {
            None => Ok(None),
            Some((0, rest)) => Err(rest.len()),
            Some((value, rest)) => {
                *reader = rest;
                Ok(Some(*value))
            }
        }
    }
}

#[test]
fn journals_are_parsed_entry_by_entry() {
    let parsed: StoreResult<Vec<u8>, usize, ()> = JournalFile::parse(&Bytes, b"abc");
    assert!(matches!(parsed, Ok(txs) if txs == b"abc"));
    let parsed: StoreResult<Vec<u8>, usize, ()> = JournalFile::parse(&Bytes, b"");
    assert!(matches!(parsed, Ok(txs) if txs.is_empty()));
    let parsed: StoreResult<Vec<u8>, usize, ()> = JournalFile::parse(&Bytes, b"a\0bc");
    assert!(matches!(parsed, Err(StoreError::DecodeJournalEntry(2))));
}

#[test]
fn journals_count_their_entries() {
    let mut journal = JournalFile::open(0);
    assert_eq!(journal.written_entries(), 0);
    journal.append();
    journal.append();
    assert_eq!(journal.written_entries(), 2);
    let mut journal = JournalFile::open(5);
    journal.append();
    assert_eq!(journal.written_entries(), 6);
}

#[test]
fn persisting_goes_by_the_method() {
    let journal = JournalFile::open(0);
    assert_eq!(journal.flush(), Persist::Flushing { then_sync: false });
    assert_eq!(journal.flush_and_sync(), Persist::Flushing { then_sync: true });
    assert_eq!(journal.persist(JournalFlushMethod::Flush), journal.flush());
    assert_eq!(journal.persist(JournalFlushMethod::FlushAndSync), journal.flush_and_sync());
    let done = |persist: Persist| persist.resume::<(), ()>(Reply::Done).unwrap();
    assert!(matches!(journal.flush().request(), Some(Request::Flush)));
    assert_eq!(done(journal.flush()), Persist::Persisted);
    assert_eq!(done(journal.flush_and_sync()), Persist::Syncing);
    assert!(matches!(Persist::Syncing.request(), Some(Request::Sync)));
    assert_eq!(done(Persist::Syncing), Persist::Persisted);
    assert!(Persist::Persisted.request().is_none());
    let failed = journal.flush().resume::<(), ()>(Reply::Failed(Error::from(ErrorKind::WriteZero)));
    assert!(matches!(failed, Err(StoreError::JournalIO(error)) if error.kind() == ErrorKind::WriteZero));
}

#[test]
fn requests_and_their_failures() {
    let failure = |request: Request| request.failure::<(), ()>(Error::from(ErrorKind::Other));
    assert!(matches!(failure(Request::CreateDir), StoreError::FileIO(_)));
    assert!(matches!(failure(Request::OpenDir), StoreError::JournalIO(_)));
    assert!(matches!(failure(Request::ReadSnapshot { name: Vec::new() }), StoreError::SnapshotIO(_)));
    assert!(matches!(
        failure(Request::WriteSnapshot { name: Vec::new(), bytes: &[] }),
        StoreError::SnapshotIO(_)
    ));
    assert!(matches!(failure(Request::ReadJournal { name: Vec::new() }), StoreError::JournalIO(_)));
    assert!(Request::NextEntry.answered_by(&Reply::Entry(None)));
    assert!(!Request::NextEntry.answered_by(&Reply::Done));
    assert!(Request::ReadJournal { name: Vec::new() }.answered_by(&Reply::Contents(Vec::new())));
    assert!(!Request::Flush.answered_by(&Reply::Contents(Vec::new())));
}

struct Push(u8);

impl Tx<Vec<u8>> for Push {
    fn execute(self, data: &mut Vec<u8>) {
        data.push(self.0);
    }
}

#[test]
fn transactions_are_executed_in_order() {
    let mut data = vec![1];
    execute_all(vec![Push(2), Push(3), Push(4)], &mut data);
    assert_eq!(data, vec![1, 2, 3, 4]);
}
