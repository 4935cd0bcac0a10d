//! The core of a persistent store in the style of system prevalence: all data lives in memory,
//! every transaction is written to a journal before it is executed, and the data is rebuilt
//! from a snapshot and the journals behind it.
//!
//! The core does no I/O. [Load], [Commit] and [Persist] are machines: each names the next
//! [Request] to the store's directory, and goes on with the [Reply] to it. Whoever owns a
//! [Store] does what is requested, and keeps the data in between.
//!
//! [recovery] states what the files of a store say about its data, and that loading gives it
//! back; [durability], that commits keep it so; [lifetime], what follows over many commits and
//! many openings; and [reopening], that opening a store again makes no difference. [promises]
//! says what the single operations do, of their inputs and results.

pub mod action;
pub mod directory;
pub mod durability;
pub mod error;
pub mod journal;
pub mod lifetime;
pub mod names;
pub mod options;
pub mod persistent;
pub mod promises;
pub mod recovery;
pub mod reopening;
pub mod request;
pub mod serializer;
pub mod store;
pub mod tx;

pub use action::PersistenceAction;
pub use error::{DecodeError, StoreError, StoreResult};
pub use journal::{JournalFile, Persist};
pub use names::{FileKind, SnapshotVersion};
pub use options::{JournalFlushMethod, JournalFlushPolicy, NonZeroUsize, StoreOptions};
pub use persistent::{Load, PersistentData};
pub use request::{Reply, Request};
pub use serializer::{JsonFailure, JsonSerializer, Serializer};
pub use store::{Commit, Query, Store};
pub use tx::Tx;
