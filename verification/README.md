# airomem

A (toy) persistence library in the style of system prevalence: all data lives in memory, every
transaction is written to an append-only journal before it is executed, and the data is rebuilt
from a snapshot and the journals behind it. The core is written in Verus and proved correct.

- `src/` is the core. It does no I/O: loading the data, committing a transaction and flushing the
  journal are machines that name the next request to the store's directory and go on with the
  reply to it.
  - `names`, `action`, `directory`: the files of a store, and which of them are needed.
  - `serializer`, `tx`, `journal`: bytes, transactions, and the journal that they make up.
  - `options`, `error`, `request`: what a store is told, complains of and asks for.
  - `persistent`, `store`: the data, how it is loaded, and how a transaction gets to it.
  - `recovery`: what the files say about the data, and that loading gives it back.
  - `durability`: that commits keep it so, at every step.
  - `lifetime`: what follows over many commits and many openings, commits that are cut off and
    buffers that are lost.
  - `reopening`: that opening a store again makes no difference.
- `app/` is the asynchronous store around the core, on `tokio`, with the macros that merge
  several kinds of transactions into one.
- `tests/` runs the core on a directory that is held in memory.

## What is proved

With a serializer that gives back what it was given, and transactions that do the same again
when they are executed again:

- Opening a store gives back the data that its files tell of, whatever order the directory is
  listed in.
- A commit that is done is on record; with the default options it has left the buffer and the
  journal is synced.
- If every commit flushes, a store that is opened has the default data with all the transactions
  that were ever committed executed in order, each once, however many stores were opened on the
  directory and however many journals and snapshots are in it.
- After every request of a commit that starts with nothing in the buffer, the files as they are
  hold the data without the transaction until its entry is appended, and with it once the entry is
  flushed. In between, a part of the entry may stand at the end of the journal. What a request that
  fails halfway leaves behind is not covered.
- After a commit that was cut off, with no torn entry left behind, a store that is opened has all
  that was committed before, with that transaction or without it. After a buffer that was lost, it
  has the data of the moment to which the files belong.
- `flush_and_sync` leaves the entries of all commits in the journals, and the journal synced,
  whatever the serializer does.
- Opening a store again, with nothing committed in between, gives the very same data and leaves the
  directory as it is. This takes only a serializer and transactions that are deterministic.
- JSON values that are written line by line are read back one by one, if the parser gives back each
  of them.
- Journals are only appended to. A snapshot repeats what the journals tell, and can be removed.
- No journal file holds more transactions than the options allow, however often the store is
  opened.

What the serializer and the transactions do is up to their implementations; the laws name what
they assume of them.
