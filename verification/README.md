# spacetime-storage

The storage layer of a database, verified with [Verus].

- `src/` is the library. It makes all decisions and computes all layouts. Its
  functions have contracts that are proved, but for two groups: the functions that
  call into other crates (see below), and the methods that others implement, of
  `SegmentWriter`, `Decoder`, `Encode` and `SendPermit`.
  - `bitset`, `free_set`: which blocks of the data file are in use.
  - `checksum`, `le`, `text`, `io`: hashes, byte order, messages, readers.
  - `grid`: blocks, chains of blocks, blobs and the superblock. What becomes of
    a blob that is written and then loaded is stated in `grid::stored`, and when
    there are enough addresses to write to in `grid::supply`.
  - `datafile`, `manifest`: the layout of the data file and of snapshots.
  - `commitlog`: commits, segments and offset indexes. What is read of what was
    written is stated in `commitlog::segment::log`.
- `tests/` runs the library.
- `app/` is ordinary Rust around the library: files, asynchronous operations,
  locks and error messages.

Work that the operating system does is left to the caller. Functions of the
library say what is to be read or written, and take the outcome as an argument.

Hashes come from `blake3`, checksums from `crc32c`, wide integers from `ethnum`,
byte order from `zerocopy`, and buffers from `bytes`. The functions that call
these crates are marked `external_body`, and their comments say what is taken
for granted of the calls.

[Verus]: https://github.com/verus-lang/verus
