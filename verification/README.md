# codecrafters_git

Git's plumbing commands (`init`, `cat-file`, `hash-object`, `ls-tree`,
`write-tree`, `commit-tree`, `clone`) with their logic verified by Verus.

## Layout

- `src/` — the verified library.
  - `object.rs`: blobs, trees and commits; the stored form
    `<type> <len>\0<content>` and its SHA-1 (through `sha1_smol`).
  - `git.rs`: reading and writing loose objects, tree entries, `ls-tree`
    output, commit objects; the round-trip laws of the object store.
  - `zlib.rs`: compression and decompression through `flate2`.
  - `pack.rs`: packfile parsing; a pack of well-formed objects reads back
    as those objects.
  - `clone.rs`: pkt-lines, the refs advertisement, the upload-pack request,
    the remote URLs and the steps of fetching a pack over the smart HTTP
    protocol.
  - `command.rs`: the command-line grammar.
  - `order.rs`: the byte-wise name order in which trees list their entries.
  - `text.rs`: whitespace splitting, trimming, decimal and hex text.
  - `clock.rs`: the system clock that commits are stamped with.
  - `error.rs`: the error type.
- `app/` — the program: argument handling, the file system, HTTP
  (`reqwest` on a `tokio` runtime), printing.
- `tests/` — tests of the library on concrete values.

Run it inside a scratch directory: it writes into `.git/` of wherever it runs.
