# gallery_log

A tamper-evident, encrypted access log for an art gallery, verified with
Verus.

Each event (a person arriving at or leaving the gallery or one of its rooms)
is encoded as text, encrypted with a SHA-256 keystream whose nonce is the
hash of the previous record, authenticated with HMAC-SHA256 and stored as
`[u32 length][ciphertext][MAC]`.  The log file starts with a header: the
number of records and an HMAC over that number and the last record's hash,
so that a log cut short is refused.  Replaying the log through the gallery's
rules gives who is where; queries answer the current state, one person's
room history, and the rooms that several people shared at the same time.

## Layout

- `src/` — the verified library.
  - `crypto` — SHA-256 and HMAC-SHA256 (through `sha2` and `hmac`), the
    keystream cipher.
  - `text`, `entry` — numerals and the plaintext encoding of an entry.
  - `record` — record framing, reading a whole log, sealing a new record.
  - `roster`, `gallery` — the gallery state machine and its rules.  Who is
    present is kept in a `Roster`, a vector of (name, place) pairs with no
    name twice, rather than a `HashMap<String, _>`: vstd's model of
    `HashMap` holds only for key types with a hashing model, which `String`
    lacks, so nothing could be proved of such a map.
  - `query`, `report` — the read queries and the lines printed for them.
  - `read_plan` — what `logread` answers to a command, or why it refuses.
  - `validate`, `append_cli`, `read_cli`, `batch`, `batch_run` — command
    lines of the two programs, the decision of one append, and batch files
    run line by line against the logs they name.
  - `state`, `log`, `logappend`, `logread` — a simpler presence tracker and
    JSON-record sealing.
- `tests/` — scenario tests of the two programs' behaviour, run against the
  library in memory, and unit tests.
- `app/` — the `logappend` and `logread` programs: files, locks, printing
  and exit codes around the library.
