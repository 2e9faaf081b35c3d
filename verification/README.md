# clipygo

The core of a clipboard companion app, written in Verus: the functions in
`src/` carry contracts and are proved against them, except the small
trusted wrappers (marked `#[verifier::external_body]`) through which the
library calls std and the outside crates (encryption, random numbers, UUIDs,
the clock, regex, JSON, base64, SHA-256); their contracts are believed, and
their doc comments say what they claim.

- `src/` — the verified library
  - `history`: the clipboard history (encrypted per-entry storage, byte budget
    with eviction that spares pinned entries, listing with filters and paging,
    reading entries back); `crypto` seals and opens entries with
    XChaCha20-Poly1305; `history_commands` turns stored entries into payloads
    to send again.
  - `morph` and its helpers (`transforms`, `lines`, `markup`, `tracking`,
    `xml`, `codec`, `json`, `pattern`): the text transforms and rules.
  - `exec`: command lines for external commands; `cf_html`: CF_HTML framing.
  - `settings`: settings defaults, the plugin list and registry installs.
  - `subprocess` and `targets`: the plugin protocol as state machines (line
    classification, call retries and failure counting, status listings).
  - `tray`: the tray menu and the windows it opens.
- `app/` — plain Rust around the library: files, the plugin processes, the
  SQLite store, downloads. It performs the I/O and hands the results to the
  library's functions, which decide.
- `tests/` — tests run against the compiled library.
