# selium

The verified core of the Selium runtime and its system modules, written in
Verus. Every function in `src/` carries a contract, and Verus proves each
one except the trusted functions that call outside code: those marked
`#[verifier::external_body]` in `src/pki.rs` (the calls into `rcgen` and
`time`) and in `src/text.rs` (`std::str::from_utf8` and collecting
characters into a `String`). Their contracts, and the names without a body
in `src/pki.rs` that they speak of, are believed, not proved; the doc
comment above each says what it claims.

- `src/dns` — DNS queries and responses, and the DNS wire codec.
- `src/module_probe.rs` — the scan of a WebAssembly module for shared
  memory and atomic wake instructions.
- `src/switchboard` — channel keys, the wiring solver and its core state,
  the switchboard service's channel reuse and wiring, the client's control
  plane, message tables and messaging targets.
- `src/atlas.rs`, `src/atlas_store.rs`, `src/atlas_client.rs` — Atlas
  messages, the service's URI store and the client's reading of replies.
- `src/keyring.rs`, `src/pki.rs` — the host PKI keyring, and its boundary
  to `rcgen` for keys, issuers and certificates.
- `src/runtime` — app definitions, boot order, grant delegation and
  coverage, shared-region attach authorisation, discovery
  URIs, the mailbox ring, metering, operation ids, stream layout and worker
  counts.
- `src/text.rs` — text building shared by the modules.

`app/` is the command-line front end (argument parsing, file reading,
printing); `tests/` holds the tests.
