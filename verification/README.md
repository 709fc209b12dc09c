# ms45-core

Validation, signing and flash-payload preparation for BMW MS45.0/MS45.1 engine
control units, written in Verus. The library's functions carry
`requires`/`ensures` contracts that Verus proves; the calls into outside crates
and std sit in small trusted wrappers (`#[verifier::external_body]`, mostly in
`crypto`) whose contracts are taken on trust, and two of them (`random_u64`,
which draws a nonce, and `notify`, which calls a progress closure) state nothing.

## Layout

* `src/` — the verified library.
  * `binary` — image lengths, metadata fields, tune and program payloads.
  * `image` — big-endian words and address-mapped segments of flash images.
  * `signature` — RSA signatures of parameter blocks and programs, and the
    security access message.
  * `flasher` — flash plans and their fail-safe execution against a
    `FlashBackend`, with the laws of that execution.
  * `read_only` — frames of the read-only adapter protocol.
  * `backup` — the decisions of a read-only backup.
  * `hex`, `text` — hexadecimal text and byte-level string handling.
  * `web`, `desktop` — what the web and desktop front ends compute.
  * `crypto` — the trusted wrappers around `md-5`, `sha2`, `num-bigint`,
    `crc32fast`, `rand` and a few std functions, with the names of their results.
* `tests/` — tests run against the compiled library.
* `app/` — the `ms45` program: command line, TCP adapter, web server and
  desktop window around the library.
