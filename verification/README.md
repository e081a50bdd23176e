# oxideterm

Verified building blocks of a terminal application, written in Verus.

- `src/` is the library. Its functions are verified against their
  `requires` / `ensures` contracts, except a few small trusted wrappers
  around the `keyring` crate and `String::from_utf8_lossy`, whose contracts
  are taken as given:
  - `crc`, `xymodem`, `zmodem`, `zscan`, `zfile`: the X/Y/ZMODEM wire
    formats (blocks, headers, ZDLE escaping, data subpackets, the ZFILE
    header) and the readers that scan them off a byte stream, with
    round-trip laws for each format.
  - `io`, `stream`, `xymodem_transfer`, `zmodem_transfer`: the transfer
    sessions over an abstract byte channel, and the in-memory channel a
    terminal feeds.
  - `chat`, `handoff`: the AI sidebar's conversation list and the per-message
    backend provenance.
  - `x11`, `paths`, `labels`, `settings_input`, `image_budget`,
    `secret_store`, `cli_secrets`, `decimal`, `text`, `bytes`: small domain
    models and helpers.
- `tests/` runs the library on concrete inputs.
- `app/` is the unverified shell around the library: the blocking channel
  shared with a terminal, the transfer worker that reads and writes files,
  command-line argument types, and error types with their messages.
