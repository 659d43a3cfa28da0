# vivo_msgpack

Encoding and decoding of the MessagePack payloads that a phone and a watch
exchange while binding and synchronising, written in Verus.

- `src/format.rs` states the wire format as mathematics: what each writer emits
  (`enc_int`, `enc_str`, ...) and what each reader makes of the bytes at a position
  (`i64_at`, `str_at`, ...), and message layouts as sequences of `Kind`s and `Value`s.
- `src/msgpack.rs` holds the writers and the `MsgpackReader`, each proved against
  those definitions.
- `src/roundtrip.rs` proves that whatever the writers emit, the readers read back.
- `src/messages/` holds the messages of the protocol; each payload and each decoder
  is specified over its layout.
- `src/schema.rs` holds the schema catalogue and its lookups.
- `app/` holds what Verus does not check: reading a catalogue from JSON with serde,
  floating-point conversions, and a displayable copy of the error type.
