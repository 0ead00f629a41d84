# streamparse

A push-based, incremental parser for record-structured byte streams, verified
with Verus. Bytes are fed in arbitrary chunks; each record completed by a chunk
is decoded by a pluggable `Format` (newline-delimited JSON, or delimited
fields) into an event. Only the current partial record stays buffered.

- `src/` the verified library: tokenizer, buffer, parser engine, the two
  formats, and the text the command line prints.
- `tests/` tests run against the compiled library.
- `app/` the `streamparse` command: argument parsing, file and stdin reading,
  printing.
