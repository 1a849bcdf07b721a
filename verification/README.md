# v_escape

String escaping driven by a table of ASCII bytes and their replacements, with
every routine proved correct by Verus, and the code generator that turns an
escape template into such a table.

## Layout

- `src/replace.rs`: byte-wise replacement, the model every escaping routine is
  proved against, and its laws (concatenation, identity, UTF-8 validity, the
  character-level reading of a byte replacement).
- `src/escapes.rs`, `src/writer.rs`: the `Escapes` table abstraction, the sinks
  output is written to, and the byte-by-byte routine.
- `src/generic.rs`, `src/arch/`: the block-wise routine (a lane mask per block,
  then a walk over the selected lanes) and the per-target entry points, each
  proved to write exactly what the byte-by-byte routine writes.
- `src/builder.rs`: escaping into a `String`, into a byte vector, or lazily.
- `src/html/`: the HTML table and its scalar and block-wise routines and sizes.
- `src/codegen_base/`: the code generator's analysis: the template's tokens (read
  by Rust's tokenizer behind a trusted wrapper) and grammar, the
  order of the pairs, the lookup table, and the classification of the escaped
  bytes into at most three ranges or single bytes, with the lane tests that
  implement it.
- `src/codegen/`: the standalone generator's classification, the edit it makes
  to a generated crate's manifest (TOML values behind trusted wrappers), and the
  documentation it writes into a generated crate.
- `app/`: the command-line generator: file I/O and writing the generated code
  out as Rust tokens.
