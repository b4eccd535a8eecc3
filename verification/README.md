# wasm_fuel

A WebAssembly binary parser whose decoders are verified with Verus.

- `leb`: LEB128 readers and writers, specified over the bytes as a group of
  base-128 digits ending at the first byte without a continuation bit, with
  round-trip laws for the writers.
- `sections`: the module header and section framing, with the shared grammar
  of vectors (`repeat`, `vector_at`, `vector_section`) that the section
  decoders are specified with.
- `types`, `imports`, `functions`, `exports`, `start`: one decoder per
  section payload, each specified exactly, errors and their offsets included.
- `module`: `parse`, which frames a module, decodes its sections in order and
  checks the type indices between them.

The one trusted item is the call to `std::str::from_utf8` that decodes
import and export names, specified with vstd's UTF-8 model.
