# assemblyscript_source_map

Reads the Source Map V3 data that AssemblyScript embeds in WebAssembly
modules (a `sourceMap` custom section with the JSON, or a `sourceMappingURL`
section with a `data:` URI) and maps WebAssembly byte offsets back to the
original AssemblyScript source locations. The library is written in Verus and
its functions are proved against their contracts.

Layout of `src/`:

- `vlq.rs`: Base64 digits and Base64 VLQ values.
- `mappings.rs`: the `mappings` string, decoded into segments by generated line.
- `text.rs`: UTF-8, Unicode white space, trimming and prefixes.
- `wasm.rs`: finding the source map in the custom sections of a module
  (through `wasmparser` and `base64`).
- `json.rs`: the Source Map V3 structure read from JSON (through `serde_json`).
- `source_map.rs`: the mapping table sorted by byte offset.
- `locations.rs`: source locations by byte offset.

The laws of the library stand as public proof functions named `law_*` in
`vlq.rs`, `mappings.rs`, `source_map.rs` and `locations.rs`; the other
modules state what they do in the contracts of their functions.
