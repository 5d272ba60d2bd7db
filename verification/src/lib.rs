//! Decoding of Source Map V3 data embedded in WebAssembly modules that
//! AssemblyScript produces, and the mapping of WebAssembly byte offsets back to
//! the original AssemblyScript source locations.
//!
//! The `mappings` string of a source map holds Base64 VLQ-encoded segments
//! (`vlq`, `mappings`); the source map itself is found in a custom section of
//! the module (`wasm`), read as JSON (`json`), and turned into a table sorted
//! by byte offset (`source_map`) or a map of source locations (`locations`).

pub mod json;
pub mod locations;
pub mod mappings;
pub mod source_map;
pub mod text;
pub mod vlq;
pub mod wasm;

pub use locations::{as_entries_to_source_locations, SourceLocation};
pub use mappings::{parse_mappings, MappingSegment};
pub use source_map::{parse_source_map, try_build_as_line_cache, AsMappingEntry};
pub use vlq::{base64_char_to_value, decode_vlq};
pub use wasm::extract_source_map_from_wasm;
