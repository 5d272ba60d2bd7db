use assemblyscript_source_map::{
    as_entries_to_source_locations, base64_char_to_value, decode_vlq,
    extract_source_map_from_wasm, parse_mappings, parse_source_map, try_build_as_line_cache,
    AsMappingEntry,
};
use base64::Engine as _;

// ---- VLQ decoding tests ----

#[test]
fn test_decode_vlq_zero() {
    let (val, consumed) = decode_vlq(b"A", 0).unwrap();
    assert_eq!(val, 0);
    assert_eq!(consumed, 1);
}

#[test]
fn test_decode_vlq_positive() {
    // 'C' = 2 in base64 = binary 000010, VLQ: continuation=0, value=00001, sign=0 → +1
    let (val, consumed) = decode_vlq(b"C", 0).unwrap();
    assert_eq!(val, 1);
    assert_eq!(consumed, 1);
}

#[test]
fn test_decode_vlq_negative() {
    // 'D' = 3 in base64 = binary 000011, VLQ: continuation=0, value=00001, sign=1 → -1
    let (val, consumed) = decode_vlq(b"D", 0).unwrap();
    assert_eq!(val, -1);
    assert_eq!(consumed, 1);
}

#[test]
fn test_decode_vlq_multi_byte() {
    // 'g' = 32, continuation bit set → needs second char
    // 'B' = 1, no continuation → value = (1 << 5) | 0 = 32 >> 1 = 16
    let (val, consumed) = decode_vlq(b"gB", 0).unwrap();
    assert_eq!(val, 16);
    assert_eq!(consumed, 2);
}

#[test]
fn test_decode_vlq_invalid() {
    assert!(decode_vlq(b"", 0).is_none());
    assert!(decode_vlq(b"!", 0).is_none());
}

// ---- Base64 char conversion tests ----

#[test]
fn test_base64_char_to_value() {
    assert_eq!(base64_char_to_value(b'A'), Some(0));
    assert_eq!(base64_char_to_value(b'Z'), Some(25));
    assert_eq!(base64_char_to_value(b'a'), Some(26));
    assert_eq!(base64_char_to_value(b'z'), Some(51));
    assert_eq!(base64_char_to_value(b'0'), Some(52));
    assert_eq!(base64_char_to_value(b'9'), Some(61));
    assert_eq!(base64_char_to_value(b'+'), Some(62));
    assert_eq!(base64_char_to_value(b'/'), Some(63));
    assert_eq!(base64_char_to_value(b'!'), None);
}

// ---- Mappings parser tests ----

#[test]
fn test_parse_mappings_empty() {
    let lines = parse_mappings("");
    assert!(lines.is_empty());
}

#[test]
fn test_parse_mappings_single_segment() {
    // "AAAA" = four zeros: genCol=0, srcIdx=0, origLine=0, origCol=0
    let lines = parse_mappings("AAAA");
    assert_eq!(lines.len(), 1);
    assert_eq!(lines[0].len(), 1);
    assert_eq!(lines[0][0].generated_column, 0);
    assert_eq!(lines[0][0].source_index, Some(0));
    assert_eq!(lines[0][0].original_line, Some(0));
    assert_eq!(lines[0][0].original_column, Some(0));
}

#[test]
fn test_parse_mappings_multiple_lines() {
    // Two lines separated by semicolon
    let lines = parse_mappings("AAAA;AACA");
    assert_eq!(lines.len(), 2);
    assert_eq!(lines[0].len(), 1);
    assert_eq!(lines[1].len(), 1);
    // Second line: genCol resets to 0, srcIdx stays 0, origLine increments by 1
    assert_eq!(lines[1][0].generated_column, 0);
    assert_eq!(lines[1][0].original_line, Some(1));
}

#[test]
fn test_parse_mappings_multiple_segments() {
    // Two segments on one line separated by comma
    let lines = parse_mappings("AAAA,EAEC");
    assert_eq!(lines.len(), 1);
    assert_eq!(lines[0].len(), 2);
    // Second segment: genCol += 2, srcIdx += 0, origLine += 2, origCol += 1.
    // A Base64 VLQ digit has one value wherever it stands ('E' is +2, 'C' is
    // +1, as the VLQ tests above fix it), so the original line is 0 + 2.
    assert_eq!(lines[0][1].generated_column, 2);
    assert_eq!(lines[0][1].original_line, Some(2));
}

#[test]
fn test_parse_mappings_empty_lines() {
    // Semicolons with no segments produce empty lines
    let lines = parse_mappings("AAAA;;;AACA");
    // "AAAA" → line 0, ";" → empty line 1, ";" → empty line 2, "AACA" → line 3
    assert_eq!(lines.len(), 4);
    assert_eq!(lines[0].len(), 1);
    assert!(lines[1].is_empty());
    assert!(lines[2].is_empty());
    assert_eq!(lines[3].len(), 1);
}

// ---- Source map parsing tests ----

#[test]
fn test_parse_source_map_valid() {
    let json = r#"{
        "version": 3,
        "sources": ["assembly/index.ts"],
        "names": [],
        "mappings": "AAAA;AACA"
    }"#;

    let entries = parse_source_map(json).unwrap();
    assert!(!entries.is_empty());
    assert_eq!(entries[0].file, "assembly/index.ts");
    assert_eq!(entries[0].line, 1); // 0-based → 1-based
}

#[test]
fn test_parse_source_map_with_source_root() {
    let json = r#"{
        "version": 3,
        "sources": ["index.ts"],
        "names": [],
        "mappings": "AAAA",
        "sourceRoot": "assembly/"
    }"#;

    let entries = parse_source_map(json).unwrap();
    assert_eq!(entries[0].file, "assembly/index.ts");
}

#[test]
fn test_parse_source_map_wrong_version() {
    let json = r#"{
        "version": 2,
        "sources": ["test.ts"],
        "names": [],
        "mappings": "AAAA"
    }"#;

    assert!(parse_source_map(json).is_none());
}

#[test]
fn test_parse_source_map_invalid_json() {
    assert!(parse_source_map("not json").is_none());
}

#[test]
fn test_parse_source_map_entries_sorted() {
    let json = r#"{
        "version": 3,
        "sources": ["a.ts", "b.ts"],
        "names": [],
        "mappings": "AAAA,EACA;AACA"
    }"#;

    let entries = parse_source_map(json).unwrap();
    for window in entries.windows(2) {
        assert!(window[0].wasm_offset <= window[1].wasm_offset);
    }
}

// ---- Conversion to SourceLocation tests ----

#[test]
fn test_as_entries_to_source_locations() {
    let entries = vec![
        AsMappingEntry {
            wasm_offset: 100,
            file: "index.ts".to_string(),
            line: 10,
            column: Some(5),
        },
        AsMappingEntry {
            wasm_offset: 200,
            file: "lib.ts".to_string(),
            line: 20,
            column: None,
        },
    ];

    let locations = as_entries_to_source_locations(&entries);
    assert_eq!(locations.len(), 2);

    let loc = locations.get(&100).unwrap();
    assert_eq!(loc.file, "index.ts");
    assert_eq!(loc.line, 10);
    assert_eq!(loc.column, Some(5));
    assert!(loc.github_link.is_none());
}

// ---- WASM custom section extraction tests ----

#[test]
fn test_extract_source_map_from_minimal_wasm() {
    // Build a minimal WASM module with a "sourceMap" custom section
    let source_map_json = r#"{"version":3,"sources":["test.ts"],"names":[],"mappings":"AAAA"}"#;
    let wasm = build_wasm_with_custom_section("sourceMap", source_map_json.as_bytes());

    let result = extract_source_map_from_wasm(&wasm);
    assert!(result.is_some());
    let extracted = result.unwrap();
    assert!(extracted.contains("\"version\":3"));
}

#[test]
fn test_extract_source_map_data_uri() {
    let source_map_json = r#"{"version":3,"sources":["test.ts"],"names":[],"mappings":"AAAA"}"#;
    let encoded = base64::engine::general_purpose::STANDARD.encode(source_map_json);
    let data_uri = format!("data:application/json;base64,{}", encoded);

    let wasm = build_wasm_with_custom_section("sourceMappingURL", data_uri.as_bytes());

    let result = extract_source_map_from_wasm(&wasm);
    assert!(result.is_some());
    let extracted = result.unwrap();
    assert!(extracted.contains("\"version\":3"));
}

#[test]
fn test_extract_source_map_no_custom_section() {
    // Minimal valid WASM module with no custom sections
    let wasm = vec![
        0x00, 0x61, 0x73, 0x6d, // magic
        0x01, 0x00, 0x00, 0x00, // version
    ];

    assert!(extract_source_map_from_wasm(&wasm).is_none());
}

#[test]
fn test_try_build_as_line_cache_no_source_map() {
    let wasm = vec![
        0x00, 0x61, 0x73, 0x6d, // magic
        0x01, 0x00, 0x00, 0x00, // version
    ];

    assert!(try_build_as_line_cache(&wasm).is_none());
}

#[test]
fn test_try_build_as_line_cache_with_source_map() {
    let json =
        r#"{"version":3,"sources":["assembly/index.ts"],"names":[],"mappings":"AAAA;AACA"}"#;
    let wasm = build_wasm_with_custom_section("sourceMap", json.as_bytes());

    let entries = try_build_as_line_cache(&wasm);
    assert!(entries.is_some());
    let entries = entries.unwrap();
    assert!(!entries.is_empty());
    assert_eq!(entries[0].file, "assembly/index.ts");
}

#[test]
fn test_try_build_as_line_cache_url_not_data_uri() {
    // A plain URL in sourceMappingURL should be skipped (not JSON)
    let wasm =
        build_wasm_with_custom_section("sourceMappingURL", b"https://example.com/source.map");

    assert!(try_build_as_line_cache(&wasm).is_none());
}

// ---- Test helpers ----

/// Build a minimal valid WASM module with a single custom section.
fn build_wasm_with_custom_section(name: &str, data: &[u8]) -> Vec<u8> {
    let mut wasm: Vec<u8> = vec![
        0x00, 0x61, 0x73, 0x6d, // magic
        0x01, 0x00, 0x00, 0x00, // version
    ];

    // Custom section (id = 0)
    let name_bytes = name.as_bytes();
    let section_size: usize = leb128_size(name_bytes.len() as u32) + name_bytes.len() + data.len();

    wasm.push(0x00); // section id: custom
    write_leb128(&mut wasm, section_size as u32);
    write_leb128(&mut wasm, name_bytes.len() as u32);
    wasm.extend_from_slice(name_bytes);
    wasm.extend_from_slice(data);

    wasm
}

fn leb128_size(mut value: u32) -> usize {
    let mut size: usize = 0;
    loop {
        size += 1;
        value >>= 7;
        if value == 0 {
            break;
        }
    }
    size
}

fn write_leb128(buf: &mut Vec<u8>, mut value: u32) {
    loop {
        let mut byte: u8 = (value & 0x7F) as u8;
        value >>= 7;
        if value != 0 {
            byte |= 0x80;
        }
        buf.push(byte);
        if value == 0 {
            break;
        }
    }
}
