use assemblyscript_source_map::{
    as_entries_to_source_locations, decode_vlq, extract_source_map_from_wasm, parse_mappings,
    parse_source_map, try_build_as_line_cache, AsMappingEntry,
};
use base64::Engine as _;

// ---- VLQ values ----

#[test]
fn vlq_two_digits_value() {
    // '2' = 54: continuation, bits 22; 'H' = 7: bits 7 → 22 + 7 * 32 = 246 → +123
    assert_eq!(decode_vlq(b"2H", 0), Some((123, 2)));
}

#[test]
fn vlq_decodes_from_start_offset() {
    assert_eq!(decode_vlq(b"AC", 1), Some((1, 1)));
    assert_eq!(decode_vlq(b"AC", 2), None);
    assert_eq!(decode_vlq(b"AC", 7), None);
}

#[test]
fn vlq_unterminated_value_is_none() {
    assert_eq!(decode_vlq(b"g", 0), None);
    assert_eq!(decode_vlq(b"g!", 0), None);
}

#[test]
fn vlq_stops_at_first_terminating_digit() {
    assert_eq!(decode_vlq(b"CAAA", 0), Some((1, 1)));
}

#[test]
fn vlq_long_value_wraps_in_32_bits() {
    // The eighth digit lands at bit 35, which wraps around to bit 3.
    assert_eq!(decode_vlq(b"gggggggB", 0), Some((4, 8)));
}

// ---- Mappings ----

#[test]
fn mappings_one_field_segment_has_no_source() {
    let lines = parse_mappings("C");
    assert_eq!(lines.len(), 1);
    assert_eq!(lines[0][0].generated_column, 1);
    assert_eq!(lines[0][0].source_index, None);
    assert_eq!(lines[0][0].original_line, None);
    assert_eq!(lines[0][0].original_column, None);
    assert_eq!(lines[0][0].name_index, None);
}

#[test]
fn mappings_two_field_segment_has_no_source() {
    let lines = parse_mappings("AC");
    assert_eq!(lines[0][0].source_index, None);
    assert_eq!(lines[0][0].original_column, None);
}

#[test]
fn mappings_five_field_segment_has_name() {
    let lines = parse_mappings("AAAAC");
    assert_eq!(lines[0][0].source_index, Some(0));
    assert_eq!(lines[0][0].name_index, Some(1));
}

#[test]
fn mappings_invalid_character_ends_segment() {
    // '!' ends the first segment; what follows starts another one
    let lines = parse_mappings("AAAA!C");
    assert_eq!(lines.len(), 1);
    assert_eq!(lines[0].len(), 2);
    assert_eq!(lines[0][0].source_index, Some(0));
    assert_eq!(lines[0][1].generated_column, 1);
    assert_eq!(lines[0][1].source_index, None);
}

#[test]
fn mappings_empty_segments_are_dropped() {
    let lines = parse_mappings(",,AAAA,,");
    assert_eq!(lines.len(), 1);
    assert_eq!(lines[0].len(), 1);
}

#[test]
fn mappings_line_count_follows_separators() {
    assert_eq!(parse_mappings("AAAA;").len(), 1);
    assert_eq!(parse_mappings(";;").len(), 2);
    assert_eq!(parse_mappings(";;AAAA").len(), 3);
}

#[test]
fn mappings_generated_column_resets_per_line() {
    let lines = parse_mappings("EAAA;CAAA");
    assert_eq!(lines[0][0].generated_column, 2);
    assert_eq!(lines[1][0].generated_column, 1);
}

#[test]
fn mappings_source_values_carry_over_lines() {
    let lines = parse_mappings("ACCC;ACCC");
    assert_eq!(lines[1][0].source_index, Some(2));
    assert_eq!(lines[1][0].original_line, Some(2));
    assert_eq!(lines[1][0].original_column, Some(2));
}

#[test]
fn mappings_negative_column_wraps() {
    let lines = parse_mappings("D");
    assert_eq!(lines[0][0].generated_column, u32::MAX);
}

// ---- Source maps ----

fn source_map(sources: &str, mappings: &str, extra: &str) -> String {
    format!(
        r#"{{"version":3,"sources":{},"mappings":"{}"{}}}"#,
        sources, mappings, extra
    )
}

#[test]
fn source_map_without_names_is_accepted() {
    let entries = parse_source_map(&source_map(r#"["a.ts"]"#, "AAAA", "")).unwrap();
    assert_eq!(entries.len(), 1);
    assert_eq!(entries[0].file, "a.ts");
    assert_eq!(entries[0].column, Some(0));
}

#[test]
fn source_map_missing_mappings_is_none() {
    assert!(parse_source_map(r#"{"version":3,"sources":["a.ts"]}"#).is_none());
}

#[test]
fn source_map_names_of_wrong_type_is_none() {
    assert!(parse_source_map(&source_map(r#"["a.ts"]"#, "AAAA", r#","names":5"#)).is_none());
}

#[test]
fn source_map_version_as_string_is_none() {
    assert!(
        parse_source_map(r#"{"version":"3","sources":["a.ts"],"mappings":"AAAA"}"#).is_none()
    );
}

#[test]
fn source_map_null_source_root_means_none() {
    let entries =
        parse_source_map(&source_map(r#"["a.ts"]"#, "AAAA", r#","sourceRoot":null"#)).unwrap();
    assert_eq!(entries[0].file, "a.ts");
}

#[test]
fn source_map_source_root_trailing_slashes_trimmed() {
    let entries =
        parse_source_map(&source_map(r#"["a.ts"]"#, "AAAA", r#","sourceRoot":"root///""#))
            .unwrap();
    assert_eq!(entries[0].file, "root/a.ts");
}

#[test]
fn source_map_source_index_out_of_range_is_none() {
    assert!(parse_source_map(&source_map(r#"["a.ts"]"#, "ACAA", "")).is_none());
}

#[test]
fn source_map_segments_without_source_are_skipped() {
    let entries = parse_source_map(&source_map(r#"["a.ts"]"#, "A,AAAA", "")).unwrap();
    assert_eq!(entries.len(), 1);
}

#[test]
fn source_map_entries_are_sorted() {
    // generated columns 2 then 1; original lines 0 then 1
    let entries = parse_source_map(&source_map(r#"["a.ts"]"#, "EAAA,DACA", "")).unwrap();
    assert_eq!(entries.len(), 2);
    assert_eq!(entries[0].wasm_offset, 1);
    assert_eq!(entries[0].line, 2);
    assert_eq!(entries[1].wasm_offset, 2);
    assert_eq!(entries[1].line, 1);
}

#[test]
fn source_map_sort_is_stable() {
    let entries = parse_source_map(&source_map(r#"["a.ts"]"#, "AAAA,AACA,AACA", "")).unwrap();
    assert_eq!(entries.len(), 3);
    assert_eq!(entries[0].line, 1);
    assert_eq!(entries[1].line, 2);
    assert_eq!(entries[2].line, 3);
}

#[test]
fn source_map_offset_combines_line_and_column() {
    let entries = parse_source_map(&source_map(r#"["a.ts"]"#, "AAAA;CAAA", "")).unwrap();
    assert_eq!(entries[1].wasm_offset, 65536 + 1);
}

#[test]
fn source_map_line_wraps_around() {
    // original line -1 is u32::MAX, one more wraps to 0
    let entries = parse_source_map(&source_map(r#"["a.ts"]"#, "AADA", "")).unwrap();
    assert_eq!(entries[0].line, 0);
}

#[test]
fn source_map_as_array_of_fields() {
    let entries = parse_source_map(r#"[3, ["a.ts"], [], "AAAA"]"#).unwrap();
    assert_eq!(entries[0].file, "a.ts");
    let entries = parse_source_map(r#"[3, ["a.ts"], [], "AAAA", "r"]"#).unwrap();
    assert_eq!(entries[0].file, "r/a.ts");
}

#[test]
fn source_map_array_of_wrong_length_is_none() {
    assert!(parse_source_map(r#"[3, ["a.ts"], []]"#).is_none());
    assert!(parse_source_map(r#"[3, ["a.ts"], [], "AAAA", null, 1]"#).is_none());
}

// ---- Source locations ----

#[test]
fn locations_last_entry_wins() {
    let entries = vec![
        AsMappingEntry { wasm_offset: 7, file: "a.ts".to_string(), line: 1, column: None },
        AsMappingEntry { wasm_offset: 7, file: "b.ts".to_string(), line: 2, column: Some(3) },
        AsMappingEntry { wasm_offset: 9, file: "c.ts".to_string(), line: 4, column: None },
    ];
    let locations = as_entries_to_source_locations(&entries);
    assert_eq!(locations.len(), 2);
    let loc = locations.get(&7).unwrap();
    assert_eq!(loc.file, "b.ts");
    assert_eq!(loc.line, 2);
    assert_eq!(loc.column, Some(3));
    assert_eq!(loc.column_end, None);
}

#[test]
fn locations_of_no_entries_is_empty() {
    assert!(as_entries_to_source_locations(&[]).is_empty());
}

// ---- WebAssembly custom sections ----

const JSON: &str = r#"{"version":3,"sources":["t.ts"],"names":[],"mappings":"AAAA"}"#;

#[test]
fn extract_data_uri_with_charset() {
    let encoded = base64::engine::general_purpose::STANDARD.encode(JSON);
    let uri = format!("data:application/json;charset=utf-8;base64,{}", encoded);
    let wasm = wasm_with_sections(&[("sourceMappingURL", uri.as_bytes())]);
    assert_eq!(extract_source_map_from_wasm(&wasm), Some(JSON.to_string()));
}

#[test]
fn extract_data_uri_trims_white_space() {
    let encoded = base64::engine::general_purpose::STANDARD.encode(JSON);
    let uri = format!("data:application/json;base64, \n{}\n\u{a0}", encoded);
    let wasm = wasm_with_sections(&[("sourceMappingURL", uri.as_bytes())]);
    assert_eq!(extract_source_map_from_wasm(&wasm), Some(JSON.to_string()));
}

#[test]
fn extract_plain_url_is_returned() {
    let wasm = wasm_with_sections(&[("sourceMappingURL", b"https://example.com/a.map")]);
    assert_eq!(
        extract_source_map_from_wasm(&wasm),
        Some("https://example.com/a.map".to_string())
    );
}

#[test]
fn extract_bad_base64_returns_url() {
    let uri = "data:application/json;base64,!!!";
    let wasm = wasm_with_sections(&[("sourceMappingURL", uri.as_bytes())]);
    assert_eq!(extract_source_map_from_wasm(&wasm), Some(uri.to_string()));
}

#[test]
fn extract_skips_section_that_is_not_utf8() {
    let wasm = wasm_with_sections(&[("sourceMap", &[0xff, 0xfe]), ("sourceMap", JSON.as_bytes())]);
    assert_eq!(extract_source_map_from_wasm(&wasm), Some(JSON.to_string()));
}

#[test]
fn extract_ignores_other_sections() {
    let wasm = wasm_with_sections(&[("name", b"xyz"), ("sourceMap", JSON.as_bytes())]);
    assert_eq!(extract_source_map_from_wasm(&wasm), Some(JSON.to_string()));
}

#[test]
fn extract_first_section_wins() {
    let wasm = wasm_with_sections(&[("sourceMap", b"first"), ("sourceMap", b"second")]);
    assert_eq!(extract_source_map_from_wasm(&wasm), Some("first".to_string()));
}

#[test]
fn extract_from_bytes_that_are_not_wasm_is_none() {
    assert_eq!(extract_source_map_from_wasm(b"not wasm"), None);
}

#[test]
fn line_cache_accepts_leading_white_space() {
    let json = format!(" \n\t{}", JSON);
    let wasm = wasm_with_sections(&[("sourceMap", json.as_bytes())]);
    let entries = try_build_as_line_cache(&wasm).unwrap();
    assert_eq!(entries[0].file, "t.ts");
}

#[test]
fn line_cache_from_data_uri() {
    let encoded = base64::engine::general_purpose::STANDARD.encode(JSON);
    let uri = format!("data:application/json;base64,{}", encoded);
    let wasm = wasm_with_sections(&[("sourceMappingURL", uri.as_bytes())]);
    let entries = try_build_as_line_cache(&wasm).unwrap();
    assert_eq!(entries.len(), 1);
    assert_eq!(entries[0].line, 1);
}

#[test]
fn line_cache_of_unparsable_json_is_none() {
    let wasm = wasm_with_sections(&[("sourceMap", b"{ not json")]);
    assert!(try_build_as_line_cache(&wasm).is_none());
}

// ---- Helpers ----

fn wasm_with_sections(sections: &[(&str, &[u8])]) -> Vec<u8> {
    let mut wasm: Vec<u8> = vec![0x00, 0x61, 0x73, 0x6d, 0x01, 0x00, 0x00, 0x00];
    for (name, data) in sections {
        let name_bytes = name.as_bytes();
        let mut body: Vec<u8> = Vec::new();
        write_leb128(&mut body, name_bytes.len() as u32);
        body.extend_from_slice(name_bytes);
        body.extend_from_slice(data);
        wasm.push(0x00);
        write_leb128(&mut wasm, body.len() as u32);
        wasm.extend_from_slice(&body);
    }
    wasm
}

fn write_leb128(buf: &mut Vec<u8>, mut value: u32) {
    loop {
        let mut byte: u8 = (value & 0x7F) as u8;
        value >>= 7;
        if value != 0 {
            byte |= 0x80;
        }
        buf.push(byte);
        if value == 0 {
            break;
        }
    }
}

// ---- Verified consumers of outside results ----

use assemblyscript_source_map::json::{source_map_from_elements, source_map_from_members, SourceMapV3};
use assemblyscript_source_map::source_map::source_map_table;
use assemblyscript_source_map::text::is_white_space;
use assemblyscript_source_map::wasm::{data_uri_text, source_map_from_payloads, WasmPayload};

#[test]
fn payloads_first_source_map_wins() {
    let payloads = vec![
        WasmPayload::Other,
        WasmPayload::CustomSection { name: "name".to_string(), data: b"x".to_vec() },
        WasmPayload::CustomSection { name: "sourceMap".to_string(), data: b"{}".to_vec() },
        WasmPayload::CustomSection { name: "sourceMap".to_string(), data: b"later".to_vec() },
    ];
    assert_eq!(source_map_from_payloads(&payloads), Some("{}".to_string()));
}

#[test]
fn payloads_url_and_malformed() {
    let payloads = vec![
        WasmPayload::CustomSection { name: "sourceMappingURL".to_string(), data: vec![0xff] },
        WasmPayload::Malformed,
    ];
    assert_eq!(source_map_from_payloads(&payloads), None);
    let payloads = vec![WasmPayload::CustomSection {
        name: "sourceMappingURL".to_string(),
        data: b"data:application/json;base64,e30=".to_vec(),
    }];
    assert_eq!(source_map_from_payloads(&payloads), Some("{}".to_string()));
}

#[test]
fn members_give_source_map() {
    let members = vec![
        ("mappings".to_string(), "\"AAAA\"".to_string()),
        ("sourceRoot".to_string(), "\"src\"".to_string()),
        ("sources".to_string(), "[\"a.ts\"]".to_string()),
        ("version".to_string(), "3".to_string()),
        ("x".to_string(), "{}".to_string()),
    ];
    let m = source_map_from_members(&members).unwrap();
    assert_eq!(m.version, 3);
    assert_eq!(m.sources, vec!["a.ts".to_string()]);
    assert!(m.names.is_empty());
    assert_eq!(m.mappings, "AAAA");
    assert_eq!(m.source_root, Some("src".to_string()));
    let missing = vec![("version".to_string(), "3".to_string())];
    assert!(source_map_from_members(&missing).is_none());
}

#[test]
fn elements_give_source_map() {
    let elements = vec![
        "3".to_string(),
        "[\"a.ts\"]".to_string(),
        "[]".to_string(),
        "\"AAAA\"".to_string(),
    ];
    let m = source_map_from_elements(&elements).unwrap();
    assert_eq!(m.mappings, "AAAA");
    assert_eq!(m.source_root, None);
}

#[test]
fn table_of_source_map() {
    let m = SourceMapV3 {
        version: 3,
        sources: vec!["a.ts".to_string(), "b.ts".to_string()],
        names: vec![],
        mappings: "EAAA,DCAA;AAAA".to_string(),
        source_root: Some("r/".to_string()),
    };
    let entries = source_map_table(&m).unwrap();
    assert_eq!(entries.len(), 3);
    assert_eq!(entries[0].wasm_offset, 1);
    assert_eq!(entries[0].file, "r/b.ts");
    assert_eq!(entries[1].wasm_offset, 2);
    assert_eq!(entries[1].file, "r/a.ts");
    assert_eq!(entries[2].wasm_offset, 65536);
    assert_eq!(entries[2].file, "r/b.ts");
    let old = SourceMapV3 { version: 2, ..m };
    assert!(source_map_table(&old).is_none());
}

#[test]
fn white_space_agrees_with_char_is_whitespace() {
    for u in 0u32..=0x10ffff {
        if let Some(c) = char::from_u32(u) {
            assert_eq!(is_white_space(c), c.is_whitespace(), "{:x}", u);
        }
    }
}

#[test]
fn decoded_data_uri_text_or_url() {
    let url = "data:application/json;base64,e30=".to_string();
    assert_eq!(data_uri_text(url.clone(), Some(b"{}".to_vec())), "{}");
    assert_eq!(data_uri_text(url.clone(), Some(vec![0xc3, 0x28])), url);
    assert_eq!(data_uri_text(url.clone(), None), url);
}
