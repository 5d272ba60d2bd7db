//! Finding the source map that a WebAssembly module carries in a custom
//! section: `sourceMap` holds the JSON itself, `sourceMappingURL` a URL, which
//! may be a `data:` URI with the JSON in Base64.

use base64::Engine;
use vstd::prelude::*;
use vstd::string::StrSliceExecFns;
use vstd::utf8::encode_utf8;

use crate::text::{chars_of, has_prefix, trim, trim_str, utf8_text, utf8_to_string};

verus! {

broadcast use vstd::string::group_string_axioms;

/// A payload of a WebAssembly module, as far as the source map is concerned:
/// a custom section with its name and contents, any other payload, or the
/// error at which reading the module stopped.
pub enum WasmPayload {
    CustomSection { name: String, data: Vec<u8> },
    Other,
    Malformed,
}

pub enum WasmPayloadView {
    CustomSection { name: Seq<char>, data: Seq<u8> },
    Other,
    Malformed,
}

impl View for WasmPayload {
    type V = WasmPayloadView;

    open spec fn view(&self) -> WasmPayloadView {
        match self {
            WasmPayload::CustomSection { name, data } => WasmPayloadView::CustomSection {
                name: name@,
                data: data@,
            },
            WasmPayload::Other => WasmPayloadView::Other,
            WasmPayload::Malformed => WasmPayloadView::Malformed,
        }
    }
}

/// The payloads, in order, that `wasmparser` reads from a WebAssembly binary.
pub uninterp spec fn wasm_payloads(wasm: Seq<u8>) -> Seq<WasmPayloadView>;

/// `wasmparser::Parser::new(0).parse_all`, each payload taken as a
/// `WasmPayload`. What it yields is named by `wasm_payloads`.
#[verifier::external_body]
fn read_wasm_payloads(wasm: &[u8]) -> (r: Vec<WasmPayload>)
    ensures
        r@.map_values(|p: WasmPayload| p@) == wasm_payloads(wasm@),
{
    wasmparser::Parser::new(0).parse_all(wasm).map(|payload| match payload {
        Ok(wasmparser::Payload::CustomSection(section)) => WasmPayload::CustomSection {
            name: section.name().to_string(),
            data: section.data().to_vec(),
        },
        Ok(_) => WasmPayload::Other,
        Err(_) => WasmPayload::Malformed,
    }).collect()
}

/// What the standard Base64 engine of the `base64` crate decodes from its
/// input, or `None` where it refuses the input.
pub uninterp spec fn base64_standard_decode(input: Seq<u8>) -> Option<Seq<u8>>;

/// `base64::engine::general_purpose::STANDARD.decode`; its result is named by
/// `base64_standard_decode`.
#[verifier::external_body]
fn base64_decode(input: &[u8]) -> (r: Option<Vec<u8>>)
    ensures
        match r {
            Some(bytes) => base64_standard_decode(input@) == Some(bytes@),
            None => base64_standard_decode(input@) is None,
        },
{
    base64::engine::general_purpose::STANDARD.decode(input).ok()
}

pub open spec fn source_map_section() -> Seq<char> {
    "sourceMap"@
}

pub open spec fn source_mapping_url_section() -> Seq<char> {
    "sourceMappingURL"@
}

pub open spec fn base64_json_prefix() -> Seq<char> {
    "data:application/json;base64,"@
}

pub open spec fn base64_utf8_json_prefix() -> Seq<char> {
    "data:application/json;charset=utf-8;base64,"@
}

pub open spec fn starts_with(s: Seq<char>, p: Seq<char>) -> bool {
    p.len() <= s.len() && s.take(p.len() as int) == p
}

/// The Base64 part of a `data:` URI of JSON, or `None` for another URL.
pub open spec fn data_uri_payload(url: Seq<char>) -> Option<Seq<char>> {
    if starts_with(url, base64_json_prefix()) {
        Some(url.skip(base64_json_prefix().len() as int))
    } else if starts_with(url, base64_utf8_json_prefix()) {
        Some(url.skip(base64_utf8_json_prefix().len() as int))
    } else {
        None
    }
}

/// The text that the Base64 part of a `data:` URI holds, once the white space
/// around it is removed; `None` where it is not Base64 of UTF-8 text.
pub open spec fn decoded_data_uri(payload: Seq<char>) -> Option<Seq<char>> {
    match base64_standard_decode(encode_utf8(trim(payload))) {
        Some(bytes) => utf8_text(bytes),
        None => None,
    }
}

/// The source map text that one payload gives, or `None` where the search
/// goes on. A `sourceMap` section gives its contents, a `sourceMappingURL`
/// section the JSON of its `data:` URI, or else the URL itself; a section
/// whose contents are not UTF-8 gives nothing.
pub open spec fn payload_source_map(p: WasmPayloadView) -> Option<Seq<char>> {
    match p {
        WasmPayloadView::CustomSection { name, data } => {
            if name == source_map_section() {
                utf8_text(data)
            } else if name == source_mapping_url_section() {
                match utf8_text(data) {
                    Some(url) => match data_uri_payload(url) {
                        Some(payload) => match decoded_data_uri(payload) {
                            Some(json) => Some(json),
                            None => Some(url),
                        },
                        None => Some(url),
                    },
                    None => None,
                }
            } else {
                None
            }
        },
        _ => None,
    }
}

/// The source map text that the first payload to give one gives.
pub open spec fn first_source_map(payloads: Seq<WasmPayloadView>) -> Option<Seq<char>>
    decreases payloads.len(),
{
    if payloads.len() == 0 {
        None
    } else {
        match payload_source_map(payloads[0]) {
            Some(text) => Some(text),
            None => first_source_map(payloads.drop_first()),
        }
    }
}

/// The source map text that a WebAssembly binary carries, by `first_source_map`.
pub open spec fn wasm_source_map(wasm: Seq<u8>) -> Option<Seq<char>> {
    first_source_map(wasm_payloads(wasm))
}

/// Law: a `sourceMappingURL` section whose contents are UTF-8 text that is
/// not a `data:` URI of JSON gives that text itself, as it is (a URL that
/// callers may load), whatever it starts with.
pub proof fn law_plain_source_mapping_url(
    payloads: Seq<WasmPayloadView>,
    data: Seq<u8>,
    url: Seq<char>,
)
    requires
        payloads.len() > 0,
        payloads[0] == (WasmPayloadView::CustomSection { name: "sourceMappingURL"@, data }),
        utf8_text(data) == Some(url),
        !(url.len() >= "data:application/json;base64,"@.len() && url.take(
            "data:application/json;base64,"@.len() as int,
        ) == "data:application/json;base64,"@),
        !(url.len() >= "data:application/json;charset=utf-8;base64,"@.len() && url.take(
            "data:application/json;charset=utf-8;base64,"@.len() as int,
        ) == "data:application/json;charset=utf-8;base64,"@),
    ensures
        first_source_map(payloads) == Some(url),
{
    reveal_strlit("sourceMappingURL");
    reveal_strlit("sourceMap");
    assert("sourceMappingURL"@.len() != "sourceMap"@.len());
}

/// Law: a `sourceMap` section whose contents are UTF-8 gives that text as it
/// is.
pub proof fn law_source_map_section_text(
    payloads: Seq<WasmPayloadView>,
    data: Seq<u8>,
    text: Seq<char>,
)
    requires
        payloads.len() > 0,
        payloads[0] == (WasmPayloadView::CustomSection { name: "sourceMap"@, data }),
        utf8_text(data) == Some(text),
    ensures
        first_source_map(payloads) == Some(text),
{
}

/// The text that a Base64 `data:` payload gives: the UTF-8 text of the bytes
/// that the standard Base64 engine decodes from it, once white space around
/// it is removed; the URL itself where that fails.
pub open spec fn text_of_base64_payload(payload: Seq<char>, url: Seq<char>) -> Seq<char> {
    match base64_standard_decode(encode_utf8(trim(payload))) {
        Some(bytes) => match utf8_text(bytes) {
            Some(text) => text,
            None => url,
        },
        None => url,
    }
}

/// Law: a `sourceMappingURL` section holding `data:application/json;base64,`
/// followed by a payload gives the text that the payload decodes to, and the
/// URL itself where it does not decode to UTF-8 text.
pub proof fn law_base64_data_uri(
    payloads: Seq<WasmPayloadView>,
    data: Seq<u8>,
    url: Seq<char>,
    payload: Seq<char>,
)
    requires
        payloads.len() > 0,
        payloads[0] == (WasmPayloadView::CustomSection { name: "sourceMappingURL"@, data }),
        utf8_text(data) == Some(url),
        url == "data:application/json;base64,"@ + payload,
    ensures
        first_source_map(payloads) == Some(text_of_base64_payload(payload, url)),
{
    reveal_strlit("sourceMappingURL");
    reveal_strlit("sourceMap");
    assert("sourceMappingURL"@.len() != "sourceMap"@.len());
    let p = "data:application/json;base64,"@;
    assert(url.take(p.len() as int) =~= p);
    assert(url.skip(p.len() as int) =~= payload);
}

/// Law: the same holds of `data:application/json;charset=utf-8;base64,`.
pub proof fn law_base64_utf8_data_uri(
    payloads: Seq<WasmPayloadView>,
    data: Seq<u8>,
    url: Seq<char>,
    payload: Seq<char>,
)
    requires
        payloads.len() > 0,
        payloads[0] == (WasmPayloadView::CustomSection { name: "sourceMappingURL"@, data }),
        utf8_text(data) == Some(url),
        url == "data:application/json;charset=utf-8;base64,"@ + payload,
    ensures
        first_source_map(payloads) == Some(text_of_base64_payload(payload, url)),
{
    reveal_strlit("sourceMappingURL");
    reveal_strlit("sourceMap");
    reveal_strlit("data:application/json;base64,");
    reveal_strlit("data:application/json;charset=utf-8;base64,");
    assert("sourceMappingURL"@.len() != "sourceMap"@.len());
    let p1 = "data:application/json;base64,"@;
    let p2 = "data:application/json;charset=utf-8;base64,"@;
    assert(url[22] == 'c');
    assert(p1[22] == 'b');
    assert(url.take(p1.len() as int)[22] != p1[22]);
    assert(url.take(p2.len() as int) =~= p2);
    assert(url.skip(p2.len() as int) =~= payload);
}

pub open spec fn string_opt_view(s: Option<String>) -> Option<Seq<char>> {
    match s {
        Some(s) => Some(s@),
        None => None,
    }
}

/// The Base64 part of a `data:` URI of JSON, or `None` for another URL.
fn strip_data_uri_prefix(url: &str) -> (r: Option<&str>)
    ensures
        match r {
            Some(p) => data_uri_payload(url@) == Some(p@),
            None => data_uri_payload(url@) is None,
        },
{
    let cs = chars_of(url);
    let plain = chars_of("data:application/json;base64,");
    if has_prefix(&cs, &plain) {
        return Some(url.substring_char(plain.len(), cs.len()));
    }
    let with_charset = chars_of("data:application/json;charset=utf-8;base64,");
    if has_prefix(&cs, &with_charset) {
        return Some(url.substring_char(with_charset.len(), cs.len()));
    }
    None
}

pub open spec fn bytes_opt_view(b: Option<Vec<u8>>) -> Option<Seq<u8>> {
    match b {
        Some(b) => Some(b@),
        None => None,
    }
}

/// The text that the decoded bytes of a `data:` URI give: the bytes as text
/// where they are UTF-8, and else the URL itself.
pub open spec fn decoded_text_or_url(url: Seq<char>, decoded: Option<Seq<u8>>) -> Seq<char> {
    match decoded {
        Some(bytes) => match utf8_text(bytes) {
            Some(text) => text,
            None => url,
        },
        None => url,
    }
}

/// The text that the decoded bytes of a `data:` URI give: the bytes as text
/// where they are UTF-8, and else the URL itself.
pub fn data_uri_text(url: String, decoded: Option<Vec<u8>>) -> (r: String)
    ensures
        r@ == decoded_text_or_url(url@, bytes_opt_view(decoded)),
{
    if let Some(bytes) = decoded {
        if let Some(s) = utf8_to_string(bytes.as_slice()) {
            return s;
        }
    }
    url
}

/// What a `sourceMappingURL` section gives: the JSON of its `data:` URI, or
/// else the URL itself, so that callers can attempt external loading.
fn resolve_source_mapping_url(url: String) -> (r: String)
    ensures
        r@ == match data_uri_payload(url@) {
            Some(payload) => match decoded_data_uri(payload) {
                Some(json) => json,
                None => url@,
            },
            None => url@,
        },
{
    // Check for data URI with inline JSON
    let decoded = match strip_data_uri_prefix(url.as_str()) {
        Some(json) => {
            let trimmed = trim_str(json);
            base64_decode(trimmed.as_bytes())
        },
        // Plain URL reference — not supported for embedded resolution,
        // but return the URL so callers can attempt external loading
        None => return url,
    };
    data_uri_text(url, decoded)
}

/// The source map text that the first payload to give one gives, by
/// `first_source_map`.
pub fn source_map_from_payloads(payloads: &Vec<WasmPayload>) -> (r: Option<String>)
    ensures
        string_opt_view(r) == first_source_map(payloads@.map_values(|p: WasmPayload| p@)),
{
    let ghost views = payloads@.map_values(|p: WasmPayload| p@);
    let source_map_name = "sourceMap".to_string();
    let source_mapping_url_name = "sourceMappingURL".to_string();
    let mut i: usize = 0;
    assert(views.skip(0) =~= views);
    while i < payloads.len()
        invariant
            i <= payloads.len(),
            views == payloads@.map_values(|p: WasmPayload| p@),
            source_map_name@ == source_map_section(),
            source_mapping_url_name@ == source_mapping_url_section(),
            first_source_map(views) == first_source_map(views.skip(i as int)),
        decreases payloads.len() - i,
    {
        assert(views.skip(i as int)[0] == payloads@[i as int]@);
        assert(views.skip(i as int).drop_first() =~= views.skip(i + 1));
        match &payloads[i] {
            WasmPayload::CustomSection { name, data } => {
                if *name == source_map_name {
                    // Raw JSON source map embedded directly
                    if let Some(json) = utf8_to_string(data.as_slice()) {
                        return Some(json);
                    }
                } else if *name == source_mapping_url_name {
                    if let Some(url) = utf8_to_string(data.as_slice()) {
                        return Some(resolve_source_mapping_url(url));
                    }
                }
            },
            _ => {},
        }
        i += 1;
    }
    assert(views.skip(i as int) =~= seq![]);
    None
}

/// Extract a source map JSON string from WASM custom sections.
///
/// Looks for custom sections named `sourceMappingURL` (containing the
/// inline source map data as a data URI) or `sourceMap` (containing the
/// raw JSON directly).
pub fn extract_source_map_from_wasm(wasm_bytes: &[u8]) -> (r: Option<String>)
    ensures
        string_opt_view(r) == wasm_source_map(wasm_bytes@),
{
    let payloads = read_wasm_payloads(wasm_bytes);
    source_map_from_payloads(&payloads)
}

} // verus!
