//! The Source Map V3 structure, read from JSON text through `serde_json`.

use vstd::prelude::*;

verus! {

broadcast use vstd::string::group_string_axioms;

/// Parsed Source Map V3 JSON structure.
pub struct SourceMapV3 {
    pub version: u32,
    pub sources: Vec<String>,
    pub names: Vec<String>,
    pub mappings: String,
    pub source_root: Option<String>,
}

pub struct SourceMapV3View {
    pub version: u32,
    pub sources: Seq<Seq<char>>,
    pub names: Seq<Seq<char>>,
    pub mappings: Seq<char>,
    pub source_root: Option<Seq<char>>,
}

pub open spec fn strings_view(v: Seq<String>) -> Seq<Seq<char>> {
    v.map_values(|s: String| s@)
}

impl View for SourceMapV3 {
    type V = SourceMapV3View;

    open spec fn view(&self) -> SourceMapV3View {
        SourceMapV3View {
            version: self.version,
            sources: strings_view(self.sources@),
            names: strings_view(self.names@),
            mappings: self.mappings@,
            source_root: match self.source_root {
                Some(s) => Some(s@),
                None => None,
            },
        }
    }
}

/// The members of the JSON object that `text` holds, each key with the JSON
/// text of its value, as `serde_json` reads them into a map (a repeated key
/// keeps its last value); `None` where `text` is not a JSON object.
pub uninterp spec fn json_object_members(text: Seq<char>) -> Option<Seq<(Seq<char>, Seq<char>)>>;

/// The `u32` that a JSON text holds, as `serde_json` reads it.
pub uninterp spec fn json_u32(text: Seq<char>) -> Option<u32>;

/// The string that a JSON text holds, as `serde_json` reads it.
pub uninterp spec fn json_string(text: Seq<char>) -> Option<Seq<char>>;

/// The array of strings that a JSON text holds, as `serde_json` reads it.
pub uninterp spec fn json_strings(text: Seq<char>) -> Option<Seq<Seq<char>>>;

/// The string or `null` that a JSON text holds, as `serde_json` reads it.
pub uninterp spec fn json_optional_string(text: Seq<char>) -> Option<Option<Seq<char>>>;

pub open spec fn members_view(v: Seq<(String, String)>) -> Seq<(Seq<char>, Seq<char>)> {
    v.map_values(|p: (String, String)| (p.0@, p.1@))
}

/// `serde_json::from_str` into a map from keys to raw JSON values; its result
/// is named by `json_object_members`.
#[verifier::external_body]
fn read_json_object(text: &str) -> (r: Option<Vec<(String, String)>>)
    ensures
        match r {
            Some(members) => json_object_members(text@) == Some(members_view(members@)),
            None => json_object_members(text@) is None,
        },
{
    serde_json::from_str::<std::collections::BTreeMap<String, Box<serde_json::value::RawValue>>>(
        text,
    ).ok().map(|members| members.into_iter().map(|(key, value)| (key, value.get().to_string())).collect())
}

/// The elements of the JSON array that `text` holds, each as its JSON text,
/// as `serde_json` reads them; `None` where `text` is not a JSON array.
pub uninterp spec fn json_array_elements(text: Seq<char>) -> Option<Seq<Seq<char>>>;

/// `serde_json::from_str` into a sequence of raw JSON values; its result is
/// named by `json_array_elements`.
#[verifier::external_body]
fn read_json_array(text: &str) -> (r: Option<Vec<String>>)
    ensures
        match r {
            Some(elements) => json_array_elements(text@) == Some(strings_view(elements@)),
            None => json_array_elements(text@) is None,
        },
{
    serde_json::from_str::<Vec<Box<serde_json::value::RawValue>>>(text).ok().map(
        |elements| elements.into_iter().map(|value| value.get().to_string()).collect(),
    )
}

/// `serde_json::from_str::<u32>`; its result is named by `json_u32`.
#[verifier::external_body]
fn read_json_u32(text: &str) -> (r: Option<u32>)
    ensures
        r == json_u32(text@),
{
    serde_json::from_str::<u32>(text).ok()
}

/// `serde_json::from_str::<String>`; its result is named by `json_string`.
#[verifier::external_body]
fn read_json_string(text: &str) -> (r: Option<String>)
    ensures
        match r {
            Some(s) => json_string(text@) == Some(s@),
            None => json_string(text@) is None,
        },
{
    serde_json::from_str::<String>(text).ok()
}

/// `serde_json::from_str::<Vec<String>>`; its result is named by `json_strings`.
#[verifier::external_body]
fn read_json_strings(text: &str) -> (r: Option<Vec<String>>)
    ensures
        match r {
            Some(v) => json_strings(text@) == Some(strings_view(v@)),
            None => json_strings(text@) is None,
        },
{
    serde_json::from_str::<Vec<String>>(text).ok()
}

/// `serde_json::from_str::<Option<String>>`; its result is named by
/// `json_optional_string`.
#[verifier::external_body]
fn read_json_optional_string(text: &str) -> (r: Option<Option<String>>)
    ensures
        match r {
            Some(Some(s)) => json_optional_string(text@) == Some(Some(s@)),
            Some(None) => json_optional_string(text@) == Some(None::<Seq<char>>),
            None => json_optional_string(text@) is None,
        },
{
    serde_json::from_str::<Option<String>>(text).ok()
}

/// The JSON text of the first member with the given key.
pub open spec fn member_value(members: Seq<(Seq<char>, Seq<char>)>, key: Seq<char>) -> Option<Seq<char>>
    decreases members.len(),
{
    if members.len() == 0 {
        None
    } else if members[0].0 == key {
        Some(members[0].1)
    } else {
        member_value(members.drop_first(), key)
    }
}

/// The JSON texts of the five fields of a source map, in the order
/// `version`, `sources`, `names`, `mappings`, `sourceRoot`; `None` for a
/// missing field.
pub type FieldTexts = (
    Option<Seq<char>>,
    Option<Seq<char>>,
    Option<Seq<char>>,
    Option<Seq<char>>,
    Option<Seq<char>>,
);

/// The fields of a source map written as a JSON object, by key.
pub open spec fn object_fields(members: Seq<(Seq<char>, Seq<char>)>) -> FieldTexts {
    (
        member_value(members, "version"@),
        member_value(members, "sources"@),
        member_value(members, "names"@),
        member_value(members, "mappings"@),
        member_value(members, "sourceRoot"@),
    )
}

pub open spec fn element(elements: Seq<Seq<char>>, i: int) -> Option<Seq<char>> {
    if i < elements.len() {
        Some(elements[i])
    } else {
        None
    }
}

/// The fields of a source map written as a JSON array, by position; `None`
/// where the array has more than five elements.
pub open spec fn array_fields(elements: Seq<Seq<char>>) -> Option<FieldTexts> {
    if elements.len() > 5 {
        None
    } else {
        Some(
            (
                element(elements, 0),
                element(elements, 1),
                element(elements, 2),
                element(elements, 3),
                element(elements, 4),
            ),
        )
    }
}

/// The source map that the texts of its fields give: `version`, `sources`
/// and `mappings` are required, `names` defaults to no name and `sourceRoot`
/// to none. `None` where a required field is missing or a field has the
/// wrong type.
pub open spec fn source_map_from_fields(fields: FieldTexts) -> Option<SourceMapV3View> {
    let version = match fields.0 {
        Some(t) => json_u32(t),
        None => None,
    };
    let sources = match fields.1 {
        Some(t) => json_strings(t),
        None => None,
    };
    let names = match fields.2 {
        Some(t) => json_strings(t),
        None => Some(seq![]),
    };
    let mappings = match fields.3 {
        Some(t) => json_string(t),
        None => None,
    };
    let source_root = match fields.4 {
        Some(t) => json_optional_string(t),
        None => Some(None),
    };
    if version is Some && sources is Some && names is Some && mappings is Some
        && source_root is Some {
        Some(
            SourceMapV3View {
                version: version.unwrap(),
                sources: sources.unwrap(),
                names: names.unwrap(),
                mappings: mappings.unwrap(),
                source_root: source_root.unwrap(),
            },
        )
    } else {
        None
    }
}

/// The Source Map V3 structure that a JSON text holds, written as an object
/// (other members are ignored, and of a repeated member the last counts) or
/// as an array of the fields in order.
pub open spec fn decode_source_map(text: Seq<char>) -> Option<SourceMapV3View> {
    match json_object_members(text) {
        Some(members) => source_map_from_fields(object_fields(members)),
        None => match json_array_elements(text) {
            Some(elements) => match array_fields(elements) {
                Some(fields) => source_map_from_fields(fields),
                None => None,
            },
            None => None,
        },
    }
}

proof fn lemma_member_value_push(
    members: Seq<(Seq<char>, Seq<char>)>,
    member: (Seq<char>, Seq<char>),
    key: Seq<char>,
)
    ensures
        member_value(members.push(member), key) == match member_value(members, key) {
            Some(t) => Some(t),
            None => if member.0 == key {
                Some(member.1)
            } else {
                None
            },
        },
    decreases members.len(),
{
    if members.len() > 0 {
        assert(members.push(member)[0] == members[0]);
        assert(members.push(member).drop_first() =~= members.drop_first().push(member));
        lemma_member_value_push(members.drop_first(), member, key);
        if members[0].0 != key {
            assert(member_value(members, key) == member_value(members.drop_first(), key));
            assert(member_value(members.push(member), key) == member_value(
                members.push(member).drop_first(),
                key,
            ));
        }
    } else {
        let one = members.push(member);
        assert(one[0] == member);
        assert(one.drop_first() =~= Seq::<(Seq<char>, Seq<char>)>::empty());
        assert(member_value(one.drop_first(), key) is None);
        assert(member_value(members, key) is None);
    }
}

/// Law: members with keys other than the five fields change nothing.
pub proof fn law_other_members_ignored(
    members: Seq<(Seq<char>, Seq<char>)>,
    member: (Seq<char>, Seq<char>),
)
    requires
        member.0 != "version"@,
        member.0 != "sources"@,
        member.0 != "names"@,
        member.0 != "mappings"@,
        member.0 != "sourceRoot"@,
    ensures
        source_map_from_fields(object_fields(members.push(member))) == source_map_from_fields(
            object_fields(members),
        ),
{
    lemma_member_value_push(members, member, "version"@);
    lemma_member_value_push(members, member, "sources"@);
    lemma_member_value_push(members, member, "names"@);
    lemma_member_value_push(members, member, "mappings"@);
    lemma_member_value_push(members, member, "sourceRoot"@);
}

/// Law: a missing `names` member reads as an empty list of names, and a
/// missing `sourceRoot` member as a `null` one.
pub proof fn law_optional_members(
    members: Seq<(Seq<char>, Seq<char>)>,
    member: (Seq<char>, Seq<char>),
)
    requires
        member_value(members, member.0) is None,
        (member.0 == "names"@ && json_strings(member.1) == Some(Seq::<Seq<char>>::empty())) || (
        member.0 == "sourceRoot"@ && json_optional_string(member.1) == Some(None::<Seq<char>>)),
    ensures
        source_map_from_fields(object_fields(members.push(member))) == source_map_from_fields(
            object_fields(members),
        ),
{
    reveal_strlit("names");
    reveal_strlit("sourceRoot");
    reveal_strlit("version");
    reveal_strlit("sources");
    reveal_strlit("mappings");
    lemma_member_value_push(members, member, "version"@);
    lemma_member_value_push(members, member, "sources"@);
    lemma_member_value_push(members, member, "names"@);
    lemma_member_value_push(members, member, "mappings"@);
    lemma_member_value_push(members, member, "sourceRoot"@);
    assert("names"@.len() == 5 && "version"@.len() == 7 && "sources"@.len() == 7);
    assert("mappings"@.len() == 8 && "sourceRoot"@.len() == 10);
    assert("names"@ != "version"@ && "names"@ != "sources"@ && "names"@ != "mappings"@);
    assert("sourceRoot"@ != "version"@ && "sourceRoot"@ != "sources"@ && "sourceRoot"@ != "mappings"@
        && "sourceRoot"@ != "names"@);
}

/// The JSON text of the first member with the given key.
fn find_member<'a>(members: &'a Vec<(String, String)>, key: &str) -> (r: Option<&'a str>)
    ensures
        match r {
            Some(t) => member_value(members_view(members@), key@) == Some(t@),
            None => member_value(members_view(members@), key@) is None,
        },
{
    let wanted = key.to_string();
    assert(wanted@ == key@);
    let ghost mv = members_view(members@);
    let mut i: usize = 0;
    assert(mv.skip(0) =~= mv);
    while i < members.len()
        invariant
            i <= members.len(),
            mv == members_view(members@),
            member_value(mv, key@) == member_value(mv.skip(i as int), key@),
            wanted@ == key@,
        decreases members.len() - i,
    {
        assert(mv.skip(i as int)[0] == mv[i as int]);
        assert(mv.skip(i as int).drop_first() =~= mv.skip(i + 1));
        assert(mv[i as int] == (members@[i as int].0@, members@[i as int].1@));
        if members[i].0 == wanted {
            return Some(members[i].1.as_str());
        }
        i += 1;
    }
    assert(mv.skip(i as int) =~= seq![]);
    None
}

pub open spec fn text_opt_view(t: Option<&str>) -> Option<Seq<char>> {
    match t {
        Some(t) => Some(t@),
        None => None,
    }
}

/// The source map that the texts of its fields give.
fn source_map_from_texts(
    version: Option<&str>,
    sources: Option<&str>,
    names: Option<&str>,
    mappings: Option<&str>,
    source_root: Option<&str>,
) -> (r: Option<SourceMapV3>)
    ensures
        match r {
            Some(m) => source_map_from_fields(
                (
                    text_opt_view(version),
                    text_opt_view(sources),
                    text_opt_view(names),
                    text_opt_view(mappings),
                    text_opt_view(source_root),
                ),
            ) == Some(m@),
            None => source_map_from_fields(
                (
                    text_opt_view(version),
                    text_opt_view(sources),
                    text_opt_view(names),
                    text_opt_view(mappings),
                    text_opt_view(source_root),
                ),
            ) is None,
        },
{
    let ghost fields = (
        text_opt_view(version),
        text_opt_view(sources),
        text_opt_view(names),
        text_opt_view(mappings),
        text_opt_view(source_root),
    );
    let version_value = match version {
        Some(t) => read_json_u32(t),
        None => None,
    };
    let sources_value = match sources {
        Some(t) => read_json_strings(t),
        None => None,
    };
    let names_value = match names {
        Some(t) => read_json_strings(t),
        None => Some(Vec::new()),
    };
    let mappings_value = match mappings {
        Some(t) => read_json_string(t),
        None => None,
    };
    let source_root_value = match source_root {
        Some(t) => read_json_optional_string(t),
        None => Some(None),
    };
    match (version_value, sources_value, names_value, mappings_value, source_root_value) {
        (Some(v), Some(srcs), Some(nms), Some(maps), Some(root)) => {
            let m = SourceMapV3 {
                version: v,
                sources: srcs,
                names: nms,
                mappings: maps,
                source_root: root,
            };
            proof {
                if names is None {
                    assert(strings_view(m.names@) =~= seq![]);
                }
                let spec_map = source_map_from_fields(fields).unwrap();
                assert(spec_map.version == m@.version);
                assert(spec_map.sources == m@.sources);
                assert(spec_map.names == m@.names);
                assert(spec_map.mappings == m@.mappings);
                assert(spec_map.source_root == m@.source_root);
            }
            Some(m)
        },
        _ => None,
    }
}

/// The element at `i`, where there is one.
fn element_text(elements: &Vec<String>, i: usize) -> (r: Option<&str>)
    ensures
        text_opt_view(r) == element(strings_view(elements@), i as int),
{
    if i < elements.len() {
        Some(elements[i].as_str())
    } else {
        None
    }
}

pub open spec fn source_map_opt_view(r: Option<SourceMapV3>) -> Option<SourceMapV3View> {
    match r {
        Some(m) => Some(m@),
        None => None,
    }
}

/// The source map that the members of a JSON object give, each member a key
/// with the JSON text of its value.
pub fn source_map_from_members(members: &Vec<(String, String)>) -> (r: Option<SourceMapV3>)
    ensures
        source_map_opt_view(r) == source_map_from_fields(object_fields(members_view(members@))),
{
    source_map_from_texts(
        find_member(members, "version"),
        find_member(members, "sources"),
        find_member(members, "names"),
        find_member(members, "mappings"),
        find_member(members, "sourceRoot"),
    )
}

/// The source map that the elements of a JSON array give, each element as
/// its JSON text.
pub fn source_map_from_elements(elements: &Vec<String>) -> (r: Option<SourceMapV3>)
    ensures
        source_map_opt_view(r) == match array_fields(strings_view(elements@)) {
            Some(fields) => source_map_from_fields(fields),
            None => None,
        },
{
    if elements.len() > 5 {
        return None;
    }
    source_map_from_texts(
        element_text(elements, 0),
        element_text(elements, 1),
        element_text(elements, 2),
        element_text(elements, 3),
        element_text(elements, 4),
    )
}

/// Read a Source Map V3 structure from JSON text.
pub fn read_source_map(text: &str) -> (r: Option<SourceMapV3>)
    ensures
        source_map_opt_view(r) == decode_source_map(text@),
{
    match read_json_object(text) {
        Some(members) => source_map_from_members(&members),
        None => match read_json_array(text) {
            Some(elements) => source_map_from_elements(&elements),
            None => None,
        },
    }
}

} // verus!
