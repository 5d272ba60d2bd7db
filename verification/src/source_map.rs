//! Mapping tables from WebAssembly byte offsets to original AssemblyScript
//! source locations.

use vstd::prelude::*;
use vstd::string::StrSliceExecFns;
use vstd::utf8::encode_utf8;

use crate::json::{decode_source_map, read_source_map, SourceMapV3, SourceMapV3View};
use crate::mappings::{decoded_mappings, lines_view, parse_mappings, MappingSegment};
use crate::text::{
    chars_of, first_non_white_space_is, lemma_leading_white_space, lemma_leading_white_space_is,
    trim_start, white_space,
};
use crate::wasm::{extract_source_map_from_wasm, wasm_source_map};

verus! {

broadcast use vstd::string::group_string_axioms;

/// Resolved source location from an AssemblyScript source map.
#[derive(Debug, Clone)]
pub struct AsMappingEntry {
    pub wasm_offset: u64,
    pub file: String,
    pub line: u32,
    pub column: Option<u32>,
}

pub struct AsMappingEntryView {
    pub wasm_offset: u64,
    pub file: Seq<char>,
    pub line: u32,
    pub column: Option<u32>,
}

impl View for AsMappingEntry {
    type V = AsMappingEntryView;

    open spec fn view(&self) -> AsMappingEntryView {
        AsMappingEntryView {
            wasm_offset: self.wasm_offset,
            file: self.file@,
            line: self.line,
            column: self.column,
        }
    }
}

pub open spec fn entries_view(entries: Seq<AsMappingEntry>) -> Seq<AsMappingEntryView> {
    entries.map_values(|e: AsMappingEntry| e@)
}

/// `s` without the `/` characters at its end.
pub open spec fn trim_end_slashes(s: Seq<char>) -> Seq<char>
    decreases s.len(),
{
    if s.len() > 0 && s.last() == '/' {
        trim_end_slashes(s.drop_last())
    } else {
        s
    }
}

/// The path of a source file: the source root, where there is one, without
/// its trailing slashes, then `/`, then the file.
pub open spec fn file_path(source_root: Seq<char>, source: Seq<char>) -> Seq<char> {
    if source_root.len() == 0 {
        source
    } else {
        trim_end_slashes(source_root) + "/"@ + source
    }
}

/// The offset that stands for a generated line and column: 65536 per line
/// plus the column, in 64 bits (wrapping around).
pub open spec fn combined_offset(line: int, column: u32) -> u64 {
    ((line * 65536 + column) % 0x1_0000_0000_0000_0000) as u64
}

/// What a segment on the given generated line gives: `None` where its source
/// index lies outside the sources (the whole table then fails), `Some(None)`
/// where it has no source or no original line, and else the entry. Source map
/// lines are 0-based, entry lines 1-based (the sum wraps in 32 bits).
pub open spec fn segment_entry(
    sm: SourceMapV3View,
    line: int,
    seg: MappingSegment,
) -> Option<Option<AsMappingEntryView>> {
    match (seg.source_index, seg.original_line) {
        (Some(src), Some(orig_line)) => if src < sm.sources.len() {
            Some(
                Some(
                    AsMappingEntryView {
                        wasm_offset: combined_offset(line, seg.generated_column),
                        file: file_path(
                            match sm.source_root {
                                Some(r) => r,
                                None => seq![],
                            },
                            sm.sources[src as int],
                        ),
                        line: ((orig_line + 1) % 0x1_0000_0000) as u32,
                        column: seg.original_column,
                    },
                ),
            )
        } else {
            None
        },
        _ => Some(None),
    }
}

/// The entries of the segments of one generated line, in order.
pub open spec fn line_entries(sm: SourceMapV3View, line: int, segs: Seq<MappingSegment>) -> Option<
    Seq<AsMappingEntryView>,
>
    decreases segs.len(),
{
    if segs.len() == 0 {
        Some(seq![])
    } else {
        match (line_entries(sm, line, segs.drop_last()), segment_entry(sm, line, segs.last())) {
            (Some(es), Some(Some(e))) => Some(es.push(e)),
            (Some(es), Some(None)) => Some(es),
            _ => None,
        }
    }
}

/// The entries of all generated lines, line by line.
pub open spec fn lines_entries(sm: SourceMapV3View, lines: Seq<Seq<MappingSegment>>) -> Option<
    Seq<AsMappingEntryView>,
>
    decreases lines.len(),
{
    if lines.len() == 0 {
        Some(seq![])
    } else {
        match (
            lines_entries(sm, lines.drop_last()),
            line_entries(sm, lines.len() - 1, lines.last()),
        ) {
            (Some(a), Some(b)) => Some(a + b),
            _ => None,
        }
    }
}

/// The entries, before sorting, of a source map; `None` where its version is
/// not 3, or a segment names a source that is not there.
pub open spec fn map_entries(sm: SourceMapV3View) -> Option<Seq<AsMappingEntryView>> {
    if sm.version != 3 {
        None
    } else {
        lines_entries(sm, decoded_mappings(encode_utf8(sm.mappings)))
    }
}

/// The entries, before sorting, of the source map that a JSON text holds;
/// `None` where the text holds no Source Map V3 structure, or `map_entries`
/// gives none.
pub open spec fn source_map_entries(text: Seq<char>) -> Option<Seq<AsMappingEntryView>> {
    match decode_source_map(text) {
        None => None,
        Some(sm) => map_entries(sm),
    }
}

/// Entries in increasing order of offset.
pub open spec fn sorted_by_offset(s: Seq<AsMappingEntryView>) -> bool {
    forall|i: int, j: int| 0 <= i < j < s.len() ==> s[i].wasm_offset <= s[j].wasm_offset
}

/// The entries with the given offset, in their order.
pub open spec fn with_offset(s: Seq<AsMappingEntryView>, offset: u64) -> Seq<AsMappingEntryView> {
    s.filter(|e: AsMappingEntryView| e.wasm_offset == offset)
}

/// `sorted` is `s` sorted by offset, entries of equal offset in their order in
/// `s`: a stable sort.
pub open spec fn is_stable_sort_by_offset(
    sorted: Seq<AsMappingEntryView>,
    s: Seq<AsMappingEntryView>,
) -> bool {
    &&& sorted_by_offset(sorted)
    &&& forall|offset: u64| #[trigger] with_offset(sorted, offset) == with_offset(s, offset)
}

pub open spec fn entries_opt_view(r: Option<Vec<AsMappingEntry>>) -> Option<Seq<AsMappingEntryView>> {
    match r {
        Some(entries) => Some(entries_view(entries@)),
        None => None,
    }
}

/// `entry` inserted into a table sorted by offset, after every entry whose
/// offset is not greater.
pub open spec fn insert_by_offset(sorted: Seq<AsMappingEntryView>, entry: AsMappingEntryView) -> Seq<
    AsMappingEntryView,
>
    decreases sorted.len(),
{
    if sorted.len() == 0 || sorted.last().wasm_offset <= entry.wasm_offset {
        sorted.push(entry)
    } else {
        insert_by_offset(sorted.drop_last(), entry).push(sorted.last())
    }
}

/// `entries` sorted by offset, entries of equal offset in their order in
/// `entries`.
pub open spec fn stably_sorted(entries: Seq<AsMappingEntryView>) -> Seq<AsMappingEntryView>
    decreases entries.len(),
{
    if entries.len() == 0 {
        entries
    } else {
        insert_by_offset(stably_sorted(entries.drop_last()), entries.last())
    }
}

/// The mapping table of a source map: its entries, sorted by offset; `None`
/// exactly where `map_entries` gives none.
pub open spec fn map_table(sm: SourceMapV3View) -> Option<Seq<AsMappingEntryView>> {
    match map_entries(sm) {
        Some(entries) => Some(stably_sorted(entries)),
        None => None,
    }
}

/// The mapping table of a source map text: its entries, sorted by offset;
/// `None` exactly where `source_map_entries` gives none.
pub open spec fn parsed_entries(text: Seq<char>) -> Option<Seq<AsMappingEntryView>> {
    match source_map_entries(text) {
        Some(entries) => Some(stably_sorted(entries)),
        None => None,
    }
}

/// Whether a source map text looks like JSON rather than a URL: its first
/// character other than white space is `{`.
pub open spec fn looks_like_json(text: Seq<char>) -> bool {
    trim_start(text).len() > 0 && trim_start(text)[0] == '{'
}

/// The mapping table of a WebAssembly binary: `None` where it carries no
/// source map or one that does not look like JSON, and else the table of
/// that source map.
pub open spec fn line_cache(wasm: Seq<u8>) -> Option<Seq<AsMappingEntryView>> {
    match wasm_source_map(wasm) {
        Some(text) => if looks_like_json(text) {
            parsed_entries(text)
        } else {
            None
        },
        None => None,
    }
}

/// The entries with an offset are there exactly where some entry has it.
proof fn lemma_with_offset_nonempty(s: Seq<AsMappingEntryView>, offset: u64)
    ensures
        with_offset(s, offset).len() > 0 <==> exists|i: int|
            0 <= i < s.len() && #[trigger] s[i].wasm_offset == offset,
    decreases s.len(),
{
    reveal(Seq::filter);
    if s.len() > 0 {
        lemma_with_offset_nonempty(s.drop_last(), offset);
        if exists|i: int| 0 <= i < s.len() && #[trigger] s[i].wasm_offset == offset {
            let i = choose|i: int| 0 <= i < s.len() && #[trigger] s[i].wasm_offset == offset;
            if i < s.len() - 1 {
                assert(s.drop_last()[i].wasm_offset == offset);
            }
        }
        if exists|i: int| 0 <= i < s.len() - 1 && #[trigger] s.drop_last()[i].wasm_offset == offset {
            let i = choose|i: int|
                0 <= i < s.len() - 1 && #[trigger] s.drop_last()[i].wasm_offset == offset;
            assert(s[i].wasm_offset == offset);
        }
    }
}

/// Two tables sorted by offset that hold the same entries of each offset, in
/// the same order, are the same table.
proof fn lemma_sorted_same_offsets_equal(a: Seq<AsMappingEntryView>, b: Seq<AsMappingEntryView>)
    requires
        sorted_by_offset(a),
        sorted_by_offset(b),
        forall|offset: u64| #[trigger] with_offset(a, offset) == with_offset(b, offset),
    ensures
        a == b,
    decreases a.len() + b.len(),
{
    reveal(Seq::filter);
    if a.len() == 0 && b.len() == 0 {
        assert(a =~= b);
    } else if a.len() == 0 {
        let y = b.last();
        lemma_with_offset_nonempty(b, y.wasm_offset);
        lemma_with_offset_nonempty(a, y.wasm_offset);
        assert(b[b.len() - 1].wasm_offset == y.wasm_offset);
        assert(with_offset(a, y.wasm_offset) == with_offset(b, y.wasm_offset));
    } else if b.len() == 0 {
        let x = a.last();
        lemma_with_offset_nonempty(a, x.wasm_offset);
        lemma_with_offset_nonempty(b, x.wasm_offset);
        assert(a[a.len() - 1].wasm_offset == x.wasm_offset);
        assert(with_offset(a, x.wasm_offset) == with_offset(b, x.wasm_offset));
    } else {
        let x = a.last();
        let y = b.last();
        let k = x.wasm_offset;
        let kb = y.wasm_offset;
        lemma_with_offset_nonempty(a, k);
        lemma_with_offset_nonempty(b, k);
        lemma_with_offset_nonempty(a, kb);
        lemma_with_offset_nonempty(b, kb);
        assert(a[a.len() - 1].wasm_offset == k);
        assert(b[b.len() - 1].wasm_offset == kb);
        assert(with_offset(a, k) == with_offset(b, k));
        assert(with_offset(a, kb) == with_offset(b, kb));
        // b holds an entry of offset k, and a one of offset kb
        let i = choose|i: int| 0 <= i < b.len() && #[trigger] b[i].wasm_offset == k;
        let j = choose|j: int| 0 <= j < a.len() && #[trigger] a[j].wasm_offset == kb;
        assert(b[i].wasm_offset <= b[b.len() - 1].wasm_offset);
        assert(a[j].wasm_offset <= a[a.len() - 1].wasm_offset);
        assert(k == kb);
        assert(with_offset(a, k) == with_offset(a.drop_last(), k).push(x));
        assert(with_offset(b, k) == with_offset(b.drop_last(), k).push(y));
        assert(with_offset(a, k).last() == x);
        assert(with_offset(b, k).last() == y);
        assert(x == y);
        assert forall|offset: u64| #[trigger]
            with_offset(a.drop_last(), offset) == with_offset(b.drop_last(), offset) by {
            assert(with_offset(a, offset) == with_offset(b, offset));
            if offset == k {
                assert(with_offset(a.drop_last(), offset) =~= with_offset(a, offset).drop_last());
                assert(with_offset(b.drop_last(), offset) =~= with_offset(b, offset).drop_last());
            }
        }
        lemma_sorted_same_offsets_equal(a.drop_last(), b.drop_last());
        assert(a =~= a.drop_last().push(x));
        assert(b =~= b.drop_last().push(y));
    }
}

/// Law: a stable sort by offset is unique, so that the table that
/// `parse_source_map` and `try_build_as_line_cache` give is determined by
/// their input.
pub proof fn law_stable_sort_unique(
    a: Seq<AsMappingEntryView>,
    b: Seq<AsMappingEntryView>,
    entries: Seq<AsMappingEntryView>,
)
    requires
        is_stable_sort_by_offset(a, entries),
        is_stable_sort_by_offset(b, entries),
    ensures
        a == b,
{
    assert forall|offset: u64| #[trigger] with_offset(a, offset) == with_offset(b, offset) by {
        assert(with_offset(a, offset) == with_offset(entries, offset));
        assert(with_offset(b, offset) == with_offset(entries, offset));
    }
    lemma_sorted_same_offsets_equal(a, b);
}

proof fn lemma_insert_by_offset(sorted: Seq<AsMappingEntryView>, entry: AsMappingEntryView)
    requires
        sorted_by_offset(sorted),
    ensures
        sorted_by_offset(insert_by_offset(sorted, entry)),
        forall|offset: u64| #[trigger]
            with_offset(insert_by_offset(sorted, entry), offset) == with_offset(
                sorted.push(entry),
                offset,
            ),
        insert_by_offset(sorted, entry).len() == sorted.len() + 1,
        forall|i: int|
            0 <= i < insert_by_offset(sorted, entry).len() ==> (#[trigger] insert_by_offset(
                sorted,
                entry,
            )[i] == entry || sorted.contains(insert_by_offset(sorted, entry)[i])),
    decreases sorted.len(),
{
    reveal(Seq::filter);
    if sorted.len() == 0 || sorted.last().wasm_offset <= entry.wasm_offset {
        let r = sorted.push(entry);
        assert forall|i: int| 0 <= i < r.len() implies (#[trigger] r[i] == entry || sorted.contains(
            r[i],
        )) by {
            if i < sorted.len() {
                assert(r[i] == sorted[i]);
            }
        }
        assert forall|i: int, j: int| 0 <= i < j < r.len() implies r[i].wasm_offset
            <= r[j].wasm_offset by {
            if j == r.len() - 1 && i < sorted.len() {
                assert(sorted[i].wasm_offset <= sorted[sorted.len() - 1].wasm_offset);
            }
        }
    } else {
        let init = sorted.drop_last();
        let last = sorted.last();
        let inner = insert_by_offset(init, entry);
        assert(sorted_by_offset(init));
        lemma_insert_by_offset(init, entry);
        let r = inner.push(last);
        assert forall|i: int, j: int| 0 <= i < j < r.len() implies r[i].wasm_offset
            <= r[j].wasm_offset by {
            if j == r.len() - 1 {
                assert(inner[i] == entry || init.contains(inner[i]));
                if inner[i] != entry {
                    let k = choose|k: int| 0 <= k < init.len() && init[k] == inner[i];
                    assert(sorted[k] == init[k]);
                    assert(sorted[k].wasm_offset <= sorted[sorted.len() - 1].wasm_offset);
                }
            }
        }
        assert forall|offset: u64| #[trigger] with_offset(r, offset) == with_offset(
            sorted.push(entry),
            offset,
        ) by {
            assert(r.drop_last() =~= inner);
            assert(sorted.push(entry).drop_last() =~= sorted);
            assert(init.push(entry).drop_last() =~= init);
            assert(sorted.drop_last() =~= init);
            let wi = with_offset(init, offset);
            assert(with_offset(inner, offset) == with_offset(init.push(entry), offset));
            assert(with_offset(init.push(entry), offset) == if entry.wasm_offset == offset {
                wi.push(entry)
            } else {
                wi
            });
            assert(with_offset(sorted, offset) == if last.wasm_offset == offset {
                wi.push(last)
            } else {
                wi
            });
            assert(with_offset(r, offset) == if last.wasm_offset == offset {
                with_offset(inner, offset).push(last)
            } else {
                with_offset(inner, offset)
            });
            assert(with_offset(sorted.push(entry), offset) == if entry.wasm_offset == offset {
                with_offset(sorted, offset).push(entry)
            } else {
                with_offset(sorted, offset)
            });
        }
        assert forall|i: int| 0 <= i < r.len() implies (#[trigger] r[i] == entry || sorted.contains(
            r[i],
        )) by {
            if i < inner.len() {
                assert(r[i] == inner[i]);
                assert(inner[i] == entry || init.contains(inner[i]));
                if inner[i] != entry {
                    let k = choose|k: int| 0 <= k < init.len() && init[k] == inner[i];
                    assert(sorted[k] == init[k]);
                }
            } else {
                assert(sorted[sorted.len() - 1] == last);
            }
        }
    }
}

/// Law: `stably_sorted` sorts a table by offset and keeps the entries of each
/// offset in their order: it is a stable sort, and by
/// `law_stable_sort_unique` the only one.
pub proof fn law_stably_sorted(entries: Seq<AsMappingEntryView>)
    ensures
        is_stable_sort_by_offset(stably_sorted(entries), entries),
    decreases entries.len(),
{
    reveal(Seq::filter);
    if entries.len() > 0 {
        let init = entries.drop_last();
        law_stably_sorted(init);
        lemma_insert_by_offset(stably_sorted(init), entries.last());
        assert forall|offset: u64| #[trigger] with_offset(stably_sorted(entries), offset)
            == with_offset(entries, offset) by {
            assert(stably_sorted(init).push(entries.last()).drop_last() =~= stably_sorted(init));
            assert(init.push(entries.last()) =~= entries);
            assert(with_offset(stably_sorted(init), offset) == with_offset(init, offset));
        }
    }
}

/// Law: the table of a source map text, and so the one that
/// `try_build_as_line_cache` gives, is sorted by offset and holds the
/// entries of the source map, those of equal offset in their order.
pub proof fn law_parsed_entries_sorted(text: Seq<char>)
    ensures
        parsed_entries(text) matches Some(entries) ==> is_stable_sort_by_offset(
            entries,
            source_map_entries(text).unwrap(),
        ),
{
    if let Some(entries) = source_map_entries(text) {
        law_stably_sorted(entries);
    }
}

proof fn lemma_line_entries_origin(sm: SourceMapV3View, line: int, segs: Seq<MappingSegment>)
    ensures
        line_entries(sm, line, segs) matches Some(es) ==> forall|k: int|
            #![trigger es[k]]
            0 <= k < es.len() ==> exists|j: int|
                0 <= j < segs.len() && segment_entry(sm, line, #[trigger] segs[j]) == Some(
                    Some(es[k]),
                ),
    decreases segs.len(),
{
    if segs.len() > 0 {
        let init = segs.drop_last();
        lemma_line_entries_origin(sm, line, init);
        if let Some(es) = line_entries(sm, line, segs) {
            let a = line_entries(sm, line, init).unwrap();
            assert forall|k: int| #![trigger es[k]] 0 <= k < es.len() implies exists|j: int|
                0 <= j < segs.len() && segment_entry(sm, line, #[trigger] segs[j]) == Some(
                    Some(es[k]),
                ) by {
                if k < a.len() {
                    let j = choose|j: int|
                        0 <= j < init.len() && segment_entry(sm, line, #[trigger] init[j]) == Some(
                            Some(a[k]),
                        );
                    assert(segs[j] == init[j]);
                } else {
                    assert(segs[segs.len() - 1] == segs.last());
                }
            }
        }
    }
}

proof fn lemma_lines_entries_origin(sm: SourceMapV3View, lines: Seq<Seq<MappingSegment>>)
    ensures
        lines_entries(sm, lines) matches Some(es) ==> forall|k: int|
            #![trigger es[k]]
            0 <= k < es.len() ==> exists|i: int, j: int|
                0 <= i < lines.len() && 0 <= j < lines[i].len() && segment_entry(
                    sm,
                    i,
                    #[trigger] lines[i][j],
                ) == Some(Some(es[k])),
    decreases lines.len(),
{
    if lines.len() > 0 {
        let init = lines.drop_last();
        let last_i = lines.len() - 1;
        lemma_lines_entries_origin(sm, init);
        lemma_line_entries_origin(sm, last_i, lines.last());
        if let Some(es) = lines_entries(sm, lines) {
            let a = lines_entries(sm, init).unwrap();
            let b = line_entries(sm, last_i, lines.last()).unwrap();
            assert(es == a + b);
            assert forall|k: int| #![trigger es[k]] 0 <= k < es.len() implies exists|i: int, j: int|
                0 <= i < lines.len() && 0 <= j < lines[i].len() && segment_entry(
                    sm,
                    i,
                    #[trigger] lines[i][j],
                ) == Some(Some(es[k])) by {
                if k < a.len() {
                    assert(es[k] == a[k]);
                    let (i, j) = choose|i: int, j: int|
                        0 <= i < init.len() && 0 <= j < init[i].len() && segment_entry(
                            sm,
                            i,
                            #[trigger] init[i][j],
                        ) == Some(Some(a[k]));
                    assert(lines[i] == init[i]);
                    assert(lines[i][j] == init[i][j]);
                } else {
                    assert(es[k] == b[k - a.len()]);
                    let j = choose|j: int|
                        0 <= j < lines.last().len() && segment_entry(
                            sm,
                            last_i,
                            #[trigger] lines.last()[j],
                        ) == Some(Some(b[k - a.len()]));
                    assert(lines[last_i] == lines.last());
                    assert(lines[last_i][j] == lines.last()[j]);
                }
            }
        }
    }
}

/// Entry `e` comes from the segment `j` of generated line `i`: the segment
/// names a source that is there and an original line; the offset is 65536
/// times the line index (every line counts, empty ones too) plus the
/// generated column, in 64 bits; the line is the original line plus one, in
/// 32 bits; the column is the original column; and the file is the source
/// itself where the source root is missing or empty, and else the root
/// without its trailing slashes, `/`, and the source.
pub open spec fn entry_comes_from(
    sm: SourceMapV3View,
    lines: Seq<Seq<MappingSegment>>,
    i: int,
    j: int,
    e: AsMappingEntryView,
) -> bool {
    &&& 0 <= i < lines.len()
    &&& 0 <= j < lines[i].len()
    &&& lines[i][j].source_index matches Some(src)
    &&& src < sm.sources.len()
    &&& lines[i][j].original_line matches Some(orig_line)
    &&& e.wasm_offset as int == (i * 65536 + lines[i][j].generated_column) % 0x1_0000_0000_0000_0000
    &&& e.line as int == (orig_line + 1) % 0x1_0000_0000
    &&& e.column == lines[i][j].original_column
    &&& e.file == match sm.source_root {
        Some(root) => if root.len() == 0 {
            sm.sources[src as int]
        } else {
            trim_end_slashes(root) + "/"@ + sm.sources[src as int]
        },
        None => sm.sources[src as int],
    }
}

/// Law: every entry of a source map's table comes from one of its decoded
/// segments (`entry_comes_from`), at the index of its generated line.
pub proof fn law_entry_comes_from_segment(sm: SourceMapV3View, k: int)
    requires
        map_entries(sm) matches Some(es) && 0 <= k < es.len(),
    ensures
        exists|i: int, j: int|
            entry_comes_from(
                sm,
                decoded_mappings(encode_utf8(sm.mappings)),
                i,
                j,
                map_entries(sm).unwrap()[k],
            ),
{
    let lines = decoded_mappings(encode_utf8(sm.mappings));
    let es = map_entries(sm).unwrap();
    lemma_lines_entries_origin(sm, lines);
    let (i, j) = choose|i: int, j: int|
        0 <= i < lines.len() && 0 <= j < lines[i].len() && segment_entry(
            sm,
            i,
            #[trigger] lines[i][j],
        ) == Some(Some(es[k]));
    let seg = lines[i][j];
    let src = seg.source_index.unwrap();
    let orig_line = seg.original_line.unwrap();
    vstd::arithmetic::div_mod::lemma_mod_bound(i * 65536 + seg.generated_column, 0x1_0000_0000_0000_0000);
    vstd::arithmetic::div_mod::lemma_mod_bound(orig_line + 1, 0x1_0000_0000);
    assert(entry_comes_from(sm, lines, i, j, es[k]));
}

/// Law: an empty source root is no source root: the table is the same as
/// without one.
pub proof fn law_empty_source_root(sm: SourceMapV3View)
    requires
        sm.source_root == Some(Seq::<char>::empty()),
    ensures
        map_table(sm) == map_table(SourceMapV3View { source_root: None, ..sm }),
{
    let other = SourceMapV3View { source_root: None, ..sm };
    let lines = decoded_mappings(encode_utf8(sm.mappings));
    assert forall|i: int, seg: MappingSegment| #[trigger] segment_entry(sm, i, seg)
        == segment_entry(other, i, seg) by {}
    lemma_lines_entries_same(sm, other, lines);
}

proof fn lemma_line_entries_same(
    a: SourceMapV3View,
    b: SourceMapV3View,
    line: int,
    segs: Seq<MappingSegment>,
)
    requires
        forall|i: int, seg: MappingSegment| #[trigger] segment_entry(a, i, seg) == segment_entry(
            b,
            i,
            seg,
        ),
    ensures
        line_entries(a, line, segs) == line_entries(b, line, segs),
    decreases segs.len(),
{
    if segs.len() > 0 {
        lemma_line_entries_same(a, b, line, segs.drop_last());
        assert(segment_entry(a, line, segs.last()) == segment_entry(b, line, segs.last()));
    }
}

proof fn lemma_lines_entries_same(
    a: SourceMapV3View,
    b: SourceMapV3View,
    lines: Seq<Seq<MappingSegment>>,
)
    requires
        forall|i: int, seg: MappingSegment| #[trigger] segment_entry(a, i, seg) == segment_entry(
            b,
            i,
            seg,
        ),
    ensures
        lines_entries(a, lines) == lines_entries(b, lines),
    decreases lines.len(),
{
    if lines.len() > 0 {
        lemma_lines_entries_same(a, b, lines.drop_last());
        lemma_line_entries_same(a, b, lines.len() - 1, lines.last());
    }
}

/// Law: where the first character other than white space of the source map
/// text that a WebAssembly binary carries is `{`, the binary's table is the
/// table that `parse_source_map` gives for that text, whatever follows.
pub proof fn law_line_cache_of_json_text(wasm: Seq<u8>, text: Seq<char>, i: int)
    requires
        wasm_source_map(wasm) == Some(text),
        0 <= i < text.len(),
        forall|j: int| 0 <= j < i ==> white_space(#[trigger] text[j]),
        text[i] == '{',
    ensures
        line_cache(wasm) == parsed_entries(text),
{
    lemma_leading_white_space_is(text, i);
    assert(trim_start(text)[0] == text[i]);
}

/// Law: where the source map text that a WebAssembly binary carries is all
/// white space, or its first character other than white space is not `{`,
/// the binary has no table.
pub proof fn law_no_line_cache_without_brace(wasm: Seq<u8>, text: Seq<char>)
    requires
        wasm_source_map(wasm) == Some(text),
        forall|i: int|
            0 <= i < text.len() && !white_space(#[trigger] text[i]) && (forall|j: int|
                0 <= j < i ==> white_space(text[j])) ==> text[i] != '{',
    ensures
        line_cache(wasm) is None,
{
    lemma_leading_white_space(text);
    let n = crate::text::leading_white_space(text) as int;
    if n < text.len() {
        assert(!white_space(text[n]));
        assert(text[n] != '{');
        assert(trim_start(text)[0] == text[n]);
    }
}

/// Law: where no source map is found, there is no table.
pub proof fn law_no_line_cache_without_source_map(wasm: Seq<u8>)
    requires
        wasm_source_map(wasm) is None,
    ensures
        line_cache(wasm) is None,
{
}

/// Whether a segment names a source and an original line.
pub open spec fn has_source(seg: MappingSegment) -> bool {
    seg.source_index is Some && seg.original_line is Some
}

/// The number of segments of a line that name a source and an original line.
pub open spec fn line_source_count(segs: Seq<MappingSegment>) -> nat
    decreases segs.len(),
{
    if segs.len() == 0 {
        0
    } else {
        line_source_count(segs.drop_last()) + if has_source(segs.last()) {
            1nat
        } else {
            0nat
        }
    }
}

/// The number of segments of all lines that name a source and an original
/// line.
pub open spec fn lines_source_count(lines: Seq<Seq<MappingSegment>>) -> nat
    decreases lines.len(),
{
    if lines.len() == 0 {
        0
    } else {
        lines_source_count(lines.drop_last()) + line_source_count(lines.last())
    }
}

/// Whether some segment names a source index outside the sources.
pub open spec fn names_missing_source(sm: SourceMapV3View, lines: Seq<Seq<MappingSegment>>) -> bool {
    exists|i: int, j: int|
        0 <= i < lines.len() && 0 <= j < lines[i].len() && has_source(#[trigger] lines[i][j])
            && lines[i][j].source_index.unwrap() >= sm.sources.len()
}

proof fn lemma_line_entries_cover(sm: SourceMapV3View, line: int, segs: Seq<MappingSegment>)
    ensures
        line_entries(sm, line, segs) matches Some(es) ==> {
            &&& es.len() == line_source_count(segs)
            &&& forall|j: int|
                0 <= j < segs.len() && has_source(#[trigger] segs[j]) ==> exists|k: int|
                    0 <= k < es.len() && segment_entry(sm, line, segs[j]) == Some(Some(es[k]))
        },
        line_entries(sm, line, segs) is None <==> exists|j: int|
            0 <= j < segs.len() && has_source(#[trigger] segs[j])
                && segs[j].source_index.unwrap() >= sm.sources.len(),
    decreases segs.len(),
{
    if segs.len() > 0 {
        let init = segs.drop_last();
        let last = segs.last();
        lemma_line_entries_cover(sm, line, init);
        assert(segs[segs.len() - 1] == last);
        assert forall|j: int| 0 <= j < init.len() implies #[trigger] segs[j] == init[j] by {}
        if let Some(es) = line_entries(sm, line, segs) {
            let a = line_entries(sm, line, init).unwrap();
            assert forall|j: int| 0 <= j < segs.len() && has_source(#[trigger] segs[j]) implies exists|
                k: int,
            | 0 <= k < es.len() && segment_entry(sm, line, segs[j]) == Some(Some(es[k])) by {
                if j < init.len() {
                    assert(has_source(init[j]));
                    let k = choose|k: int|
                        0 <= k < a.len() && segment_entry(sm, line, init[j]) == Some(Some(a[k]));
                    assert(es[k] == a[k]);
                } else {
                    assert(es[es.len() - 1] == es.last());
                }
            }
        }
        if line_entries(sm, line, init) is None {
            let j = choose|j: int|
                0 <= j < init.len() && has_source(#[trigger] init[j])
                    && init[j].source_index.unwrap() >= sm.sources.len();
            assert(segs[j] == init[j]);
        }
        if line_entries(sm, line, segs) is None && line_entries(sm, line, init) is Some {
            assert(has_source(segs[segs.len() - 1]));
        }
        if exists|j: int|
            0 <= j < segs.len() && has_source(#[trigger] segs[j])
                && segs[j].source_index.unwrap() >= sm.sources.len() {
            let j = choose|j: int|
                0 <= j < segs.len() && has_source(#[trigger] segs[j])
                    && segs[j].source_index.unwrap() >= sm.sources.len();
            if j < init.len() {
                assert(has_source(init[j]));
            }
        }
    }
}

proof fn lemma_lines_entries_cover(sm: SourceMapV3View, lines: Seq<Seq<MappingSegment>>)
    ensures
        lines_entries(sm, lines) matches Some(es) ==> {
            &&& es.len() == lines_source_count(lines)
            &&& forall|i: int, j: int|
                0 <= i < lines.len() && 0 <= j < lines[i].len() && has_source(
                    #[trigger] lines[i][j],
                ) ==> exists|k: int|
                    0 <= k < es.len() && segment_entry(sm, i, lines[i][j]) == Some(Some(es[k]))
        },
        lines_entries(sm, lines) is None <==> names_missing_source(sm, lines),
    decreases lines.len(),
{
    if lines.len() > 0 {
        let init = lines.drop_last();
        let li = lines.len() - 1;
        let last = lines.last();
        lemma_lines_entries_cover(sm, init);
        lemma_line_entries_cover(sm, li, last);
        assert(lines[li] == last);
        assert forall|i: int| 0 <= i < init.len() implies #[trigger] lines[i] == init[i] by {}
        if let Some(es) = lines_entries(sm, lines) {
            let a = lines_entries(sm, init).unwrap();
            let b = line_entries(sm, li, last).unwrap();
            assert(es == a + b);
            assert forall|i: int, j: int|
                0 <= i < lines.len() && 0 <= j < lines[i].len() && has_source(
                    #[trigger] lines[i][j],
                ) implies exists|k: int|
                0 <= k < es.len() && segment_entry(sm, i, lines[i][j]) == Some(Some(es[k])) by {
                if i < init.len() {
                    assert(init[i][j] == lines[i][j]);
                    let k = choose|k: int|
                        0 <= k < a.len() && segment_entry(sm, i, init[i][j]) == Some(Some(a[k]));
                    assert(es[k] == a[k]);
                } else {
                    assert(last[j] == lines[i][j]);
                    let k = choose|k: int|
                        0 <= k < b.len() && segment_entry(sm, li, last[j]) == Some(Some(b[k]));
                    assert(es[a.len() + k] == b[k]);
                }
            }
        }
        if names_missing_source(sm, init) {
            let (i, j) = choose|i: int, j: int|
                0 <= i < init.len() && 0 <= j < init[i].len() && has_source(#[trigger] init[i][j])
                    && init[i][j].source_index.unwrap() >= sm.sources.len();
            assert(lines[i][j] == init[i][j]);
        }
        if line_entries(sm, li, last) is None {
            let j = choose|j: int|
                0 <= j < last.len() && has_source(#[trigger] last[j])
                    && last[j].source_index.unwrap() >= sm.sources.len();
            assert(lines[li][j] == last[j]);
        }
        if names_missing_source(sm, lines) {
            let (i, j) = choose|i: int, j: int|
                0 <= i < lines.len() && 0 <= j < lines[i].len() && has_source(
                    #[trigger] lines[i][j],
                ) && lines[i][j].source_index.unwrap() >= sm.sources.len();
            if i < init.len() {
                assert(has_source(init[i][j]));
            } else {
                assert(has_source(last[j]));
            }
        }
    }
}

/// Law: the table of a source map of version 3 has one entry for each of its
/// segments that names a source and an original line, and each such segment
/// gives an entry (`entry_comes_from`); there is no table exactly where the
/// version is not 3 or some such segment names a source that is not there.
pub proof fn law_entries_cover_segments(sm: SourceMapV3View)
    ensures
        ({
            let lines = decoded_mappings(encode_utf8(sm.mappings));
            &&& map_entries(sm) is None <==> sm.version != 3 || names_missing_source(sm, lines)
            &&& map_entries(sm) matches Some(es) ==> {
                &&& es.len() == lines_source_count(lines)
                &&& forall|i: int, j: int|
                    0 <= i < lines.len() && 0 <= j < lines[i].len() && has_source(
                        #[trigger] lines[i][j],
                    ) ==> exists|k: int| 0 <= k < es.len() && entry_comes_from(sm, lines, i, j, es[k])
            }
        }),
{
    let lines = decoded_mappings(encode_utf8(sm.mappings));
    if sm.version == 3 {
        lemma_lines_entries_cover(sm, lines);
        if let Some(es) = map_entries(sm) {
            assert forall|i: int, j: int|
                0 <= i < lines.len() && 0 <= j < lines[i].len() && has_source(
                    #[trigger] lines[i][j],
                ) implies exists|k: int|
                0 <= k < es.len() && entry_comes_from(sm, lines, i, j, es[k]) by {
                let k = choose|k: int|
                    0 <= k < es.len() && segment_entry(sm, i, lines[i][j]) == Some(Some(es[k]));
                let seg = lines[i][j];
                vstd::arithmetic::div_mod::lemma_mod_bound(
                    i * 65536 + seg.generated_column,
                    0x1_0000_0000_0000_0000,
                );
                vstd::arithmetic::div_mod::lemma_mod_bound(
                    seg.original_line.unwrap() + 1,
                    0x1_0000_0000,
                );
                assert(entry_comes_from(sm, lines, i, j, es[k]));
            }
        }
    }
}

/// `slice::sort_by_key` with the offset as key, a stable sort.
#[verifier::external_body]
fn sort_by_offset(entries: &mut Vec<AsMappingEntry>)
    ensures
        is_stable_sort_by_offset(entries_view(final(entries)@), entries_view(old(entries)@)),
{
    entries.sort_by_key(|e| e.wasm_offset)
}


/// `s.trim_end_matches('/')`.
fn trim_end_slashes_str(s: &str) -> (r: &str)
    ensures
        r@ == trim_end_slashes(s@),
{
    let cs = chars_of(s);
    let mut end: usize = cs.len();
    assert(cs@.take(end as int) =~= cs@);
    while end > 0 && cs[end - 1] == '/'
        invariant
            end <= cs.len(),
            cs@ == s@,
            trim_end_slashes(s@) == trim_end_slashes(cs@.take(end as int)),
        decreases end,
    {
        assert(cs@.take(end as int).drop_last() =~= cs@.take(end - 1));
        end -= 1;
    }
    s.substring_char(0, end)
}

/// The path of a source file under the source root.
fn make_file_path(source_root: &str, source_file: &String) -> (r: String)
    ensures
        r@ == file_path(source_root@, source_file@),
{
    if source_root.is_empty() {
        source_file.clone()
    } else {
        let mut path = trim_end_slashes_str(source_root).to_string();
        path.append("/");
        path.append(source_file.as_str());
        path
    }
}


/// A failing segment fails its whole line.
proof fn lemma_line_entries_fail(sm: SourceMapV3View, line: int, segs: Seq<MappingSegment>, k: int)
    requires
        0 <= k <= segs.len(),
        line_entries(sm, line, segs.take(k)) is None,
    ensures
        line_entries(sm, line, segs) is None,
    decreases segs.len() - k,
{
    if k < segs.len() {
        assert(segs.take(k + 1).drop_last() =~= segs.take(k));
        lemma_line_entries_fail(sm, line, segs, k + 1);
    } else {
        assert(segs.take(k) =~= segs);
    }
}

/// A failing line fails the whole table.
proof fn lemma_lines_entries_fail(sm: SourceMapV3View, lines: Seq<Seq<MappingSegment>>, k: int)
    requires
        0 <= k <= lines.len(),
        lines_entries(sm, lines.take(k)) is None,
    ensures
        lines_entries(sm, lines) is None,
    decreases lines.len() - k,
{
    if k < lines.len() {
        assert(lines.take(k + 1).drop_last() =~= lines.take(k));
        lemma_lines_entries_fail(sm, lines, k + 1);
    } else {
        assert(lines.take(k) =~= lines);
    }
}

/// The offset that the wrapping operations compute is `combined_offset`.
proof fn lemma_combined_offset(line: u64, column: u32)
    ensures
        vstd::wrapping::u64_specs::wrapping_add(
            vstd::wrapping::u64_specs::wrapping_mul(line, 65536),
            column as u64,
        ) == combined_offset(line as int, column),
{
    let m: int = 0x1_0000_0000_0000_0000;
    let a = (line as int * 65536) % m;
    vstd::arithmetic::div_mod::lemma_add_mod_noop(line as int * 65536, column as int, m);
    vstd::arithmetic::div_mod::lemma_mod_bound(line as int * 65536, m);
    vstd::arithmetic::div_mod::lemma_small_mod(column as nat, m as nat);
    if a + column >= m {
        vstd::arithmetic::div_mod::lemma_fundamental_div_mod_converse(
            a + column,
            m,
            1,
            a + column - m,
        );
    } else {
        vstd::arithmetic::div_mod::lemma_small_mod((a + column) as nat, m as nat);
    }
}

/// Parse a Source Map V3 JSON string and build a sorted mapping table
/// from WASM byte offsets to original source locations.
///
/// The generated line numbers in the source map correspond to WASM function
/// indices or code section offsets. Each segment's generated column maps to a
/// byte offset within that generated line.
pub fn parse_source_map(json_str: &str) -> (r: Option<Vec<AsMappingEntry>>)
    ensures
        entries_opt_view(r) == parsed_entries(json_str@),
{
    let source_map = match read_source_map(json_str) {
        Some(m) => m,
        None => return None,
    };
    source_map_table(&source_map)
}

/// The mapping table of a source map: its entries, sorted by offset; `None`
/// where its version is not 3, or a segment names a source that is not there.
pub fn source_map_table(source_map: &SourceMapV3) -> (r: Option<Vec<AsMappingEntry>>)
    ensures
        entries_opt_view(r) == map_table(source_map@),
{
    let ghost sm = source_map@;

    if source_map.version != 3 {
        return None;
    }

    let source_root: String = match &source_map.source_root {
        Some(root) => root.clone(),
        None => String::new(),
    };
    let lines = parse_mappings(source_map.mappings.as_str());
    let ghost lv = lines_view(lines@);
    let mut entries: Vec<AsMappingEntry> = Vec::new();

    assert(lv.take(0) =~= seq![]);
    assert(entries_view(entries@) =~= seq![]);
    let mut gen_line_idx: usize = 0;
    while gen_line_idx < lines.len()
        invariant
            gen_line_idx <= lines.len(),
            lv == lines_view(lines@),
            lv == decoded_mappings(encode_utf8(sm.mappings)),
            sm == source_map@,
            sm.version == 3,
            sm.sources == crate::json::strings_view(source_map.sources@),
            source_root@ == match sm.source_root {
                Some(r) => r,
                None => seq![],
            },
            lines_entries(sm, lv.take(gen_line_idx as int)) == Some(entries_view(entries@)),
        decreases lines.len() - gen_line_idx,
    {
        let segments = &lines[gen_line_idx];
        let ghost before = entries_view(entries@);
        let ghost segs = segments@;
        assert(segs == lv[gen_line_idx as int]);
        let mut j: usize = 0;
        assert(segs.take(0) =~= seq![]);
        assert(before + seq![] =~= before);
        while j < segments.len()
            invariant
                j <= segments.len(),
                segs == segments@,
                gen_line_idx < lines.len(),
                lv == lines_view(lines@),
                segs == lv[gen_line_idx as int],
                lv == decoded_mappings(encode_utf8(sm.mappings)),
                sm == source_map@,
                sm.version == 3,
                sm.sources == crate::json::strings_view(source_map.sources@),
                source_root@ == match sm.source_root {
                    Some(r) => r,
                    None => seq![],
                },
                line_entries(sm, gen_line_idx as int, segs.take(j as int)) matches Some(es)
                    && entries_view(entries@) == before + es,
            decreases segments.len() - j,
        {
            let segment = segments[j];
            let ghost es = line_entries(sm, gen_line_idx as int, segs.take(j as int)).unwrap();
            assert(segs.take(j + 1).drop_last() =~= segs.take(j as int));
            assert(segs.take(j + 1).last() == segment);
            match (segment.source_index, segment.original_line) {
                (Some(src_idx), Some(orig_line)) => {
                    if src_idx as usize >= source_map.sources.len() {
                        proof {
                            lemma_line_entries_fail(sm, gen_line_idx as int, segs, j + 1);
                            assert(lv.take(gen_line_idx + 1).drop_last() =~= lv.take(
                                gen_line_idx as int,
                            ));
                            assert(lv.take(gen_line_idx + 1).last() == segs);
                            lemma_lines_entries_fail(sm, lv, gen_line_idx + 1);
                        }
                        return None;
                    }
                    let source_file = &source_map.sources[src_idx as usize];
                    let file_path = make_file_path(source_root.as_str(), source_file);

                    // In WASM source maps, the generated line typically represents
                    // a function or section, and the column is the byte offset.
                    // Use a combined offset: line * large_stride + column
                    // to produce unique wasm_offset values for lookups.
                    let wasm_offset = (gen_line_idx as u64).wrapping_mul(65536).wrapping_add(
                        segment.generated_column as u64,
                    );
                    proof {
                        lemma_combined_offset(gen_line_idx as u64, segment.generated_column);
                    }
                    let ghost old_entries = entries@;
                    entries.push(
                        AsMappingEntry {
                            wasm_offset,
                            file: file_path,
                            // Source map lines are 0-based; SourceLocation lines are 1-based
                            line: orig_line.wrapping_add(1),
                            column: segment.original_column,
                        },
                    );
                    assert(entries_view(entries@) =~= entries_view(old_entries).push(
                        entries@.last()@,
                    ));
                },
                _ => {},
            }
            j += 1;
        }
        assert(segs.take(segs.len() as int) =~= segs);
        assert(lv.take(gen_line_idx + 1).drop_last() =~= lv.take(gen_line_idx as int));
        assert(lv.take(gen_line_idx + 1).last() == segs);
        gen_line_idx += 1;
    }
    assert(lv.take(lines.len() as int) =~= lv);
    let ghost unsorted = entries_view(entries@);
    sort_by_offset(&mut entries);
    proof {
        law_stably_sorted(unsorted);
        law_stable_sort_unique(entries_view(entries@), stably_sorted(unsorted), unsorted);
    }
    Some(entries)
}



/// Attempt to build a source-location cache from an AssemblyScript source map
/// embedded in the given WASM bytes.
///
/// Returns `Some` with sorted mapping entries on success, `None` if no
/// AssemblyScript source map is found or it cannot be parsed.
pub fn try_build_as_line_cache(wasm_bytes: &[u8]) -> (r: Option<Vec<AsMappingEntry>>)
    ensures
        entries_opt_view(r) == line_cache(wasm_bytes@),
{
    let json_str = match extract_source_map_from_wasm(wasm_bytes) {
        Some(s) => s,
        None => return None,
    };

    // Skip if the extracted string looks like a URL rather than JSON
    if !first_non_white_space_is(json_str.as_str(), '{') {
        return None;
    }

    parse_source_map(json_str.as_str())
}

} // verus!
