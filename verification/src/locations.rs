//! Source locations by WebAssembly byte offset.

use std::collections::BTreeMap;
use vstd::prelude::*;

use crate::source_map::{
    entries_view, is_stable_sort_by_offset, with_offset, AsMappingEntry, AsMappingEntryView,
};

verus! {

broadcast use vstd::laws_cmp::group_laws_cmp;

/// A location in an original source file.
#[derive(Debug, Clone)]
pub struct SourceLocation {
    pub file: String,
    pub line: u32,
    pub column: Option<u32>,
    pub column_end: Option<u32>,
    pub github_link: Option<String>,
}

pub struct SourceLocationView {
    pub file: Seq<char>,
    pub line: u32,
    pub column: Option<u32>,
    pub column_end: Option<u32>,
    pub github_link: Option<Seq<char>>,
}

impl View for SourceLocation {
    type V = SourceLocationView;

    open spec fn view(&self) -> SourceLocationView {
        SourceLocationView {
            file: self.file@,
            line: self.line,
            column: self.column,
            column_end: self.column_end,
            github_link: match self.github_link {
                Some(l) => Some(l@),
                None => None,
            },
        }
    }
}

pub open spec fn locations_view(m: Map<u64, SourceLocation>) -> Map<u64, SourceLocationView> {
    m.map_values(|l: SourceLocation| l@)
}

/// The source location of an entry: its file, line and column, with no end
/// column and no link.
pub open spec fn entry_location(e: AsMappingEntryView) -> SourceLocationView {
    SourceLocationView {
        file: e.file,
        line: e.line,
        column: e.column,
        column_end: None,
        github_link: None,
    }
}

/// The locations of entries by offset, each entry in turn replacing any
/// earlier one with the same offset.
pub open spec fn entry_locations(entries: Seq<AsMappingEntryView>) -> Map<u64, SourceLocationView>
    decreases entries.len(),
{
    if entries.len() == 0 {
        Map::empty()
    } else {
        entry_locations(entries.drop_last()).insert(
            entries.last().wasm_offset,
            entry_location(entries.last()),
        )
    }
}

/// Law: an offset has a location exactly where some entry has that offset,
/// and its location is that of the last entry with that offset.
pub proof fn law_location_is_last_entry(entries: Seq<AsMappingEntryView>, offset: u64)
    ensures
        entry_locations(entries).contains_key(offset) <==> with_offset(entries, offset).len() > 0,
        with_offset(entries, offset).len() > 0 ==> entry_locations(entries)[offset]
            == entry_location(with_offset(entries, offset).last()),
    decreases entries.len(),
{
    reveal(Seq::filter);
    if entries.len() > 0 {
        law_location_is_last_entry(entries.drop_last(), offset);
    }
}

/// Law: the locations by offset depend only on the entries of each offset,
/// in their order, so that sorting a table stably by offset changes none of
/// them.
pub proof fn law_locations_unchanged_by_stable_sort(
    sorted: Seq<AsMappingEntryView>,
    entries: Seq<AsMappingEntryView>,
)
    requires
        is_stable_sort_by_offset(sorted, entries),
    ensures
        entry_locations(sorted) == entry_locations(entries),
{
    assert forall|offset: u64| #[trigger]
        entry_locations(sorted).contains_key(offset) == entry_locations(entries).contains_key(
            offset,
        ) by {
        law_location_is_last_entry(sorted, offset);
        law_location_is_last_entry(entries, offset);
        assert(with_offset(sorted, offset) == with_offset(entries, offset));
    }
    assert forall|offset: u64| #[trigger]
        entry_locations(sorted).contains_key(offset) implies entry_locations(sorted)[offset]
        == entry_locations(entries)[offset] by {
        law_location_is_last_entry(sorted, offset);
        law_location_is_last_entry(entries, offset);
        assert(with_offset(sorted, offset) == with_offset(entries, offset));
    }
    assert(entry_locations(sorted) =~= entry_locations(entries));
}

/// Convert parsed AssemblyScript mapping entries into `SourceLocation`
/// objects suitable for the existing source mapper pipeline.
pub fn as_entries_to_source_locations(entries: &[AsMappingEntry]) -> (r: BTreeMap<
    u64,
    SourceLocation,
>)
    ensures
        locations_view(r@) == entry_locations(entries_view(entries@)),
{
    let mut map = BTreeMap::new();
    let ghost ev = entries_view(entries@);
    let mut i: usize = 0;
    assert(ev.take(0) =~= seq![]);
    assert(locations_view(map@) =~= Map::empty());
    while i < entries.len()
        invariant
            i <= entries.len(),
            ev == entries_view(entries@),
            locations_view(map@) == entry_locations(ev.take(i as int)),
        decreases entries.len() - i,
    {
        let entry = &entries[i];
        let ghost old_map = map@;
        map.insert(
            entry.wasm_offset,
            SourceLocation {
                file: entry.file.clone(),
                line: entry.line,
                column: entry.column,
                column_end: None,
                github_link: None,
            },
        );
        proof {
            assert(ev.take(i + 1).drop_last() =~= ev.take(i as int));
            assert(ev.take(i + 1).last() == entry@);
            assert(locations_view(map@) =~= locations_view(old_map).insert(
                entry.wasm_offset,
                entry_location(entry@),
            ));
        }
        i += 1;
    }
    assert(ev.take(entries.len() as int) =~= ev);
    map
}

} // verus!
