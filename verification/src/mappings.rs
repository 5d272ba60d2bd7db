//! The `mappings` string of a Source Map V3: segments of Base64 VLQ values,
//! separated by `,`, in generated lines separated by `;`.

use vstd::prelude::*;
use vstd::string::StringSliceAdditionalSpecFns;

use crate::vlq::{decode_vlq, lemma_vlq_length_bounds, vlq_length, vlq_value};

verus! {

/// Separator between generated lines.
pub const LINE_SEPARATOR: u8 = 0x3b;

/// Separator between segments on the same generated line.
pub const SEGMENT_SEPARATOR: u8 = 0x2c;

/// A single decoded mapping segment from the source map.
#[derive(Debug, Clone, Copy)]
pub struct MappingSegment {
    pub generated_column: u32,
    pub source_index: Option<u32>,
    pub original_line: Option<u32>,
    pub original_column: Option<u32>,
    pub name_index: Option<u32>,
}

/// What the lexer reads from the `mappings` string: the start of a new
/// generated line, or the (relative) VLQ fields of one segment.
pub enum MappingToken {
    NextLine,
    Segment(Seq<i32>),
}

/// The running values that the relative fields of the segments are added to.
pub struct DecoderState {
    pub generated_column: i32,
    pub source_index: i32,
    pub original_line: i32,
    pub original_column: i32,
    pub name_index: i32,
}

/// The lines completed so far, the segments of the line being read, and the
/// running values.
pub struct MappingsProgress {
    pub lines: Seq<Seq<MappingSegment>>,
    pub current: Seq<MappingSegment>,
    pub state: DecoderState,
}

pub open spec fn is_separator(c: u8) -> bool {
    c == LINE_SEPARATOR || c == SEGMENT_SEPARATOR
}

/// The VLQ fields of the segment that starts at `pos`, and the position where
/// reading it stopped. Reading stops at a separator or at the end; where no
/// VLQ value can be decoded, the character there is skipped and reading stops
/// after it.
pub open spec fn segment_fields(m: Seq<u8>, pos: int) -> (Seq<i32>, int)
    decreases m.len() - pos,
{
    if pos < 0 || pos >= m.len() || is_separator(m[pos]) {
        (seq![], pos)
    } else {
        match vlq_length(m, pos) {
            Some(n) => {
                proof {
                    lemma_vlq_length_bounds(m, pos);
                }
                let rest = segment_fields(m, pos + n);
                (seq![vlq_value(m, pos, n)] + rest.0, rest.1)
            },
            None => (seq![], pos + 1),
        }
    }
}

/// Reading a segment that starts on a character other than a separator moves
/// forward and stays inside the input.
pub proof fn lemma_segment_fields_bounds(m: Seq<u8>, pos: int)
    requires
        0 <= pos <= m.len(),
    ensures
        pos <= segment_fields(m, pos).1 <= m.len(),
        pos < m.len() && !is_separator(m[pos]) ==> pos < segment_fields(m, pos).1,
    decreases m.len() - pos,
{
    if pos < m.len() && !is_separator(m[pos]) {
        lemma_vlq_length_bounds(m, pos);
        if let Some(n) = vlq_length(m, pos) {
            lemma_segment_fields_bounds(m, pos + n);
        }
    }
}

/// The tokens of the `mappings` string from `pos` on. Segment separators only
/// end a segment; a segment of no field is dropped.
pub open spec fn mapping_tokens(m: Seq<u8>, pos: int) -> Seq<MappingToken>
    decreases m.len() - pos,
{
    if pos < 0 || pos >= m.len() {
        seq![]
    } else if m[pos] == LINE_SEPARATOR {
        seq![MappingToken::NextLine] + mapping_tokens(m, pos + 1)
    } else if m[pos] == SEGMENT_SEPARATOR {
        mapping_tokens(m, pos + 1)
    } else {
        proof {
            lemma_segment_fields_bounds(m, pos);
        }
        let (fields, end) = segment_fields(m, pos);
        if fields.len() == 0 {
            mapping_tokens(m, end)
        } else {
            seq![MappingToken::Segment(fields)] + mapping_tokens(m, end)
        }
    }
}

pub open spec fn initial_decoder_state() -> DecoderState {
    DecoderState {
        generated_column: 0,
        source_index: 0,
        original_line: 0,
        original_column: 0,
        name_index: 0,
    }
}

pub open spec fn add_i32(a: i32, b: i32) -> i32 {
    vstd::wrapping::i32_specs::wrapping_add(a, b)
}

/// The running values after one segment, and the segment with its absolute
/// values. The first field moves the generated column; with four or more
/// fields, the next three move the source index, the original line and the
/// original column; a fifth moves the name index. Sums wrap around in 32 bits.
pub open spec fn apply_segment(st: DecoderState, f: Seq<i32>) -> (DecoderState, MappingSegment) {
    let gen = add_i32(st.generated_column, f[0]);
    if f.len() >= 4 {
        let src = add_i32(st.source_index, f[1]);
        let line = add_i32(st.original_line, f[2]);
        let col = add_i32(st.original_column, f[3]);
        let name = if f.len() >= 5 {
            add_i32(st.name_index, f[4])
        } else {
            st.name_index
        };
        (
            DecoderState {
                generated_column: gen,
                source_index: src,
                original_line: line,
                original_column: col,
                name_index: name,
            },
            MappingSegment {
                generated_column: gen as u32,
                source_index: Some(src as u32),
                original_line: Some(line as u32),
                original_column: Some(col as u32),
                name_index: if f.len() >= 5 {
                    Some(name as u32)
                } else {
                    None
                },
            },
        )
    } else {
        (
            DecoderState {
                generated_column: gen,
                source_index: st.source_index,
                original_line: st.original_line,
                original_column: st.original_column,
                name_index: st.name_index,
            },
            MappingSegment {
                generated_column: gen as u32,
                source_index: None,
                original_line: None,
                original_column: None,
                name_index: None,
            },
        )
    }
}

/// The result of reading a sequence of tokens from the start. A new line
/// resets the generated column only; the other running values carry over.
pub open spec fn decode_tokens(tokens: Seq<MappingToken>) -> MappingsProgress
    decreases tokens.len(),
{
    if tokens.len() == 0 {
        MappingsProgress { lines: seq![], current: seq![], state: initial_decoder_state() }
    } else {
        let p = decode_tokens(tokens.drop_last());
        match tokens.last() {
            MappingToken::NextLine => MappingsProgress {
                lines: p.lines.push(p.current),
                current: seq![],
                state: DecoderState {
                    generated_column: 0,
                    source_index: p.state.source_index,
                    original_line: p.state.original_line,
                    original_column: p.state.original_column,
                    name_index: p.state.name_index,
                },
            },
            MappingToken::Segment(f) => {
                let (st, seg) = apply_segment(p.state, f);
                MappingsProgress { lines: p.lines, current: p.current.push(seg), state: st }
            },
        }
    }
}

/// The decoded segments of a `mappings` string, by generated line. The last
/// line is kept only where it holds a segment.
pub open spec fn decoded_mappings(m: Seq<u8>) -> Seq<Seq<MappingSegment>> {
    let p = decode_tokens(mapping_tokens(m, 0));
    if p.current.len() > 0 {
        p.lines.push(p.current)
    } else {
        p.lines
    }
}


/// The views of the lines of segments.
pub open spec fn lines_view(lines: Seq<Vec<MappingSegment>>) -> Seq<Seq<MappingSegment>> {
    lines.map_values(|l: Vec<MappingSegment>| l@)
}

/// Read the VLQ fields of the segment that starts at `pos`; returns them with
/// the position where reading stopped.
fn read_segment_fields(bytes: &[u8], start: usize) -> (r: (Vec<i32>, usize))
    requires
        start <= bytes.len(),
    ensures
        segment_fields(bytes@, start as int) == (r.0@, r.1 as int),
        r.1 <= bytes.len(),
{
    let mut fields: Vec<i32> = Vec::with_capacity(5);
    let mut pos = start;
    loop
        invariant_except_break
            start <= pos <= bytes.len(),
            segment_fields(bytes@, start as int) == (
                fields@ + segment_fields(bytes@, pos as int).0,
                segment_fields(bytes@, pos as int).1,
            ),
        ensures
            pos <= bytes.len(),
            segment_fields(bytes@, start as int) == (fields@, pos as int),
        decreases bytes.len() - pos,
    {
        if pos >= bytes.len() || bytes[pos] == SEGMENT_SEPARATOR || bytes[pos] == LINE_SEPARATOR {
            assert(fields@ + seq![] =~= fields@);
            break;
        }
        proof {
            lemma_vlq_length_bounds(bytes@, pos as int);
        }
        match decode_vlq(bytes, pos) {
            Some((value, consumed)) => {
                let ghost old_fields = fields@;
                let ghost old_pos = pos;
                fields.push(value);
                pos += consumed;
                assert(old_fields + segment_fields(bytes@, old_pos as int).0 =~= fields@
                    + segment_fields(bytes@, pos as int).0);
            },
            None => {
                // Skip invalid character
                assert(fields@ + seq![] =~= fields@);
                pos += 1;
                break;
            },
        }
    }
    (fields, pos)
}

/// Parse a Source Map V3 mappings string into decoded segments grouped by
/// generated line.
pub fn parse_mappings(mappings: &str) -> (lines: Vec<Vec<MappingSegment>>)
    ensures
        lines_view(lines@) == decoded_mappings(mappings.spec_bytes()),
{
    let bytes = mappings.as_bytes();
    let mut lines: Vec<Vec<MappingSegment>> = Vec::new();
    let mut current_line: Vec<MappingSegment> = Vec::new();

    // Running state across the entire mappings string (values are relative)
    let mut gen_col: i32 = 0;
    let mut src_idx: i32 = 0;
    let mut orig_line: i32 = 0;
    let mut orig_col: i32 = 0;
    let mut name_idx: i32 = 0;

    let mut pos: usize = 0;
    let ghost mut done: Seq<MappingToken> = seq![];
    assert(done + mapping_tokens(bytes@, 0) =~= mapping_tokens(bytes@, 0));
    assert(lines_view(lines@) =~= seq![]);

    while pos < bytes.len()
        invariant
            pos <= bytes.len(),
            mapping_tokens(bytes@, 0) == done + mapping_tokens(bytes@, pos as int),
            decode_tokens(done) == (MappingsProgress {
                lines: lines_view(lines@),
                current: current_line@,
                state: DecoderState {
                    generated_column: gen_col,
                    source_index: src_idx,
                    original_line: orig_line,
                    original_column: orig_col,
                    name_index: name_idx,
                },
            }),
        decreases bytes.len() - pos,
    {
        if bytes[pos] == LINE_SEPARATOR {
            // New generated line
            proof {
                assert(mapping_tokens(bytes@, pos as int) == seq![MappingToken::NextLine]
                    + mapping_tokens(bytes@, pos + 1));
                assert(done + mapping_tokens(bytes@, pos as int) =~= done.push(
                    MappingToken::NextLine,
                ) + mapping_tokens(bytes@, pos + 1));
                assert(done.push(MappingToken::NextLine).drop_last() =~= done);
            }
            let ghost old_lines = lines@;
            lines.push(current_line);
            current_line = Vec::new();
            gen_col = 0;
            pos += 1;
            proof {
                done = done.push(MappingToken::NextLine);
                assert(lines_view(lines@) =~= lines_view(old_lines).push(lines@.last()@));
            }
        } else if bytes[pos] == SEGMENT_SEPARATOR {
            // Next segment on the same line
            pos += 1;
        } else {
            // Decode segment fields (1, 4, or 5 VLQ values)
            let ghost seg_start = pos;
            proof {
                lemma_segment_fields_bounds(bytes@, pos as int);
            }
            let (fields, end) = read_segment_fields(bytes, pos);
            pos = end;
            if fields.len() == 0 {
                continue;
            }
            let ghost token = MappingToken::Segment(fields@);
            proof {
                assert(mapping_tokens(bytes@, seg_start as int) == seq![token] + mapping_tokens(
                    bytes@,
                    pos as int,
                ));
                assert(done + mapping_tokens(bytes@, seg_start as int) =~= done.push(token)
                    + mapping_tokens(bytes@, pos as int));
                assert(done.push(token).drop_last() =~= done);
            }

            gen_col = gen_col.wrapping_add(fields[0]);

            let (source_index, original_line, original_column, name_index) = if fields.len()
                >= 4 {
                src_idx = src_idx.wrapping_add(fields[1]);
                orig_line = orig_line.wrapping_add(fields[2]);
                orig_col = orig_col.wrapping_add(fields[3]);
                let ni = if fields.len() >= 5 {
                    name_idx = name_idx.wrapping_add(fields[4]);
                    Some(#[verifier::truncate] (name_idx as u32))
                } else {
                    None
                };
                (
                    Some(#[verifier::truncate] (src_idx as u32)),
                    Some(#[verifier::truncate] (orig_line as u32)),
                    Some(#[verifier::truncate] (orig_col as u32)),
                    ni,
                )
            } else {
                (None, None, None, None)
            };

            current_line.push(
                MappingSegment {
                    generated_column: #[verifier::truncate] (gen_col as u32),
                    source_index,
                    original_line,
                    original_column,
                    name_index,
                },
            );
            proof {
                done = done.push(token);
            }
        }
    }

    // Push final line
    let ghost old_lines = lines@;
    if !current_line.is_empty() {
        lines.push(current_line);
        proof {
            assert(lines_view(lines@) =~= lines_view(old_lines).push(lines@.last()@));
        }
    }
    proof {
        assert(mapping_tokens(bytes@, pos as int) =~= seq![]);
        assert(done + seq![] =~= done);
    }
    lines
}


/// A segment has one field (generated column only), four (with source index,
/// original line and original column) or five (with a name index as well).
pub open spec fn segment_fields_consistent(seg: MappingSegment) -> bool {
    &&& (seg.source_index is Some <==> seg.original_line is Some)
    &&& (seg.original_line is Some <==> seg.original_column is Some)
    &&& (seg.name_index is Some ==> seg.source_index is Some)
}

proof fn lemma_decode_tokens_consistent(tokens: Seq<MappingToken>)
    ensures
        forall|i: int, j: int|
            0 <= i < decode_tokens(tokens).lines.len() && 0 <= j < decode_tokens(
                tokens,
            ).lines[i].len() ==> segment_fields_consistent(
                #[trigger] decode_tokens(tokens).lines[i][j],
            ),
        forall|j: int|
            0 <= j < decode_tokens(tokens).current.len() ==> segment_fields_consistent(
                #[trigger] decode_tokens(tokens).current[j],
            ),
    decreases tokens.len(),
{
    if tokens.len() > 0 {
        lemma_decode_tokens_consistent(tokens.drop_last());
        let p = decode_tokens(tokens.drop_last());
        let q = decode_tokens(tokens);
        match tokens.last() {
            MappingToken::NextLine => {
                assert forall|i: int, j: int|
                    0 <= i < q.lines.len() && 0 <= j < q.lines[i].len() implies segment_fields_consistent(
                    #[trigger] q.lines[i][j],
                ) by {
                    if i < p.lines.len() {
                        assert(q.lines[i] == p.lines[i]);
                    } else {
                        assert(q.lines[i] == p.current);
                    }
                }
            },
            MappingToken::Segment(f) => {
                let seg = apply_segment(p.state, f).1;
                assert(segment_fields_consistent(seg));
                assert forall|j: int| 0 <= j < q.current.len() implies segment_fields_consistent(
                    #[trigger] q.current[j],
                ) by {
                    if j < p.current.len() {
                        assert(q.current[j] == p.current[j]);
                    }
                }
            },
        }
    }
}

/// Law: every decoded segment has its source index, original line and
/// original column all or none, and a name index only with them.
pub proof fn law_segment_fields_consistent(m: Seq<u8>)
    ensures
        forall|i: int, j: int|
            0 <= i < decoded_mappings(m).len() && 0 <= j < decoded_mappings(m)[i].len()
                ==> segment_fields_consistent(#[trigger] decoded_mappings(m)[i][j]),
{
    lemma_decode_tokens_consistent(mapping_tokens(m, 0));
}


/// The number of line separators in `m` from `pos` on.
pub open spec fn line_separators_from(m: Seq<u8>, pos: int) -> nat
    decreases m.len() - pos,
{
    if pos < 0 || pos >= m.len() {
        0
    } else if m[pos] == LINE_SEPARATOR {
        1 + line_separators_from(m, pos + 1)
    } else {
        line_separators_from(m, pos + 1)
    }
}

/// The number of new-line tokens.
pub open spec fn new_lines(tokens: Seq<MappingToken>) -> nat
    decreases tokens.len(),
{
    if tokens.len() == 0 {
        0
    } else {
        new_lines(tokens.drop_last()) + if tokens.last() is NextLine {
            1nat
        } else {
            0nat
        }
    }
}

proof fn lemma_new_lines_append(a: Seq<MappingToken>, b: Seq<MappingToken>)
    ensures
        new_lines(a + b) == new_lines(a) + new_lines(b),
    decreases b.len(),
{
    if b.len() > 0 {
        lemma_new_lines_append(a, b.drop_last());
        assert((a + b).drop_last() =~= a + b.drop_last());
    } else {
        assert(a + b =~= a);
    }
}

/// A segment holds no line separator.
proof fn lemma_segment_has_no_line_separator(m: Seq<u8>, pos: int)
    requires
        0 <= pos < m.len(),
        !is_separator(m[pos]),
    ensures
        line_separators_from(m, pos) == line_separators_from(m, segment_fields(m, pos).1),
    decreases m.len() - pos,
{
    lemma_segment_fields_bounds(m, pos);
    lemma_vlq_length_bounds(m, pos);
    match vlq_length(m, pos) {
        Some(n) => {
            lemma_digits_have_no_line_separator(m, pos, n as int);
            assert(segment_fields(m, pos).1 == segment_fields(m, pos + n).1);
            if pos + n < m.len() && !is_separator(m[pos + n]) {
                lemma_segment_has_no_line_separator(m, pos + n);
            } else {
                assert(segment_fields(m, pos + n).1 == pos + n);
            }
        },
        None => {
            assert(segment_fields(m, pos).1 == pos + 1);
            assert(line_separators_from(m, pos) == line_separators_from(m, pos + 1));
        },
    }
}

/// The digits of a VLQ value are no line separators.
proof fn lemma_digits_have_no_line_separator(m: Seq<u8>, pos: int, n: int)
    requires
        0 <= pos,
        0 <= n,
        pos + n <= m.len(),
        vlq_length(m, pos) matches Some(len) && n <= len,
    ensures
        line_separators_from(m, pos) == line_separators_from(m, pos + n),
    decreases n,
{
    if n > 0 {
        assert(crate::vlq::base64_value(m[pos]) is Some);
        assert(m[pos] != LINE_SEPARATOR);
        if n > 1 {
            lemma_digits_have_no_line_separator(m, pos + 1, n - 1);
        }
    }
}

proof fn lemma_tokens_new_lines(m: Seq<u8>, pos: int)
    requires
        0 <= pos <= m.len(),
    ensures
        new_lines(mapping_tokens(m, pos)) == line_separators_from(m, pos),
    decreases m.len() - pos,
{
    if pos < m.len() {
        if m[pos] == LINE_SEPARATOR {
            lemma_tokens_new_lines(m, pos + 1);
            lemma_new_lines_append(seq![MappingToken::NextLine], mapping_tokens(m, pos + 1));
            assert(seq![MappingToken::NextLine].drop_last() =~= seq![]);
            let nl = seq![MappingToken::NextLine];
            assert(nl.last() == MappingToken::NextLine);
            assert(new_lines(nl.drop_last()) == 0);
            assert(new_lines(nl) == 1);
        } else if m[pos] == SEGMENT_SEPARATOR {
            lemma_tokens_new_lines(m, pos + 1);
        } else {
            assert(line_separators_from(m, pos) == line_separators_from(m, pos + 1));
            lemma_segment_fields_bounds(m, pos);
            let (fields, end) = segment_fields(m, pos);
            lemma_tokens_new_lines(m, end);
            lemma_segment_has_no_line_separator(m, pos);
            if fields.len() > 0 {
                let t = seq![MappingToken::Segment(fields)];
                lemma_new_lines_append(t, mapping_tokens(m, end));
                assert(t.drop_last() =~= seq![]);
                assert(t.last() == MappingToken::Segment(fields));
                assert(new_lines(t.drop_last()) == 0);
                assert(new_lines(t) == 0);
            }
        }
    }
}

proof fn lemma_decode_tokens_lines(tokens: Seq<MappingToken>)
    ensures
        decode_tokens(tokens).lines.len() == new_lines(tokens),
    decreases tokens.len(),
{
    if tokens.len() > 0 {
        lemma_decode_tokens_lines(tokens.drop_last());
    }
}

/// Law: each `;` ends a generated line, and one more line follows the last
/// only where it holds a segment: the number of lines is the number of `;`,
/// or one more.
pub proof fn law_line_count(m: Seq<u8>)
    ensures
        line_separators_from(m, 0) <= decoded_mappings(m).len() <= line_separators_from(m, 0) + 1,
{
    lemma_tokens_new_lines(m, 0);
    lemma_decode_tokens_lines(mapping_tokens(m, 0));
}


/// The fifth fields of the segments of five fields, in order.
pub open spec fn fifth_fields(tokens: Seq<MappingToken>) -> Seq<i32>
    decreases tokens.len(),
{
    if tokens.len() == 0 {
        seq![]
    } else {
        let before = fifth_fields(tokens.drop_last());
        match tokens.last() {
            MappingToken::Segment(f) => if f.len() >= 5 {
                before.push(f[4])
            } else {
                before
            },
            MappingToken::NextLine => before,
        }
    }
}

/// The running sums of `xs`, each wrapping around in 32 bits: the `k`-th is
/// the sum of the first `k + 1` values.
pub open spec fn running_sums(xs: Seq<i32>) -> Seq<i32>
    decreases xs.len(),
{
    if xs.len() == 0 {
        seq![]
    } else {
        let before = running_sums(xs.drop_last());
        let prev: i32 = if before.len() == 0 {
            0
        } else {
            before.last()
        };
        before.push(vstd::wrapping::i32_specs::wrapping_add(prev, xs.last()))
    }
}

/// The name indices that the segments of a line carry, in order.
pub open spec fn line_names(line: Seq<MappingSegment>) -> Seq<u32>
    decreases line.len(),
{
    if line.len() == 0 {
        seq![]
    } else {
        line_names(line.drop_last()) + match line.last().name_index {
            Some(n) => seq![n],
            None => seq![],
        }
    }
}

/// The name indices that the segments of all lines carry, line by line.
pub open spec fn lines_names(lines: Seq<Seq<MappingSegment>>) -> Seq<u32>
    decreases lines.len(),
{
    if lines.len() == 0 {
        seq![]
    } else {
        lines_names(lines.drop_last()) + line_names(lines.last())
    }
}

pub open spec fn as_u32s(xs: Seq<i32>) -> Seq<u32> {
    xs.map_values(|x: i32| x as u32)
}

proof fn lemma_running_sums_len(xs: Seq<i32>)
    ensures
        running_sums(xs).len() == xs.len(),
    decreases xs.len(),
{
    if xs.len() > 0 {
        lemma_running_sums_len(xs.drop_last());
    }
}

proof fn lemma_decode_tokens_names(tokens: Seq<MappingToken>)
    ensures
        lines_names(decode_tokens(tokens).lines) + line_names(decode_tokens(tokens).current)
            == as_u32s(running_sums(fifth_fields(tokens))),
        decode_tokens(tokens).state.name_index == if fifth_fields(tokens).len() == 0 {
            0i32
        } else {
            running_sums(fifth_fields(tokens)).last()
        },
    decreases tokens.len(),
{
    lemma_running_sums_len(fifth_fields(tokens));
    if tokens.len() > 0 {
        let init = tokens.drop_last();
        lemma_decode_tokens_names(init);
        lemma_running_sums_len(fifth_fields(init));
        let p = decode_tokens(init);
        let q = decode_tokens(tokens);
        let before = fifth_fields(init);
        match tokens.last() {
            MappingToken::NextLine => {
                assert(q.lines == p.lines.push(p.current));
                assert(q.lines.drop_last() =~= p.lines);
                assert(line_names(q.current) =~= seq![]);
                assert(lines_names(q.lines) == lines_names(p.lines) + line_names(p.current));
                assert(lines_names(q.lines) + line_names(q.current) =~= lines_names(q.lines));
            },
            MappingToken::Segment(f) => {
                let seg = apply_segment(p.state, f).1;
                assert(q.current == p.current.push(seg));
                assert(q.current.drop_last() =~= p.current);
                assert(q.lines == p.lines);
                if f.len() >= 5 {
                    let rs = running_sums(before.push(f[4]));
                    assert(before.push(f[4]).drop_last() =~= before);
                    assert(as_u32s(rs) =~= as_u32s(running_sums(before)).push(rs.last() as u32));
                    assert(lines_names(q.lines) + line_names(q.current) =~= (lines_names(p.lines)
                        + line_names(p.current)).push(rs.last() as u32));
                } else {
                    assert(line_names(q.current) =~= line_names(p.current) + seq![]);
                    assert(lines_names(q.lines) + line_names(q.current) =~= lines_names(p.lines)
                        + line_names(p.current));
                }
            },
        }
    } else {
        assert(lines_names(seq![]) + line_names(seq![]) =~= seq![]);
        assert(as_u32s(seq![]) =~= seq![]);
    }
}

/// Law: the name index of a segment is a running value. The name indices
/// that the decoded segments carry, in order, are the running sums (wrapping
/// in 32 bits) of the fifth fields of the segments of five fields, across
/// segments and lines.
pub proof fn law_name_index_running_sum(m: Seq<u8>)
    ensures
        lines_names(decoded_mappings(m)) == as_u32s(running_sums(fifth_fields(mapping_tokens(m, 0)))),
{
    let p = decode_tokens(mapping_tokens(m, 0));
    lemma_decode_tokens_names(mapping_tokens(m, 0));
    if p.current.len() > 0 {
        assert(p.lines.push(p.current).drop_last() =~= p.lines);
    } else {
        assert(line_names(p.current) =~= seq![]);
        assert(lines_names(p.lines) + seq![] =~= lines_names(p.lines));
    }
}


/// The running value that field `k` of a segment moves: 1 the source index,
/// 2 the original line, 3 the original column, 4 the name index.
pub open spec fn state_value(st: DecoderState, k: int) -> i32 {
    if k == 1 {
        st.source_index
    } else if k == 2 {
        st.original_line
    } else if k == 3 {
        st.original_column
    } else {
        st.name_index
    }
}

/// The value of field `k` that a decoded segment carries.
pub open spec fn segment_value(seg: MappingSegment, k: int) -> Option<u32> {
    if k == 1 {
        seg.source_index
    } else if k == 2 {
        seg.original_line
    } else if k == 3 {
        seg.original_column
    } else {
        seg.name_index
    }
}

/// The number of fields a segment needs to carry field `k`.
pub open spec fn fields_needed(k: int) -> int {
    if k == 4 {
        5
    } else {
        4
    }
}

/// Field `k` of the segments that have it, in order.
pub open spec fn kth_fields(tokens: Seq<MappingToken>, k: int) -> Seq<i32>
    decreases tokens.len(),
{
    if tokens.len() == 0 {
        seq![]
    } else {
        let before = kth_fields(tokens.drop_last(), k);
        match tokens.last() {
            MappingToken::Segment(f) => if f.len() >= fields_needed(k) {
                before.push(f[k])
            } else {
                before
            },
            MappingToken::NextLine => before,
        }
    }
}

/// The values of field `k` that the segments of a line carry, in order.
pub open spec fn line_values(line: Seq<MappingSegment>, k: int) -> Seq<u32>
    decreases line.len(),
{
    if line.len() == 0 {
        seq![]
    } else {
        line_values(line.drop_last(), k) + match segment_value(line.last(), k) {
            Some(n) => seq![n],
            None => seq![],
        }
    }
}

/// The values of field `k` that the segments of all lines carry, line by line.
pub open spec fn lines_values(lines: Seq<Seq<MappingSegment>>, k: int) -> Seq<u32>
    decreases lines.len(),
{
    if lines.len() == 0 {
        seq![]
    } else {
        lines_values(lines.drop_last(), k) + line_values(lines.last(), k)
    }
}

proof fn lemma_decode_tokens_values(tokens: Seq<MappingToken>, k: int)
    requires
        1 <= k <= 4,
    ensures
        lines_values(decode_tokens(tokens).lines, k) + line_values(decode_tokens(tokens).current, k)
            == as_u32s(running_sums(kth_fields(tokens, k))),
        state_value(decode_tokens(tokens).state, k) == if kth_fields(tokens, k).len() == 0 {
            0i32
        } else {
            running_sums(kth_fields(tokens, k)).last()
        },
    decreases tokens.len(),
{
    lemma_running_sums_len(kth_fields(tokens, k));
    if tokens.len() > 0 {
        let init = tokens.drop_last();
        lemma_decode_tokens_values(init, k);
        lemma_running_sums_len(kth_fields(init, k));
        let p = decode_tokens(init);
        let q = decode_tokens(tokens);
        let before = kth_fields(init, k);
        match tokens.last() {
            MappingToken::NextLine => {
                assert(q.lines == p.lines.push(p.current));
                assert(q.lines.drop_last() =~= p.lines);
                assert(line_values(q.current, k) =~= seq![]);
                assert(lines_values(q.lines, k) == lines_values(p.lines, k) + line_values(
                    p.current,
                    k,
                ));
                assert(lines_values(q.lines, k) + line_values(q.current, k) =~= lines_values(
                    q.lines,
                    k,
                ));
            },
            MappingToken::Segment(f) => {
                let seg = apply_segment(p.state, f).1;
                assert(q.current == p.current.push(seg));
                assert(q.current.drop_last() =~= p.current);
                assert(q.lines == p.lines);
                if f.len() >= fields_needed(k) {
                    let rs = running_sums(before.push(f[k]));
                    assert(before.push(f[k]).drop_last() =~= before);
                    assert(as_u32s(rs) =~= as_u32s(running_sums(before)).push(rs.last() as u32));
                    assert(segment_value(seg, k) == Some(rs.last() as u32));
                    assert(lines_values(q.lines, k) + line_values(q.current, k) =~= (lines_values(
                        p.lines,
                        k,
                    ) + line_values(p.current, k)).push(rs.last() as u32));
                } else {
                    assert(segment_value(seg, k) is None);
                    assert(line_values(q.current, k) =~= line_values(p.current, k) + seq![]);
                    assert(lines_values(q.lines, k) + line_values(q.current, k) =~= lines_values(
                        p.lines,
                        k,
                    ) + line_values(p.current, k));
                }
            },
        }
    } else {
        assert(lines_values(seq![], k) + line_values(seq![], k) =~= seq![]);
        assert(as_u32s(seq![]) =~= seq![]);
    }
}

/// Law: the source index, the original line, the original column and the
/// name index are running values across segments and lines. For `k` from 1
/// to 4, the values of that field that the decoded segments carry, in order,
/// are the running sums (wrapping in 32 bits) of field `k` of the segments
/// that have it (four fields, five for the name index).
pub proof fn law_running_values(m: Seq<u8>, k: int)
    requires
        1 <= k <= 4,
    ensures
        lines_values(decoded_mappings(m), k) == as_u32s(
            running_sums(kth_fields(mapping_tokens(m, 0), k)),
        ),
{
    let p = decode_tokens(mapping_tokens(m, 0));
    lemma_decode_tokens_values(mapping_tokens(m, 0), k);
    if p.current.len() > 0 {
        assert(p.lines.push(p.current).drop_last() =~= p.lines);
    } else {
        assert(line_values(p.current, k) =~= seq![]);
        assert(lines_values(p.lines, k) + seq![] =~= lines_values(p.lines, k));
    }
}


/// The first fields of the segments, grouped by generated line: a new line
/// starts a new group.
pub open spec fn first_field_groups(tokens: Seq<MappingToken>) -> Seq<Seq<i32>>
    decreases tokens.len(),
{
    if tokens.len() == 0 {
        seq![seq![]]
    } else {
        let before = first_field_groups(tokens.drop_last());
        match tokens.last() {
            MappingToken::NextLine => before.push(seq![]),
            MappingToken::Segment(f) => before.update(
                before.len() - 1,
                before.last().push(f[0]),
            ),
        }
    }
}

/// The generated columns of the segments of a line, in order.
pub open spec fn line_columns(line: Seq<MappingSegment>) -> Seq<u32> {
    line.map_values(|seg: MappingSegment| seg.generated_column)
}

proof fn lemma_decode_tokens_columns(tokens: Seq<MappingToken>)
    ensures
        ({
            let p = decode_tokens(tokens);
            let g = first_field_groups(tokens);
            &&& g.len() == p.lines.len() + 1
            &&& forall|i: int|
                0 <= i < p.lines.len() ==> line_columns(#[trigger] p.lines[i]) == as_u32s(
                    running_sums(g[i]),
                )
            &&& line_columns(p.current) == as_u32s(running_sums(g.last()))
            &&& p.state.generated_column == if g.last().len() == 0 {
                0i32
            } else {
                running_sums(g.last()).last()
            }
        }),
    decreases tokens.len(),
{
    if tokens.len() == 0 {
        assert(line_columns(seq![]) =~= seq![]);
        assert(as_u32s(running_sums(seq![])) =~= seq![]);
    } else {
        let init = tokens.drop_last();
        lemma_decode_tokens_columns(init);
        let p = decode_tokens(init);
        let q = decode_tokens(tokens);
        let g = first_field_groups(init);
        let h = first_field_groups(tokens);
        lemma_running_sums_len(g.last());
        match tokens.last() {
            MappingToken::NextLine => {
                assert(h == g.push(seq![]));
                assert(q.lines == p.lines.push(p.current));
                assert forall|i: int| 0 <= i < q.lines.len() implies line_columns(
                    #[trigger] q.lines[i],
                ) == as_u32s(running_sums(h[i])) by {
                    if i < p.lines.len() {
                        assert(q.lines[i] == p.lines[i]);
                        assert(h[i] == g[i]);
                    } else {
                        assert(q.lines[i] == p.current);
                        assert(h[i] == g.last());
                    }
                }
                assert(line_columns(q.current) =~= seq![]);
                assert(as_u32s(running_sums(h.last())) =~= seq![]);
            },
            MappingToken::Segment(f) => {
                let seg = apply_segment(p.state, f).1;
                let grp = g.last().push(f[0]);
                assert(h == g.update(g.len() - 1, grp));
                assert(q.current == p.current.push(seg));
                assert(q.lines == p.lines);
                assert forall|i: int| 0 <= i < q.lines.len() implies line_columns(
                    #[trigger] q.lines[i],
                ) == as_u32s(running_sums(h[i])) by {
                    assert(h[i] == g[i]);
                }
                assert(h.last() == grp);
                assert(grp.drop_last() =~= g.last());
                let rs = running_sums(grp);
                assert(as_u32s(rs) =~= as_u32s(running_sums(g.last())).push(rs.last() as u32));
                assert(seg.generated_column == rs.last() as u32);
                assert(line_columns(q.current) =~= line_columns(p.current).push(
                    seg.generated_column,
                ));
            },
        }
    }
}

/// Law: the generated column starts again at each generated line. The
/// generated columns of the segments of line `i` are the running sums
/// (wrapping in 32 bits) of the first fields of the segments of that line.
pub proof fn law_generated_columns(m: Seq<u8>, i: int)
    requires
        0 <= i < decoded_mappings(m).len(),
    ensures
        line_columns(decoded_mappings(m)[i]) == as_u32s(
            running_sums(first_field_groups(mapping_tokens(m, 0))[i]),
        ),
{
    let t = mapping_tokens(m, 0);
    let p = decode_tokens(t);
    lemma_decode_tokens_columns(t);
    if i < p.lines.len() {
        assert(decoded_mappings(m)[i] == p.lines[i]);
    } else {
        assert(decoded_mappings(m)[i] == p.current);
    }
}

} // verus!
