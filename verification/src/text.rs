//! Text helpers: UTF-8 validation, Unicode white space, trimming and prefixes.

use vstd::prelude::*;
use vstd::string::StringSliceAdditionalSpecFns;
use vstd::string::StrSliceExecFns;
use vstd::utf8::{decode_utf8, valid_utf8};

verus! {

broadcast use vstd::string::group_string_axioms;

/// The text that UTF-8 bytes encode, or `None` where they are not valid UTF-8.
pub open spec fn utf8_text(bytes: Seq<u8>) -> Option<Seq<char>> {
    if valid_utf8(bytes) {
        Some(decode_utf8(bytes))
    } else {
        None
    }
}

/// `std::str::from_utf8`, which is assumed to succeed exactly on valid UTF-8
/// and then to give the string whose UTF-8 encoding is the input.
#[verifier::external_body]
fn str_from_utf8(bytes: &[u8]) -> (r: Option<&str>)
    ensures
        r is Some <==> valid_utf8(bytes@),
        r matches Some(s) ==> s.spec_bytes() == bytes@,
{
    std::str::from_utf8(bytes).ok()
}

/// The text of UTF-8 bytes as a `String`, or `None` where they are not valid
/// UTF-8.
pub fn utf8_to_string(bytes: &[u8]) -> (r: Option<String>)
    ensures
        match r {
            Some(s) => utf8_text(bytes@) == Some(s@),
            None => utf8_text(bytes@) is None,
        },
{
    match str_from_utf8(bytes) {
        Some(s) => {
            proof {
                vstd::utf8::encode_utf8_decode_utf8(s@);
            }
            Some(s.to_owned())
        },
        None => None,
    }
}

/// Whether a character has the Unicode `White_Space` property (the white
/// space of `char::is_whitespace` and `str::trim`).
pub open spec fn white_space(c: char) -> bool {
    let u = c as u32;
    ||| 0x09 <= u <= 0x0d
    ||| u == 0x20
    ||| u == 0x85
    ||| u == 0xa0
    ||| u == 0x1680
    ||| 0x2000 <= u <= 0x200a
    ||| u == 0x2028
    ||| u == 0x2029
    ||| u == 0x202f
    ||| u == 0x205f
    ||| u == 0x3000
}

/// Whether a character has the Unicode `White_Space` property.
pub fn is_white_space(c: char) -> (r: bool)
    ensures
        r == white_space(c),
{
    let u = c as u32;
    (0x09 <= u && u <= 0x0d) || u == 0x20 || u == 0x85 || u == 0xa0 || u == 0x1680 || (0x2000
        <= u && u <= 0x200a) || u == 0x2028 || u == 0x2029 || u == 0x202f || u == 0x205f || u
        == 0x3000
}

/// The number of white-space characters at the start of `s`.
pub open spec fn leading_white_space(s: Seq<char>) -> nat
    decreases s.len(),
{
    if s.len() > 0 && white_space(s[0]) {
        1 + leading_white_space(s.drop_first())
    } else {
        0
    }
}

/// The number of white-space characters at the end of `s`.
pub open spec fn trailing_white_space(s: Seq<char>) -> nat
    decreases s.len(),
{
    if s.len() > 0 && white_space(s.last()) {
        1 + trailing_white_space(s.drop_last())
    } else {
        0
    }
}

/// `s` without its leading white space.
pub open spec fn trim_start(s: Seq<char>) -> Seq<char> {
    s.skip(leading_white_space(s) as int)
}

/// `s` without its leading and trailing white space.
pub open spec fn trim(s: Seq<char>) -> Seq<char> {
    let t = trim_start(s);
    t.take(t.len() - trailing_white_space(t))
}

pub proof fn lemma_leading_white_space(s: Seq<char>)
    ensures
        leading_white_space(s) <= s.len(),
        forall|i: int| 0 <= i < leading_white_space(s) ==> white_space(#[trigger] s[i]),
        leading_white_space(s) < s.len() ==> !white_space(s[leading_white_space(s) as int]),
    decreases s.len(),
{
    if s.len() > 0 && white_space(s[0]) {
        lemma_leading_white_space(s.drop_first());
        assert forall|i: int| 0 <= i < leading_white_space(s) implies white_space(#[trigger] s[i]) by {
            if i > 0 {
                assert(s[i] == s.drop_first()[i - 1]);
            }
        }
    }
}

/// A run of white space followed by a character that is not white space, or
/// by the end, is the leading white space.
pub proof fn lemma_leading_white_space_is(s: Seq<char>, n: int)
    requires
        0 <= n <= s.len(),
        forall|i: int| 0 <= i < n ==> white_space(#[trigger] s[i]),
        n < s.len() ==> !white_space(s[n]),
    ensures
        leading_white_space(s) == n,
    decreases n,
{
    if n > 0 {
        lemma_leading_white_space_is(s.drop_first(), n - 1);
    }
}

/// A run of white space at the end, preceded by a character that is not white
/// space or by the start, is the trailing white space.
proof fn lemma_trailing_white_space_is(s: Seq<char>, n: int)
    requires
        0 <= n <= s.len(),
        forall|i: int| s.len() - n <= i < s.len() ==> white_space(#[trigger] s[i]),
        n < s.len() ==> !white_space(s[s.len() - n - 1]),
    ensures
        trailing_white_space(s) == n,
    decreases n,
{
    if n > 0 {
        lemma_trailing_white_space_is(s.drop_last(), n - 1);
    }
}

proof fn lemma_trailing_white_space(s: Seq<char>)
    ensures
        trailing_white_space(s) <= s.len(),
        forall|i: int|
            s.len() - trailing_white_space(s) <= i < s.len() ==> white_space(#[trigger] s[i]),
        trailing_white_space(s) < s.len() ==> !white_space(
            s[s.len() - trailing_white_space(s) - 1],
        ),
    decreases s.len(),
{
    if s.len() > 0 && white_space(s.last()) {
        let t = s.drop_last();
        lemma_trailing_white_space(t);
        assert forall|i: int|
            s.len() - trailing_white_space(s) <= i < s.len() implies white_space(#[trigger] s[i]) by {
            if i < s.len() - 1 {
                assert(s[i] == t[i]);
            }
        }
        if trailing_white_space(s) < s.len() {
            assert(s[s.len() - trailing_white_space(s) - 1] == t[t.len() - trailing_white_space(t) - 1]);
        }
    }
}

/// Law: trimming removes white space from both ends and nothing else: the
/// result is a part `a..b` of the text, every character before `a` and from
/// `b` on is white space, and a non-empty result starts and ends with a
/// character that is not.
pub proof fn law_trim(s: Seq<char>)
    ensures
        exists|a: int, b: int|
            {
                &&& 0 <= a <= b <= s.len()
                &&& trim(s) == s.subrange(a, b)
                &&& forall|i: int| 0 <= i < a ==> white_space(#[trigger] s[i])
                &&& forall|i: int| b <= i < s.len() ==> white_space(#[trigger] s[i])
                &&& a < b ==> !white_space(s[a]) && !white_space(s[b - 1])
            },
{
    lemma_leading_white_space(s);
    let a = leading_white_space(s) as int;
    let t = s.skip(a);
    lemma_trailing_white_space(t);
    let b = s.len() - trailing_white_space(t);
    assert(trim(s) =~= s.subrange(a, b));
    assert forall|i: int| b <= i < s.len() implies white_space(#[trigger] s[i]) by {
        assert(s[i] == t[i - a]);
    }
    if a < b {
        assert(s[b - 1] == t[t.len() - trailing_white_space(t) - 1]);
    }
}

/// The characters of a string.
pub fn chars_of(s: &str) -> (r: Vec<char>)
    ensures
        r@ == s@,
{
    let mut out: Vec<char> = Vec::new();
    for c in it: s.chars()
        invariant
            it.seq() == s@,
            out@ == it.seq().take(it.index() as int),
    {
        assert(it.seq().take(it.index() + 1) =~= out@.push(c));
        out.push(c);
    }
    assert(out@ =~= s@);
    out
}


/// The number of white-space characters at the start of `cs`.
fn count_leading_white_space(cs: &Vec<char>) -> (n: usize)
    ensures
        n == leading_white_space(cs@),
{
    let mut n: usize = 0;
    while n < cs.len() && is_white_space(cs[n])
        invariant
            n <= cs.len(),
            forall|i: int| 0 <= i < n ==> white_space(#[trigger] cs@[i]),
        decreases cs.len() - n,
    {
        n += 1;
    }
    proof {
        lemma_leading_white_space_is(cs@, n as int);
    }
    n
}

/// `s` without its leading and trailing white space, as `str::trim` gives it.
pub fn trim_str(s: &str) -> (r: &str)
    ensures
        r@ == trim(s@),
{
    let cs = chars_of(s);
    let start = count_leading_white_space(&cs);
    proof {
        lemma_leading_white_space(cs@);
    }
    let mut end: usize = cs.len();
    while end > start && is_white_space(cs[end - 1])
        invariant
            start <= end <= cs.len(),
            forall|i: int| end <= i < cs.len() ==> white_space(#[trigger] cs@[i]),
        decreases end,
    {
        end -= 1;
    }
    proof {
        let t = cs@.skip(start as int);
        lemma_leading_white_space(cs@);
        assert forall|i: int| t.len() - (cs.len() - end) <= i < t.len() implies white_space(
            #[trigger] t[i],
        ) by {
            assert(t[i] == cs@[start + i]);
        }
        if end > start {
            assert(t[t.len() - (cs.len() - end) - 1] == cs@[end - 1]);
        }
        lemma_trailing_white_space_is(t, cs.len() - end);
        assert(trim(s@) =~= s@.subrange(start as int, end as int));
    }
    s.substring_char(start, end)
}

/// Whether the first character of `s` other than white space is `c`, as
/// `s.trim_start().starts_with(c)` reports it.
pub fn first_non_white_space_is(s: &str, c: char) -> (r: bool)
    ensures
        r == (trim_start(s@).len() > 0 && trim_start(s@)[0] == c),
{
    let cs = chars_of(s);
    let start = count_leading_white_space(&cs);
    proof {
        lemma_leading_white_space(cs@);
    }
    start < cs.len() && cs[start] == c
}

/// Whether `p` is a prefix of `s`.
pub fn has_prefix(s: &Vec<char>, p: &Vec<char>) -> (r: bool)
    ensures
        r == (p@.len() <= s@.len() && s@.take(p@.len() as int) == p@),
{
    if p.len() > s.len() {
        return false;
    }
    let mut i: usize = 0;
    while i < p.len()
        invariant
            p.len() <= s.len(),
            i <= p.len(),
            forall|j: int| 0 <= j < i ==> s@[j] == p@[j],
        decreases p.len() - i,
    {
        if s[i] != p[i] {
            assert(s@.take(p@.len() as int)[i as int] != p@[i as int]);
            return false;
        }
        i += 1;
    }
    assert(s@.take(p@.len() as int) =~= p@);
    true
}

} // verus!
