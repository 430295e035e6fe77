//! Which part of a search hit's snippet shows the query in the accent colour.
use vstd::prelude::*;
use vstd::string::{StrSliceExecFns, StringSliceAdditionalSpecFns};
use crate::calendar::CalendarDay;
use vstd::utf8::{encode_utf8, is_char_boundary};

verus! {

/// Whether `c` has the Unicode `White_Space` property.
pub open spec fn white_space(c: char) -> bool {
    let v = c as u32;
    (0x9 <= v <= 0xD) || v == 0x20 || v == 0x85 || v == 0xA0 || v == 0x1680 || (0x2000 <= v
        <= 0x200A) || v == 0x2028 || v == 0x2029 || v == 0x202F || v == 0x205F || v == 0x3000
}

/// `s` without its leading white space.
pub open spec fn trimmed_start(s: Seq<char>) -> Seq<char>
    decreases s.len(),
{
    if s.len() > 0 && white_space(s[0]) {
        trimmed_start(s.drop_first())
    } else {
        s
    }
}

/// `s` without its trailing white space.
pub open spec fn trimmed_end(s: Seq<char>) -> Seq<char>
    decreases s.len(),
{
    if s.len() > 0 && white_space(s.last()) {
        trimmed_end(s.drop_last())
    } else {
        s
    }
}

/// `s` without its leading and trailing white space.
pub open spec fn trimmed(s: Seq<char>) -> Seq<char> {
    trimmed_end(trimmed_start(s))
}

/// The characters `str::to_lowercase` makes of `s`.
pub uninterp spec fn lowercased(s: Seq<char>) -> Seq<char>;

/// Whether `c` has the Unicode `White_Space` property.
fn is_white_space(c: char) -> (r: bool)
    ensures
        r == white_space(c),
{
    let v = c as u32;
    (0x9 <= v && v <= 0xD) || v == 0x20 || v == 0x85 || v == 0xA0 || v == 0x1680 || (0x2000 <= v
        && v <= 0x200A) || v == 0x2028 || v == 0x2029 || v == 0x202F || v == 0x205F || v == 0x3000
}

/// Skipping `a` leading white-space characters, up to one that is not, trims the start.
proof fn lemma_trimmed_start_at(s: Seq<char>, a: int)
    requires
        0 <= a <= s.len(),
        forall|i: int| 0 <= i < a ==> white_space(#[trigger] s[i]),
        a == s.len() || !white_space(s[a]),
    ensures
        trimmed_start(s) == s.subrange(a, s.len() as int),
    decreases a,
{
    if a == 0 {
        assert(s.subrange(0, s.len() as int) =~= s);
    } else {
        let rest = s.drop_first();
        assert forall|i: int| 0 <= i < a - 1 implies white_space(#[trigger] rest[i]) by {
            assert(rest[i] == s[i + 1]);
        }
        assert(a - 1 == rest.len() || rest[a - 1] == s[a]);
        lemma_trimmed_start_at(rest, a - 1);
        assert(white_space(s[0]));
        assert(rest.subrange(a - 1, rest.len() as int) =~= s.subrange(a, s.len() as int));
    }
}

/// Dropping trailing white-space characters down to `b`, after one that is not, trims the end.
proof fn lemma_trimmed_end_at(t: Seq<char>, b: int)
    requires
        0 <= b <= t.len(),
        forall|i: int| b <= i < t.len() ==> white_space(#[trigger] t[i]),
        b == 0 || !white_space(t[b - 1]),
    ensures
        trimmed_end(t) == t.subrange(0, b),
    decreases t.len() - b,
{
    if b == t.len() {
        assert(t.subrange(0, b) =~= t);
    } else {
        let rest = t.drop_last();
        assert forall|i: int| b <= i < rest.len() implies white_space(#[trigger] rest[i]) by {
            assert(rest[i] == t[i]);
        }
        assert(b == 0 || rest[b - 1] == t[b - 1]);
        lemma_trimmed_end_at(rest, b);
        assert(white_space(t[t.len() - 1]));
        assert(rest.subrange(0, b) =~= t.subrange(0, b));
    }
}

/// `s` without its leading and trailing white space, as `str::trim` gives it.
fn trim_text(s: &str) -> (r: &str)
    ensures
        r@ == trimmed(s@),
{
    let n = s.unicode_len();
    let mut a: usize = 0;
    while a < n && is_white_space(s.get_char(a))
        invariant
            n == s@.len(),
            a <= n,
            forall|i: int| 0 <= i < a ==> white_space(#[trigger] s@[i]),
        decreases n - a,
    {
        a = a + 1;
    }
    let mut b: usize = n;
    while b > a && is_white_space(s.get_char(b - 1))
        invariant
            n == s@.len(),
            a <= b <= n,
            forall|i: int| b <= i < n ==> white_space(#[trigger] s@[i]),
        decreases b,
    {
        b = b - 1;
    }
    proof {
        lemma_trimmed_start_at(s@, a as int);
        let t = s@.subrange(a as int, n as int);
        assert forall|i: int| b - a <= i < t.len() implies white_space(#[trigger] t[i]) by {
            assert(t[i] == s@[a + i]);
        }
        if b > a {
            assert(t[b - a - 1] == s@[b - 1]);
        }
        lemma_trimmed_end_at(t, b - a);
        assert(t.subrange(0, b - a) =~= s@.subrange(a as int, b as int));
    }
    s.substring_char(a, b)
}

/// Calls `str::to_lowercase`, which maps every character to its Unicode
/// lowercase form. What it returns depends on `s` alone; the contract names it
/// and says no more (the case tables are Unicode's).
#[verifier::external_body]
fn lowercase_text(s: &str) -> (r: String)
    ensures
        r@ == lowercased(s@),
{
    s.to_lowercase()
}

/// `needle` occurs in `haystack` at byte `i`.
pub open spec fn matches_at(haystack: Seq<u8>, needle: Seq<u8>, i: int) -> bool {
    0 <= i && i + needle.len() <= haystack.len() && haystack.subrange(i, i + needle.len())
        == needle
}

/// `i` is the first byte at which `needle` occurs in `haystack`.
pub open spec fn is_first_match(haystack: Seq<u8>, needle: Seq<u8>, i: int) -> bool {
    matches_at(haystack, needle, i) && forall|j: int| 0 <= j < i ==> !matches_at(haystack, needle, j)
}

/// The first byte at which `needle` occurs in `haystack`, if it occurs.
pub open spec fn first_match(haystack: Seq<u8>, needle: Seq<u8>) -> Option<int> {
    if exists|i: int| is_first_match(haystack, needle, i) {
        Some(choose|i: int| is_first_match(haystack, needle, i))
    } else {
        None
    }
}

/// At most one byte is the first match.
proof fn lemma_first_match_unique(haystack: Seq<u8>, needle: Seq<u8>, i: int)
    requires
        is_first_match(haystack, needle, i),
    ensures
        first_match(haystack, needle) == Some(i),
{
    let c = choose|k: int| is_first_match(haystack, needle, k);
    assert(is_first_match(haystack, needle, c));
}

/// The first byte at which `needle` occurs in `haystack`.
fn find_bytes(haystack: &[u8], needle: &[u8]) -> (r: Option<usize>)
    ensures
        r matches Some(i) ==> is_first_match(haystack@, needle@, i as int),
        r is None ==> forall|i: int| !matches_at(haystack@, needle@, i),
{
    if needle.len() > haystack.len() {
        return None;
    }
    let last = haystack.len() - needle.len();
    let mut i: usize = 0;
    assert(haystack@.len() == haystack.len());
    while i <= last
        invariant
            last == haystack@.len() - needle@.len(),
            haystack@.len() <= usize::MAX,
            i <= last + 1,
            forall|j: int| 0 <= j < i ==> !matches_at(haystack@, needle@, j),
        decreases last + 1 - i,
    {
        let mut k: usize = 0;
        while k < needle.len() && haystack[i + k] == needle[k]
            invariant
                i <= last,
                last == haystack@.len() - needle@.len(),
                i + needle@.len() <= haystack@.len() <= usize::MAX,
                k <= needle@.len(),
                forall|m: int| 0 <= m < k ==> haystack@[i + m] == needle@[m],
            decreases needle@.len() - k,
        {
            k = k + 1;
        }
        if k == needle.len() {
            assert(haystack@.subrange(i as int, i + needle@.len()) =~= needle@);
            return Some(i);
        }
        assert(haystack@.subrange(i as int, i + needle@.len())[k as int] != needle@[k as int]);
        i = i + 1;
    }
    None
}

/// The byte range of `text` to highlight, given the lowercase text and the
/// lowercase needle: where the needle first occurs in the lowercase text, when
/// that range starts and ends on character boundaries of `text`.
pub open spec fn highlight_range(text: Seq<u8>, lower: Seq<u8>, needle: Seq<u8>) -> Option<
    (usize, usize),
> {
    match first_match(lower, needle) {
        Some(start) => {
            let end = start + needle.len();
            if is_char_boundary(text, start) && is_char_boundary(text, end) {
                Some((start as usize, end as usize))
            } else {
                None
            }
        },
        None => None,
    }
}

/// The byte range of `text` to highlight, given the lowercase forms of the
/// text and of the query.
pub fn highlight_in(text: &str, lower: &str, needle: &str) -> (r: Option<(usize, usize)>)
    ensures
        r == highlight_range(text.spec_bytes(), lower.spec_bytes(), needle.spec_bytes()),
{
    let lower_bytes = lower.as_bytes();
    let needle_bytes = needle.as_bytes();
    match find_bytes(lower_bytes, needle_bytes) {
        Some(start) => {
            proof {
                lemma_first_match_unique(lower_bytes@, needle_bytes@, start as int);
            }
            assert(lower_bytes@.len() == lower_bytes.len());
            let end = start + needle_bytes.len();
            if text.is_char_boundary(start) && text.is_char_boundary(end) {
                Some((start, end))
            } else {
                None
            }
        },
        None => {
            proof {
                if exists|i: int| is_first_match(lower_bytes@, needle_bytes@, i) {
                    let i = choose|i: int| is_first_match(lower_bytes@, needle_bytes@, i);
                    assert(matches_at(lower_bytes@, needle_bytes@, i));
                }
            }
            None
        },
    }
}

/// A query of white space alone trims to nothing.
pub proof fn lemma_blank_trims_to_nothing(s: Seq<char>)
    requires
        forall|i: int| 0 <= i < s.len() ==> white_space(#[trigger] s[i]),
    ensures
        trimmed(s).len() == 0,
    decreases s.len(),
{
    if s.len() > 0 {
        assert forall|i: int| 0 <= i < s.drop_first().len() implies white_space(
            #[trigger] s.drop_first()[i],
        ) by {
            assert(s.drop_first()[i] == s[i + 1]);
        }
        lemma_blank_trims_to_nothing(s.drop_first());
        assert(white_space(s[0]));
    }
}

/// The first position, from `from` on, that holds no white space (the
/// length when there is none).
proof fn leading_white(s: Seq<char>, from: int) -> (a: int)
    requires
        0 <= from <= s.len(),
        forall|i: int| 0 <= i < from ==> white_space(#[trigger] s[i]),
    ensures
        from <= a <= s.len(),
        forall|i: int| 0 <= i < a ==> white_space(#[trigger] s[i]),
        a == s.len() || !white_space(s[a]),
    decreases s.len() - from,
{
    if from == s.len() || !white_space(s[from]) {
        from
    } else {
        leading_white(s, from + 1)
    }
}

/// The end of `t` once the white space after position `to` is dropped.
proof fn trailing_white(t: Seq<char>, to: int) -> (b: int)
    requires
        0 <= to <= t.len(),
        forall|i: int| to <= i < t.len() ==> white_space(#[trigger] t[i]),
    ensures
        0 <= b <= to,
        forall|i: int| b <= i < t.len() ==> white_space(#[trigger] t[i]),
        b == 0 || !white_space(t[b - 1]),
    decreases to,
{
    if to == 0 || !white_space(t[to - 1]) {
        to
    } else {
        trailing_white(t, to - 1)
    }
}

/// Trimming keeps one unbroken stretch of the text and drops only white
/// space around it: what it keeps neither starts nor ends with white space.
pub proof fn lemma_trimmed_shape(s: Seq<char>)
    ensures
        exists|a: int, b: int|
            0 <= a <= b <= s.len() && trimmed(s) == s.subrange(a, b) && (forall|i: int|
                0 <= i < a ==> white_space(#[trigger] s[i])) && (forall|i: int|
                b <= i < s.len() ==> white_space(#[trigger] s[i])),
        trimmed(s).len() > 0 ==> !white_space(trimmed(s)[0]) && !white_space(trimmed(s).last()),
{
    let a = leading_white(s, 0);
    lemma_trimmed_start_at(s, a);
    let t = s.subrange(a, s.len() as int);
    let b = trailing_white(t, t.len() as int);
    lemma_trimmed_end_at(t, b);
    assert(trimmed(s) == t.subrange(0, b));
    assert(t.subrange(0, b) =~= s.subrange(a, a + b));
    assert forall|i: int| a + b <= i < s.len() implies white_space(#[trigger] s[i]) by {
        assert(s[i] == t[i - a]);
    }
    if trimmed(s).len() > 0 {
        assert(trimmed(s)[0] == s[a]);
        assert(trimmed(s).last() == t[b - 1]);
    }
}

/// A highlighted range is where the lowercase needle first occurs in the
/// lowercase text, exactly as long as the needle and on character boundaries
/// of the text; there is none only when the needle does not occur, or its
/// first occurrence does not start and end on such boundaries.
pub proof fn lemma_highlight_is_first_occurrence(text: Seq<u8>, lower: Seq<u8>, needle: Seq<u8>)
    requires
        lower.len() <= usize::MAX,
    ensures
        highlight_range(text, lower, needle) matches Some((start, end)) ==> {
            &&& end - start == needle.len()
            &&& start + needle.len() <= lower.len()
            &&& lower.subrange(start as int, end as int) == needle
            &&& forall|j: int| 0 <= j < start ==> !matches_at(lower, needle, j)
            &&& is_char_boundary(text, start as int)
            &&& is_char_boundary(text, end as int)
        },
        highlight_range(text, lower, needle) is None ==> (forall|i: int|
            !matches_at(lower, needle, i)) || (exists|i: int|
            is_first_match(lower, needle, i) && !(is_char_boundary(text, i)
                && is_char_boundary(text, i + needle.len()))),
{
    if exists|i: int| is_first_match(lower, needle, i) {
        let i = choose|i: int| is_first_match(lower, needle, i);
        lemma_first_match_unique(lower, needle, i);
    } else {
        assert forall|i: int| !matches_at(lower, needle, i) by {
            if matches_at(lower, needle, i) {
                lemma_earliest_match(lower, needle, i);
            }
        }
    }
}

/// Where the needle occurs, it occurs first somewhere.
proof fn lemma_earliest_match(haystack: Seq<u8>, needle: Seq<u8>, i: int)
    requires
        matches_at(haystack, needle, i),
    ensures
        exists|k: int| is_first_match(haystack, needle, k),
    decreases i,
{
    if exists|j: int| 0 <= j < i && matches_at(haystack, needle, j) {
        let j = choose|j: int| 0 <= j < i && matches_at(haystack, needle, j);
        lemma_earliest_match(haystack, needle, j);
    } else {
        assert(is_first_match(haystack, needle, i));
    }
}

/// Whether the search pane has nothing to search for: a blank query and no day.
pub fn search_is_empty(query: &str, day: Option<CalendarDay>) -> (r: bool)
    ensures
        r == (trimmed(query@).len() == 0 && day is None),
{
    trim_text(query).is_empty() && day.is_none()
}

/// The byte range of a search hit's `text` that shows the `query`: none for a
/// blank query; else where the query first occurs in the text, compared in
/// lowercase, when that range starts and ends on character boundaries.
pub fn snippet_highlight(text: &str, query: &str) -> (r: Option<(usize, usize)>)
    ensures
        r == (if trimmed(query@).len() == 0 {
            None
        } else {
            highlight_range(
                text.spec_bytes(),
                encode_utf8(lowercased(text@)),
                encode_utf8(lowercased(trimmed(query@))),
            )
        }),
{
    let query = trim_text(query);
    if query.is_empty() {
        return None;
    }
    let lower = lowercase_text(text);
    let needle = lowercase_text(query);
    highlight_in(text, lower.as_str(), needle.as_str())
}

} // verus!
