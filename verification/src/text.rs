//! Verified text primitives: pattern search, splitting, trimming and
//! line handling over `&str` / `String`, specified over `Seq<char>` views.
use vstd::prelude::*;
use vstd::string::*;

verus! {

/// The pattern `pat` occurs in `s` at position `i`.
pub open spec fn match_at(s: Seq<char>, pat: Seq<char>, i: int) -> bool {
    &&& 0 <= i
    &&& i + pat.len() <= s.len()
    &&& s.subrange(i, i + pat.len() as int) == pat
}

/// Position of the first occurrence of `pat` in `s` at or after `from`.
pub open spec fn spec_find(s: Seq<char>, pat: Seq<char>, from: int) -> Option<int>
    decreases s.len() + 1 - from,
{
    if from + pat.len() > s.len() {
        None
    } else if match_at(s, pat, from) {
        Some(from)
    } else {
        spec_find(s, pat, from + 1)
    }
}

pub open spec fn spec_contains(s: Seq<char>, pat: Seq<char>) -> bool {
    spec_find(s, pat, 0) is Some
}

pub open spec fn spec_starts_with(s: Seq<char>, pat: Seq<char>) -> bool {
    match_at(s, pat, 0)
}

/// A found position is at or after `from` and a real occurrence of `pat`.
pub proof fn lemma_find_some(s: Seq<char>, pat: Seq<char>, from: int)
    requires
        spec_find(s, pat, from) is Some,
    ensures
        from <= spec_find(s, pat, from)->0,
        match_at(s, pat, spec_find(s, pat, from)->0),
    decreases s.len() + 1 - from,
{
    if from + pat.len() > s.len() {
    } else if match_at(s, pat, from) {
    } else {
        lemma_find_some(s, pat, from + 1);
    }
}

/// A search that finds nothing passes no occurrence: there is no match
/// at any position at or after `from`.
pub proof fn lemma_find_none(s: Seq<char>, pat: Seq<char>, from: int, k: int)
    requires
        spec_find(s, pat, from) is None,
        from <= k,
    ensures
        !match_at(s, pat, k),
    decreases k - from,
{
    if from + pat.len() > s.len() {
    } else if k > from {
        lemma_find_none(s, pat, from + 1, k);
    }
}

/// What the search finds is the first occurrence: no match lies at any
/// earlier position at or after `from`.
pub proof fn lemma_find_min(s: Seq<char>, pat: Seq<char>, from: int, k: int)
    requires
        spec_find(s, pat, from) is Some,
        from <= k < spec_find(s, pat, from)->0,
    ensures
        !match_at(s, pat, k),
    decreases k - from,
{
    if from + pat.len() > s.len() {
    } else if match_at(s, pat, from) {
    } else if k > from {
        lemma_find_min(s, pat, from + 1, k);
    }
}

/// A match at `i` with no match before it is what the search finds.
pub proof fn lemma_find_exact(s: Seq<char>, pat: Seq<char>, from: int, i: int)
    requires
        from <= i,
        match_at(s, pat, i),
        forall|k: int| from <= k < i ==> !match_at(s, pat, k),
    ensures
        spec_find(s, pat, from) == Some(i),
    decreases i - from,
{
    if from < i {
        lemma_find_exact(s, pat, from + 1, i);
    }
}

/// Trimming never lengthens a sequence.
pub proof fn lemma_trim_end_len(s: Seq<char>)
    ensures
        spec_trim_end(s).len() <= s.len(),
    decreases s.len(),
{
    if s.len() > 0 && is_ws(s.last()) {
        lemma_trim_end_len(s.drop_last());
    }
}

/// `s` split on every occurrence of `pat`, leftmost first; the delimiter
/// occurrences themselves are not part of any piece.
pub open spec fn spec_split(s: Seq<char>, pat: Seq<char>) -> Seq<Seq<char>>
    decreases s.len(),
    via spec_split_decreases
{
    if pat.len() == 0 {
        seq![s]
    } else {
        match spec_find(s, pat, 0) {
            None => seq![s],
            Some(i) => seq![s.subrange(0, i)] + spec_split(
                s.subrange(i + pat.len() as int, s.len() as int),
                pat,
            ),
        }
    }
}

#[via_fn]
proof fn spec_split_decreases(s: Seq<char>, pat: Seq<char>) {
    if pat.len() > 0 && spec_find(s, pat, 0) is Some {
        lemma_find_some(s, pat, 0);
    }
}

/// The whitespace characters that right-trimming removes.
pub open spec fn is_ws(c: char) -> bool {
    c == ' ' || c == '\t' || c == '\n' || c == '\r'
}

/// `s` without its trailing whitespace.
pub open spec fn spec_trim_end(s: Seq<char>) -> Seq<char>
    decreases s.len(),
{
    if s.len() == 0 {
        s
    } else if is_ws(s.last()) {
        spec_trim_end(s.drop_last())
    } else {
        s
    }
}

/// The lines of `s`: pieces between `'\n'` characters, with no trailing
/// empty line when `s` ends in `'\n'`. An empty `s` has no lines.
pub open spec fn spec_lines(s: Seq<char>) -> Seq<Seq<char>> {
    if s.len() == 0 {
        Seq::empty()
    } else if s.last() == '\n' {
        spec_split(s, seq!['\n']).drop_last()
    } else {
        spec_split(s, seq!['\n'])
    }
}

/// `s` with one leading occurrence of `pat` removed, if it is there.
pub open spec fn spec_strip_prefix(s: Seq<char>, pat: Seq<char>) -> Seq<char> {
    if spec_starts_with(s, pat) {
        s.subrange(pat.len() as int, s.len() as int)
    } else {
        s
    }
}

/// Whether `pat` occurs in `s` at position `i`.
pub fn pattern_at(s: &str, pat: &str, i: usize) -> (r: bool)
    requires
        i + pat@.len() <= s@.len(),
    ensures
        r == match_at(s@, pat@, i as int),
{
    let slen = s.unicode_len();
    let plen = pat.unicode_len();
    let mut j: usize = 0;
    while j < plen
        invariant
            j <= plen,
            forall|k: int| 0 <= k < j ==> s@[i + k] == pat@[k],
        decreases plen - j,
    {
        if s.get_char(i + j) != pat.get_char(j) {
            assert(s@.subrange(i as int, i + pat@.len()) != pat@) by {
                assert(s@.subrange(i as int, i + pat@.len())[j as int] == s@[i + j]);
            }
            return false;
        }
        j = j + 1;
    }
    assert(s@.subrange(i as int, i + pat@.len()) =~= pat@);
    true
}

/// Position of the first occurrence of `pat` in `s` at or after `from`.
pub fn find_pattern(s: &str, pat: &str, from: usize) -> (r: Option<usize>)
    requires
        pat@.len() > 0,
    ensures
        match r {
            Some(i) => {
                &&& spec_find(s@, pat@, from as int) == Some(i as int)
                &&& from <= i
                &&& match_at(s@, pat@, i as int)
            },
            None => spec_find(s@, pat@, from as int) is None,
        },
{
    let slen = s.unicode_len();
    let plen = pat.unicode_len();
    let mut i: usize = from;
    while i < slen && slen - i >= plen
        invariant
            from <= i,
            spec_find(s@, pat@, from as int) == spec_find(s@, pat@, i as int),
        decreases s@.len() - i,
    {
        if pattern_at(s, pat, i) {
            return Some(i);
        }
        i = i + 1;
    }
    None
}

/// Whether `pat` occurs anywhere in `s`.
pub fn contains_pattern(s: &str, pat: &str) -> (r: bool)
    requires
        pat@.len() > 0,
    ensures
        r == spec_contains(s@, pat@),
{
    find_pattern(s, pat, 0).is_some()
}

/// Whether `s` starts with `pat`.
pub fn starts_with_pattern(s: &str, pat: &str) -> (r: bool)
    ensures
        r == spec_starts_with(s@, pat@),
{
    let slen = s.unicode_len();
    let plen = pat.unicode_len();
    if plen > slen {
        return false;
    }
    pattern_at(s, pat, 0)
}

/// The views of a sequence of strings.
pub open spec fn str_views(ss: Seq<String>) -> Seq<Seq<char>> {
    ss.map_values(|s: String| s@)
}

/// Whether `s` starts with the characters of `v`.
pub fn starts_with_chars(s: &str, v: &Vec<char>) -> (r: bool)
    ensures
        r == spec_starts_with(s@, v@),
{
    let slen = s.unicode_len();
    if v.len() > slen {
        return false;
    }
    let mut j: usize = 0;
    while j < v.len()
        invariant
            j <= v@.len(),
            v@.len() <= s@.len(),
            forall|k: int| 0 <= k < j ==> s@[k] == v@[k],
        decreases v@.len() - j,
    {
        if s.get_char(j) != v[j] {
            assert(s@.subrange(0, v@.len() as int) != v@) by {
                assert(s@.subrange(0, v@.len() as int)[j as int] == s@[j as int]);
            }
            return false;
        }
        j = j + 1;
    }
    assert(s@.subrange(0, v@.len() as int) =~= v@);
    true
}

/// Whether the views of `a` and `b` hold the same characters.
pub fn str_eq(a: &str, b: &str) -> (r: bool)
    ensures
        r == (a@ == b@),
{
    let alen = a.unicode_len();
    let blen = b.unicode_len();
    if alen != blen {
        return false;
    }
    let r = pattern_at(a, b, 0);
    assert(a@.subrange(0, a@.len() as int) =~= a@);
    r
}

/// `s` split on every occurrence of `pat`.
pub fn split_string(s: &str, pat: &str) -> (parts: Vec<String>)
    requires
        pat@.len() > 0,
    ensures
        parts@.len() == spec_split(s@, pat@).len(),
        forall|k: int| 0 <= k < parts@.len() ==> parts@[k]@ == spec_split(s@, pat@)[k],
    decreases s@.len(),
{
    let slen = s.unicode_len();
    let plen = pat.unicode_len();
    let mut parts: Vec<String> = Vec::new();
    match find_pattern(s, pat, 0) {
        None => {
            parts.push(String::from_str(s));
        },
        Some(i) => {
            let before = s.substring_char(0, i);
            let rest = s.substring_char(i + plen, slen);
            parts.push(String::from_str(before));
            let mut tail = split_string(rest, pat);
            parts.append(&mut tail);
        },
    }
    parts
}

/// `s` without its trailing whitespace.
pub fn trim_end_string(s: &str) -> (r: String)
    ensures
        r@ == spec_trim_end(s@),
{
    let slen = s.unicode_len();
    let mut e: usize = slen;
    assert(s@.subrange(0, slen as int) =~= s@);
    while e > 0 && is_ws_char(s.get_char(e - 1))
        invariant
            e <= slen,
            spec_trim_end(s@.subrange(0, e as int)) == spec_trim_end(s@),
        decreases e,
    {
        assert(s@.subrange(0, e as int).drop_last() =~= s@.subrange(0, e - 1));
        e = e - 1;
    }
    let r = String::from_str(s.substring_char(0, e));
    assert(s@.subrange(0, e as int) == spec_trim_end(s@)) by {
        if e > 0 {
            assert(s@.subrange(0, e as int).last() == s@[e - 1]);
        }
    }
    r
}

/// Whether `c` is one of the whitespace characters that trimming removes.
pub fn is_ws_char(c: char) -> (r: bool)
    ensures
        r == is_ws(c),
{
    c == ' ' || c == '\t' || c == '\n' || c == '\r'
}

/// The lines of `s`, split on `'\n'`, without a trailing empty line.
pub fn split_lines(s: &str) -> (lines: Vec<String>)
    ensures
        lines@.len() == spec_lines(s@).len(),
        forall|k: int| 0 <= k < lines@.len() ==> lines@[k]@ == spec_lines(s@)[k],
{
    let slen = s.unicode_len();
    proof {
        reveal_strlit("\n");
        assert("\n"@ =~= seq!['\n']);
    }
    if slen == 0 {
        let lines: Vec<String> = Vec::new();
        return lines;
    }
    let mut lines = split_string(s, "\n");
    assert(lines@.len() >= 1) by {
        assert(spec_split(s@, "\n"@).len() >= 1);
    }
    if s.get_char(slen - 1) == '\n' {
        assert(s@.last() == '\n');
        lines.pop();
    }
    lines
}

} // verus!
