//! The inline tokenizer: splitting plain text on delimiters into typed
//! spans, and extracting image and link references.
use vstd::prelude::*;
use vstd::string::*;
use crate::errors::NodeError;
use crate::text::{spec_contains, spec_split, contains_pattern, split_string};
use crate::textnode::{TextNode, TextType, TextNodeView, span_views, span_wf};

verus! {

/// A plain (untyped) span holding `t`.
pub open spec fn plain_view(t: Seq<char>) -> TextNodeView {
    TextNodeView { text: t, text_type: TextType::Plain, url: None }
}

/// The spans made from the pieces of one delimiter split: pieces at even
/// positions stay plain, pieces at odd positions (the delimited ones) get
/// the delimiter's kind, and empty pieces are dropped.
pub open spec fn alternating_spans(parts: Seq<Seq<char>>, i: int, tt: TextType) -> Seq<TextNodeView>
    decreases parts.len() - i,
{
    if i < 0 || i >= parts.len() {
        Seq::empty()
    } else {
        let rest = alternating_spans(parts, i + 1, tt);
        if parts[i].len() == 0 {
            rest
        } else if i % 2 == 0 {
            seq![plain_view(parts[i])] + rest
        } else {
            seq![TextNodeView { text: parts[i], text_type: tt, url: None }] + rest
        }
    }
}

/// One span processed by the delimiter stage: already-typed spans pass
/// through; a plain span without the delimiter passes through; a plain
/// span with an even number of delimiter occurrences (an odd number of
/// split pieces is required) is an error carrying the offending text.
pub open spec fn spec_split_span_delim(n: TextNodeView, d: Seq<char>, tt: TextType) -> Result<
    Seq<TextNodeView>,
    Seq<char>,
> {
    if n.text_type != TextType::Plain {
        Ok(seq![n])
    } else if !spec_contains(n.text, d) {
        Ok(seq![n])
    } else if spec_split(n.text, d).len() % 2 == 0 {
        Err(n.text)
    } else {
        Ok(alternating_spans(spec_split(n.text, d), 0, tt))
    }
}

/// The delimiter stage over a span sequence: spans are processed in
/// order, their results concatenated; the first offending span aborts.
pub open spec fn spec_split_nodes_delim(ns: Seq<TextNodeView>, d: Seq<char>, tt: TextType) -> Result<
    Seq<TextNodeView>,
    Seq<char>,
>
    decreases ns.len(),
{
    if ns.len() == 0 {
        Ok(Seq::empty())
    } else {
        match spec_split_span_delim(ns[0], d, tt) {
            Err(e) => Err(e),
            Ok(head) => match spec_split_nodes_delim(ns.subrange(1, ns.len() as int), d, tt) {
                Err(e) => Err(e),
                Ok(tail) => Ok(head + tail),
            },
        }
    }
}

/// Splitting the delimiter stage at position `i`: when the prefix
/// succeeds, the whole result is the prefix result extended by the suffix
/// result, or the suffix's error.
pub proof fn lemma_split_nodes_delim_decompose(
    ns: Seq<TextNodeView>,
    d: Seq<char>,
    tt: TextType,
    i: int,
)
    requires
        0 <= i <= ns.len(),
    ensures
        ({
            let pre = spec_split_nodes_delim(ns.subrange(0, i), d, tt);
            let suf = spec_split_nodes_delim(ns.subrange(i, ns.len() as int), d, tt);
            match pre {
                Ok(a) => match suf {
                    Ok(b) => spec_split_nodes_delim(ns, d, tt) == Ok::<
                        Seq<TextNodeView>,
                        Seq<char>,
                    >(a + b),
                    Err(e) => spec_split_nodes_delim(ns, d, tt) == Err::<
                        Seq<TextNodeView>,
                        Seq<char>,
                    >(e),
                },
                Err(e) => true,
            }
        }),
    decreases i,
{
    if i == 0 {
        assert(ns.subrange(0, 0) =~= Seq::<TextNodeView>::empty());
        assert(ns.subrange(0, ns.len() as int) =~= ns);
        match spec_split_nodes_delim(ns, d, tt) {
            Ok(b) => {
                assert(Seq::<TextNodeView>::empty() + b =~= b);
            },
            Err(e) => {},
        }
    } else {
        let tail = ns.subrange(1, ns.len() as int);
        lemma_split_nodes_delim_decompose(tail, d, tt, i - 1);
        assert(ns.subrange(0, i).subrange(1, i) =~= tail.subrange(0, i - 1));
        assert(ns.subrange(i, ns.len() as int) =~= tail.subrange(i - 1, tail.len() as int));
        assert(ns.subrange(0, i)[0] == ns[0]);
        match spec_split_span_delim(ns[0], d, tt) {
            Err(e) => {},
            Ok(h) => {
                match (spec_split_nodes_delim(tail.subrange(0, i - 1), d, tt),
                    spec_split_nodes_delim(tail.subrange(i - 1, tail.len() as int), d, tt)) {
                    (Ok(a1), Ok(b)) => {
                        assert((h + a1) + b =~= h + (a1 + b));
                    },
                    _ => {},
                }
            },
        }
    }
}

/// Splits every plain span of `old_nodes` on `delimeter`; pieces between
/// two delimiter occurrences become spans of kind `text_type`, the other
/// pieces stay plain, and empty pieces are dropped. A plain span holding
/// an unmatched delimiter (an even piece count) is a `ParseError`
/// carrying that span's text.
pub fn split_nodes_delimeter(old_nodes: Vec<TextNode>, delimeter: &str, text_type: TextType) -> (r:
    Result<Vec<TextNode>, NodeError>)
    requires
        delimeter@.len() > 0,
    ensures
        match spec_split_nodes_delim(span_views(old_nodes@), delimeter@, text_type) {
            Ok(vs) => r matches Ok(v) && span_views(v@) == vs,
            Err(e) => r matches Err(err) && err matches NodeError::ParseError(t) && t@ == e,
        },
{
    let ghost d = delimeter@;
    let ghost orig = span_views(old_nodes@);
    let mut nodes = old_nodes;
    let mut out: Vec<TextNode> = Vec::new();
    proof {
        assert(orig.subrange(0, 0) =~= Seq::<TextNodeView>::empty());
        assert(span_views(out@) =~= Seq::<TextNodeView>::empty());
        assert(span_views(nodes@) =~= orig.subrange(0, orig.len() as int));
    }
    while nodes.len() > 0
        invariant
            nodes@.len() <= orig.len(),
            span_views(nodes@) == orig.subrange(
                orig.len() - nodes@.len(),
                orig.len() as int,
            ),
            spec_split_nodes_delim(orig.subrange(0, orig.len() - nodes@.len()), d, text_type)
                == Ok::<Seq<TextNodeView>, Seq<char>>(span_views(out@)),
        decreases nodes@.len(),
    {
        let ghost idx = orig.len() - nodes@.len();
        let ghost prev = nodes@;
        let n = nodes.remove(0);
        proof {
            assert(span_views(prev)[0] == orig.subrange(idx, orig.len() as int)[0]);
            assert(n@ == span_views(prev)[0]);
            assert(nodes@ =~= prev.subrange(1, prev.len() as int));
            assert forall|k: int| 0 <= k < nodes@.len() implies span_views(nodes@)[k]
                == orig.subrange(idx + 1, orig.len() as int)[k] by {
                assert(nodes@[k] == prev[k + 1]);
                assert(span_views(prev)[k + 1] == prev[k + 1]@);
            }
            assert(span_views(nodes@) =~= orig.subrange(idx + 1, orig.len() as int));
        }
        let ghost out_base = span_views(out@);
        if n.text_type != TextType::Plain {
            let ghost nv = n@;
            out.push(n);
            proof {
                assert(span_views(out@) =~= out_base + seq![nv]);
            }
        } else if !contains_pattern(n.text.as_str(), delimeter) {
            let ghost nv = n@;
            out.push(n);
            proof {
                assert(span_views(out@) =~= out_base + seq![nv]);
            }
        } else {
            let parts = split_string(n.text.as_str(), delimeter);
            let ghost pviews = spec_split(n@.text, d);
            if parts.len() % 2 == 0 {
                proof {
                    lemma_split_nodes_delim_decompose(orig, d, text_type, idx);
                    assert(orig.subrange(idx, orig.len() as int)[0] == orig[idx]);
                }
                return Err(NodeError::ParseError(n.text));
            }
            let mut j: usize = 0;
            while j < parts.len()
                invariant
                    j <= parts@.len(),
                    span_views(out@) + alternating_spans(pviews, j as int, text_type) == out_base
                        + alternating_spans(pviews, 0, text_type),
                decreases parts@.len() - j,
            {
                let plen = parts[j].as_str().unicode_len();
                if plen > 0 {
                    let tt = if j % 2 == 0 {
                        TextType::Plain
                    } else {
                        text_type
                    };
                    let ghost before = span_views(out@);
                    let piece = TextNode {
                        text: String::from_str(parts[j].as_str()),
                        text_type: tt,
                        url: None,
                    };
                    let ghost pv = piece@;
                    out.push(piece);
                    proof {
                        assert(span_views(out@) =~= before + seq![pv]);
                        assert(alternating_spans(pviews, j as int, text_type) == seq![pv]
                            + alternating_spans(pviews, j + 1, text_type));
                        assert((before + seq![pv]) + alternating_spans(pviews, j + 1, text_type)
                            =~= before + (seq![pv] + alternating_spans(pviews, j + 1, text_type)));
                    }
                }
                j = j + 1;
            }
            proof {
                assert(alternating_spans(pviews, parts@.len() as int, text_type)
                    == Seq::<TextNodeView>::empty());
                assert(span_views(out@) + Seq::<TextNodeView>::empty() =~= span_views(out@));
            }
        }
        proof {
            let pre1 = orig.subrange(0, idx + 1);
            lemma_split_nodes_delim_decompose(pre1, d, text_type, idx);
            assert(pre1.subrange(0, idx) =~= orig.subrange(0, idx));
            assert(pre1.subrange(idx, idx + 1) =~= seq![orig[idx]]);
            assert(seq![orig[idx]].subrange(1, 1) =~= Seq::<TextNodeView>::empty());
            assert(spec_split_nodes_delim(Seq::<TextNodeView>::empty(), d, text_type) == Ok::<
                Seq<TextNodeView>,
                Seq<char>,
            >(Seq::<TextNodeView>::empty()));
            match spec_split_span_delim(orig[idx], d, text_type) {
                Ok(h) => {
                    assert(h + Seq::<TextNodeView>::empty() =~= h);
                    assert(span_views(out@) =~= out_base + h);
                },
                Err(e) => {
                    assert(false);
                },
            }
        }
    }
    proof {
        assert(orig.subrange(0, orig.len() as int) =~= orig);
    }
    Ok(out)
}

/// The first position at or after `from` holding `a` or `b`.
pub open spec fn scan_to(s: Seq<char>, from: int, a: char, b: char) -> Option<int>
    decreases s.len() - from,
{
    if from < 0 || from >= s.len() {
        None
    } else if s[from] == a || s[from] == b {
        Some(from)
    } else {
        scan_to(s, from + 1, a, b)
    }
}

/// A found scan position is in range and holds one of the two characters.
pub proof fn lemma_scan_to_some(s: Seq<char>, from: int, a: char, b: char)
    requires
        scan_to(s, from, a, b) is Some,
    ensures
        from <= scan_to(s, from, a, b)->0 < s.len(),
        s[scan_to(s, from, a, b)->0] == a || s[scan_to(s, from, a, b)->0] == b,
    decreases s.len() - from,
{
    if from < 0 || from >= s.len() {
    } else if s[from] == a || s[from] == b {
    } else {
        lemma_scan_to_some(s, from + 1, a, b);
    }
}

/// An image reference `![alt](url)` starting at position `i`: `alt` runs
/// to the first bracket after `![`, which must close it, and `url` runs to
/// the first parenthesis after `](`, which must close it. The result is
/// the alt text, the URL, and the position just past the reference.
pub open spec fn spec_image_at(s: Seq<char>, i: int) -> Option<(Seq<char>, Seq<char>, int)> {
    if !(0 <= i && i + 1 < s.len() && s[i] == '!' && s[i + 1] == '[') {
        None
    } else {
        match scan_to(s, i + 2, '[', ']') {
            None => None,
            Some(j) => if s[j] != ']' || j + 1 >= s.len() || s[j + 1] != '(' {
                None
            } else {
                match scan_to(s, j + 2, '(', ')') {
                    None => None,
                    Some(k) => if s[k] != ')' {
                        None
                    } else {
                        Some((s.subrange(i + 2, j), s.subrange(j + 2, k), k + 1))
                    },
                }
            },
        }
    }
}

/// A link reference `[text](url)` starting at position `i`, with the same
/// delimiter rules as an image reference.
pub open spec fn spec_link_at(s: Seq<char>, i: int) -> Option<(Seq<char>, Seq<char>, int)> {
    if !(0 <= i && i < s.len() && s[i] == '[') {
        None
    } else {
        match scan_to(s, i + 1, '[', ']') {
            None => None,
            Some(j) => if s[j] != ']' || j + 1 >= s.len() || s[j + 1] != '(' {
                None
            } else {
                match scan_to(s, j + 2, '(', ')') {
                    None => None,
                    Some(k) => if s[k] != ')' {
                        None
                    } else {
                        Some((s.subrange(i + 1, j), s.subrange(j + 2, k), k + 1))
                    },
                }
            },
        }
    }
}

/// The first image reference at or after `from`: its start position, alt
/// text, URL, and the position just past it.
pub open spec fn spec_find_image(s: Seq<char>, from: int) -> Option<(int, Seq<char>, Seq<char>, int)>
    decreases s.len() - from,
{
    if from < 0 || from >= s.len() {
        None
    } else {
        match spec_image_at(s, from) {
            Some((alt, url, end)) => Some((from, alt, url, end)),
            None => spec_find_image(s, from + 1),
        }
    }
}

/// The first link reference at or after `from` whose opening bracket is
/// not immediately preceded by `'!'` (such a bracket pair belongs to an
/// image reference and is never extracted as a link).
pub open spec fn spec_find_link(s: Seq<char>, from: int) -> Option<(int, Seq<char>, Seq<char>, int)>
    decreases s.len() - from,
{
    if from < 0 || from >= s.len() {
        None
    } else if spec_link_at(s, from) is Some && !(from > 0 && s[from - 1] == '!') {
        {
            let (t, u, end) = spec_link_at(s, from)->0;
            Some((from, t, u, end))
        }
    } else {
        spec_find_link(s, from + 1)
    }
}

/// A matched image reference lies within the text and past its start.
pub proof fn lemma_image_at_bounds(s: Seq<char>, i: int)
    requires
        spec_image_at(s, i) is Some,
    ensures
        ({
            let (alt, url, end) = spec_image_at(s, i)->0;
            i + 5 <= end <= s.len()
        }),
{
    lemma_scan_to_some(s, i + 2, '[', ']');
    let j = scan_to(s, i + 2, '[', ']')->0;
    lemma_scan_to_some(s, j + 2, '(', ')');
}

/// A matched link reference lies within the text and past its start.
pub proof fn lemma_link_at_bounds(s: Seq<char>, i: int)
    requires
        spec_link_at(s, i) is Some,
    ensures
        ({
            let (text, url, end) = spec_link_at(s, i)->0;
            i + 4 <= end <= s.len()
        }),
{
    lemma_scan_to_some(s, i + 1, '[', ']');
    let j = scan_to(s, i + 1, '[', ']')->0;
    lemma_scan_to_some(s, j + 2, '(', ')');
}

/// A found image reference starts at or after `from` and ends in range.
pub proof fn lemma_find_image_bounds(s: Seq<char>, from: int)
    requires
        spec_find_image(s, from) is Some,
    ensures
        ({
            let (st, alt, url, end) = spec_find_image(s, from)->0;
            from <= st && st + 5 <= end <= s.len()
        }),
    decreases s.len() - from,
{
    if from < 0 || from >= s.len() {
    } else {
        match spec_image_at(s, from) {
            Some(m) => {
                lemma_image_at_bounds(s, from);
            },
            None => {
                lemma_find_image_bounds(s, from + 1);
            },
        }
    }
}

/// A found link reference starts at or after `from` and ends in range.
pub proof fn lemma_find_link_bounds(s: Seq<char>, from: int)
    requires
        spec_find_link(s, from) is Some,
    ensures
        ({
            let (st, text, url, end) = spec_find_link(s, from)->0;
            from <= st && st + 4 <= end <= s.len()
        }),
    decreases s.len() - from,
{
    if from < 0 || from >= s.len() {
    } else if spec_link_at(s, from) is Some && !(from > 0 && s[from - 1] == '!') {
        lemma_link_at_bounds(s, from);
    } else {
        lemma_find_link_bounds(s, from + 1);
    }
}

/// All image references in `s` from `from` on, leftmost first, each
/// search resuming just past the previous reference.
pub open spec fn spec_all_images(s: Seq<char>, from: int) -> Seq<(Seq<char>, Seq<char>)>
    decreases s.len() - from,
    via spec_all_images_decreases
{
    if from < 0 || from >= s.len() {
        Seq::empty()
    } else {
        match spec_find_image(s, from) {
            None => Seq::empty(),
            Some((st, alt, url, end)) => seq![(alt, url)] + spec_all_images(s, end),
        }
    }
}

#[via_fn]
proof fn spec_all_images_decreases(s: Seq<char>, from: int) {
    if 0 <= from < s.len() && spec_find_image(s, from) is Some {
        lemma_find_image_bounds(s, from);
    }
}

/// All link references in `s` from `from` on, leftmost first, skipping
/// bracket pairs preceded by `'!'`.
pub open spec fn spec_all_links(s: Seq<char>, from: int) -> Seq<(Seq<char>, Seq<char>)>
    decreases s.len() - from,
    via spec_all_links_decreases
{
    if from < 0 || from >= s.len() {
        Seq::empty()
    } else {
        match spec_find_link(s, from) {
            None => Seq::empty(),
            Some((st, text, url, end)) => seq![(text, url)] + spec_all_links(s, end),
        }
    }
}

#[via_fn]
proof fn spec_all_links_decreases(s: Seq<char>, from: int) {
    if 0 <= from < s.len() && spec_find_link(s, from) is Some {
        lemma_find_link_bounds(s, from);
    }
}

/// The first position at or after `from` holding `a` or `b`.
fn scan_for(s: &str, from: usize, a: char, b: char) -> (r: Option<usize>)
    ensures
        match r {
            Some(j) => {
                &&& scan_to(s@, from as int, a, b) == Some(j as int)
                &&& from <= j < s@.len()
                &&& (s@[j as int] == a || s@[j as int] == b)
            },
            None => scan_to(s@, from as int, a, b) is None,
        },
{
    let slen = s.unicode_len();
    let mut i: usize = from;
    while i < slen
        invariant
            from <= i,
            scan_to(s@, from as int, a, b) == scan_to(s@, i as int, a, b),
        decreases s@.len() - i,
    {
        let c = s.get_char(i);
        if c == a || c == b {
            return Some(i);
        }
        i = i + 1;
    }
    None
}

/// The image reference starting exactly at `i`, as index positions:
/// `(j, k)` with alt text in `i+2 .. j` and URL in `j+2 .. k`.
fn try_image_at(s: &str, i: usize) -> (r: Option<(usize, usize)>)
    requires
        i < s@.len(),
    ensures
        match r {
            Some(m) => {
                &&& spec_image_at(s@, i as int) == Some(
                    (
                        s@.subrange(i as int + 2, m.0 as int),
                        s@.subrange(m.0 as int + 2, m.1 as int),
                        m.1 as int + 1,
                    ),
                )
                &&& i + 2 <= m.0
                &&& m.0 + 2 <= m.1
                &&& m.1 + 1 <= s@.len()
            },
            None => spec_image_at(s@, i as int) is None,
        },
{
    let slen = s.unicode_len();
    if !(i + 1 < slen && s.get_char(i) == '!' && s.get_char(i + 1) == '[') {
        return None;
    }
    match scan_for(s, i + 2, '[', ']') {
        None => None,
        Some(j) => {
            if s.get_char(j) != ']' {
                return None;
            }
            if j + 1 >= slen || s.get_char(j + 1) != '(' {
                return None;
            }
            match scan_for(s, j + 2, '(', ')') {
                None => None,
                Some(k) => {
                    if s.get_char(k) != ')' {
                        return None;
                    }
                    Some((j, k))
                },
            }
        },
    }
}

/// The link reference starting exactly at `i`, as index positions:
/// `(j, k)` with link text in `i+1 .. j` and URL in `j+2 .. k`.
fn try_link_at(s: &str, i: usize) -> (r: Option<(usize, usize)>)
    requires
        i < s@.len(),
    ensures
        match r {
            Some(m) => {
                &&& spec_link_at(s@, i as int) == Some(
                    (
                        s@.subrange(i as int + 1, m.0 as int),
                        s@.subrange(m.0 as int + 2, m.1 as int),
                        m.1 as int + 1,
                    ),
                )
                &&& i + 1 <= m.0
                &&& m.0 + 2 <= m.1
                &&& m.1 + 1 <= s@.len()
            },
            None => spec_link_at(s@, i as int) is None,
        },
{
    let slen = s.unicode_len();
    if s.get_char(i) != '[' {
        return None;
    }
    match scan_for(s, i + 1, '[', ']') {
        None => None,
        Some(j) => {
            if s.get_char(j) != ']' {
                return None;
            }
            if j + 1 >= slen || s.get_char(j + 1) != '(' {
                return None;
            }
            match scan_for(s, j + 2, '(', ')') {
                None => None,
                Some(k) => {
                    if s.get_char(k) != ')' {
                        return None;
                    }
                    Some((j, k))
                },
            }
        },
    }
}

/// The first image reference at or after `from`, as index positions
/// `(start, j, k)`: alt text in `start+2 .. j`, URL in `j+2 .. k`, and
/// the reference ends at `k+1`.
pub fn find_image_pos(s: &str, from: usize) -> (r: Option<(usize, usize, usize)>)
    ensures
        match r {
            Some(m) => {
                &&& spec_find_image(s@, from as int) == Some(
                    (
                        m.0 as int,
                        s@.subrange(m.0 as int + 2, m.1 as int),
                        s@.subrange(m.1 as int + 2, m.2 as int),
                        m.2 as int + 1,
                    ),
                )
                &&& from <= m.0
                &&& m.0 + 2 <= m.1
                &&& m.1 + 2 <= m.2
                &&& m.2 + 1 <= s@.len()
            },
            None => spec_find_image(s@, from as int) is None,
        },
{
    let slen = s.unicode_len();
    let mut i: usize = from;
    while i < slen
        invariant
            from <= i,
            spec_find_image(s@, from as int) == spec_find_image(s@, i as int),
        decreases s@.len() - i,
    {
        match try_image_at(s, i) {
            Some(m) => {
                return Some((i, m.0, m.1));
            },
            None => {
                i = i + 1;
            },
        }
    }
    None
}

/// The first link reference at or after `from` not preceded by `'!'`, as
/// index positions `(start, j, k)`: link text in `start+1 .. j`, URL in
/// `j+2 .. k`, and the reference ends at `k+1`.
pub fn find_link_pos(s: &str, from: usize) -> (r: Option<(usize, usize, usize)>)
    ensures
        match r {
            Some(m) => {
                &&& spec_find_link(s@, from as int) == Some(
                    (
                        m.0 as int,
                        s@.subrange(m.0 as int + 1, m.1 as int),
                        s@.subrange(m.1 as int + 2, m.2 as int),
                        m.2 as int + 1,
                    ),
                )
                &&& from <= m.0
                &&& m.0 + 1 <= m.1
                &&& m.1 + 2 <= m.2
                &&& m.2 + 1 <= s@.len()
            },
            None => spec_find_link(s@, from as int) is None,
        },
{
    let slen = s.unicode_len();
    let mut i: usize = from;
    while i < slen
        invariant
            from <= i,
            spec_find_link(s@, from as int) == spec_find_link(s@, i as int),
        decreases s@.len() - i,
    {
        let excluded = i > 0 && s.get_char(i - 1) == '!';
        if !excluded {
            match try_link_at(s, i) {
                Some(m) => {
                    return Some((i, m.0, m.1));
                },
                None => {},
            }
        }
        i = i + 1;
    }
    None
}

/// All image references `![alt](url)` in `text`, in order, as
/// `(alt, url)` pairs of borrowed slices.
pub fn extract_markdown_images<'a>(text: &'a str) -> (r: Vec<(&'a str, &'a str)>)
    ensures
        r@.len() == spec_all_images(text@, 0).len(),
        forall|k: int|
            0 <= k < r@.len() ==> (r@[k].0@, r@[k].1@) == spec_all_images(text@, 0)[k],
{
    let slen = text.unicode_len();
    let mut out: Vec<(&'a str, &'a str)> = Vec::new();
    let mut from: usize = 0;
    let ghost mut acc: Seq<(Seq<char>, Seq<char>)> = Seq::empty();
    proof {
        assert(acc + spec_all_images(text@, 0) =~= spec_all_images(text@, 0));
    }
    while from < slen
        invariant
            acc.len() == out@.len(),
            forall|k: int| 0 <= k < out@.len() ==> (out@[k].0@, out@[k].1@) == acc[k],
            acc + spec_all_images(text@, from as int) == spec_all_images(text@, 0),
        decreases slen - from,
    {
        match find_image_pos(text, from) {
            None => {
                assert(spec_all_images(text@, from as int) =~= Seq::<(Seq<char>, Seq<char>)>::empty());
                assert(acc + Seq::<(Seq<char>, Seq<char>)>::empty() =~= acc);
                return out;
            },
            Some(m) => {
                let alt = text.substring_char(m.0 + 2, m.1);
                let url = text.substring_char(m.1 + 2, m.2);
                let ghost pair = (alt@, url@);
                out.push((alt, url));
                proof {
                    assert(spec_all_images(text@, from as int) == seq![pair] + spec_all_images(
                        text@,
                        m.2 as int + 1,
                    ));
                    assert((acc + seq![pair]) + spec_all_images(text@, m.2 as int + 1) =~= acc + (
                    seq![pair] + spec_all_images(text@, m.2 as int + 1)));
                    acc = acc + seq![pair];
                }
                from = m.2 + 1;
            },
        }
    }
    proof {
        assert(spec_all_images(text@, from as int) =~= Seq::<(Seq<char>, Seq<char>)>::empty());
        assert(acc + Seq::<(Seq<char>, Seq<char>)>::empty() =~= acc);
    }
    out
}

/// All link references `[text](url)` in `text` not preceded by `'!'`, in
/// order, as `(text, url)` pairs of borrowed slices.
pub fn extract_markdown_links<'a>(text: &'a str) -> (r: Vec<(&'a str, &'a str)>)
    ensures
        r@.len() == spec_all_links(text@, 0).len(),
        forall|k: int| 0 <= k < r@.len() ==> (r@[k].0@, r@[k].1@) == spec_all_links(text@, 0)[k],
{
    let slen = text.unicode_len();
    let mut out: Vec<(&'a str, &'a str)> = Vec::new();
    let mut from: usize = 0;
    let ghost mut acc: Seq<(Seq<char>, Seq<char>)> = Seq::empty();
    proof {
        assert(acc + spec_all_links(text@, 0) =~= spec_all_links(text@, 0));
    }
    while from < slen
        invariant
            acc.len() == out@.len(),
            forall|k: int| 0 <= k < out@.len() ==> (out@[k].0@, out@[k].1@) == acc[k],
            acc + spec_all_links(text@, from as int) == spec_all_links(text@, 0),
        decreases slen - from,
    {
        match find_link_pos(text, from) {
            None => {
                assert(spec_all_links(text@, from as int) =~= Seq::<(Seq<char>, Seq<char>)>::empty());
                assert(acc + Seq::<(Seq<char>, Seq<char>)>::empty() =~= acc);
                return out;
            },
            Some(m) => {
                let ltext = text.substring_char(m.0 + 1, m.1);
                let url = text.substring_char(m.1 + 2, m.2);
                let ghost pair = (ltext@, url@);
                out.push((ltext, url));
                proof {
                    assert(spec_all_links(text@, from as int) == seq![pair] + spec_all_links(
                        text@,
                        m.2 as int + 1,
                    ));
                    assert((acc + seq![pair]) + spec_all_links(text@, m.2 as int + 1) =~= acc + (
                    seq![pair] + spec_all_links(text@, m.2 as int + 1)));
                    acc = acc + seq![pair];
                }
                from = m.2 + 1;
            },
        }
    }
    proof {
        assert(spec_all_links(text@, from as int) =~= Seq::<(Seq<char>, Seq<char>)>::empty());
        assert(acc + Seq::<(Seq<char>, Seq<char>)>::empty() =~= acc);
    }
    out
}


/// The spans for one plain text in the image stage: the text before the
/// first image reference (if non-empty) stays plain, the reference
/// becomes an image span, and the remainder is processed the same way.
pub open spec fn spec_split_image_text(t: Seq<char>) -> Seq<TextNodeView>
    decreases t.len(),
    via spec_split_image_text_decreases
{
    if t.len() == 0 {
        Seq::empty()
    } else {
        match spec_find_image(t, 0) {
            None => seq![plain_view(t)],
            Some((st, alt, url, end)) => (if st > 0 {
                seq![plain_view(t.subrange(0, st))]
            } else {
                Seq::empty()
            }) + seq![TextNodeView { text: alt, text_type: TextType::Image, url: Some(url) }]
                + spec_split_image_text(t.subrange(end, t.len() as int)),
        }
    }
}

#[via_fn]
proof fn spec_split_image_text_decreases(t: Seq<char>) {
    if t.len() > 0 && spec_find_image(t, 0) is Some {
        lemma_find_image_bounds(t, 0);
    }
}

/// The spans for one plain text in the link stage, like the image stage
/// but producing link spans and skipping bracket pairs preceded by `'!'`.
pub open spec fn spec_split_link_text(t: Seq<char>) -> Seq<TextNodeView>
    decreases t.len(),
    via spec_split_link_text_decreases
{
    if t.len() == 0 {
        Seq::empty()
    } else {
        match spec_find_link(t, 0) {
            None => seq![plain_view(t)],
            Some((st, text, url, end)) => (if st > 0 {
                seq![plain_view(t.subrange(0, st))]
            } else {
                Seq::empty()
            }) + seq![TextNodeView { text: text, text_type: TextType::Link, url: Some(url) }]
                + spec_split_link_text(t.subrange(end, t.len() as int)),
        }
    }
}

#[via_fn]
proof fn spec_split_link_text_decreases(t: Seq<char>) {
    if t.len() > 0 && spec_find_link(t, 0) is Some {
        lemma_find_link_bounds(t, 0);
    }
}

/// The image stage over a span sequence: empty spans are dropped, typed
/// spans pass through, plain spans are split on their image references.
pub open spec fn spec_split_nodes_image(ns: Seq<TextNodeView>) -> Seq<TextNodeView>
    decreases ns.len(),
{
    if ns.len() == 0 {
        Seq::empty()
    } else {
        let head = if ns[0].text.len() == 0 {
            Seq::<TextNodeView>::empty()
        } else if ns[0].text_type != TextType::Plain {
            seq![ns[0]]
        } else {
            spec_split_image_text(ns[0].text)
        };
        head + spec_split_nodes_image(ns.subrange(1, ns.len() as int))
    }
}

/// The link stage over a span sequence, like the image stage.
pub open spec fn spec_split_nodes_link(ns: Seq<TextNodeView>) -> Seq<TextNodeView>
    decreases ns.len(),
{
    if ns.len() == 0 {
        Seq::empty()
    } else {
        let head = if ns[0].text.len() == 0 {
            Seq::<TextNodeView>::empty()
        } else if ns[0].text_type != TextType::Plain {
            seq![ns[0]]
        } else {
            spec_split_link_text(ns[0].text)
        };
        head + spec_split_nodes_link(ns.subrange(1, ns.len() as int))
    }
}

/// The image stage distributes over splitting the sequence at `i`.
pub proof fn lemma_split_nodes_image_decompose(ns: Seq<TextNodeView>, i: int)
    requires
        0 <= i <= ns.len(),
    ensures
        spec_split_nodes_image(ns) == spec_split_nodes_image(ns.subrange(0, i))
            + spec_split_nodes_image(ns.subrange(i, ns.len() as int)),
    decreases i,
{
    if i == 0 {
        assert(ns.subrange(0, 0) =~= Seq::<TextNodeView>::empty());
        assert(ns.subrange(0, ns.len() as int) =~= ns);
        assert(Seq::<TextNodeView>::empty() + spec_split_nodes_image(ns) =~= spec_split_nodes_image(
            ns,
        ));
    } else {
        let tail = ns.subrange(1, ns.len() as int);
        lemma_split_nodes_image_decompose(tail, i - 1);
        assert(ns.subrange(0, i).subrange(1, i) =~= tail.subrange(0, i - 1));
        assert(ns.subrange(i, ns.len() as int) =~= tail.subrange(i - 1, tail.len() as int));
        assert(ns.subrange(0, i)[0] == ns[0]);
        let h = if ns[0].text.len() == 0 {
            Seq::<TextNodeView>::empty()
        } else if ns[0].text_type != TextType::Plain {
            seq![ns[0]]
        } else {
            spec_split_image_text(ns[0].text)
        };
        assert((h + spec_split_nodes_image(tail.subrange(0, i - 1))) + spec_split_nodes_image(
            tail.subrange(i - 1, tail.len() as int),
        ) =~= h + (spec_split_nodes_image(tail.subrange(0, i - 1)) + spec_split_nodes_image(
            tail.subrange(i - 1, tail.len() as int),
        )));
    }
}

/// The link stage distributes over splitting the sequence at `i`.
pub proof fn lemma_split_nodes_link_decompose(ns: Seq<TextNodeView>, i: int)
    requires
        0 <= i <= ns.len(),
    ensures
        spec_split_nodes_link(ns) == spec_split_nodes_link(ns.subrange(0, i))
            + spec_split_nodes_link(ns.subrange(i, ns.len() as int)),
    decreases i,
{
    if i == 0 {
        assert(ns.subrange(0, 0) =~= Seq::<TextNodeView>::empty());
        assert(ns.subrange(0, ns.len() as int) =~= ns);
        assert(Seq::<TextNodeView>::empty() + spec_split_nodes_link(ns) =~= spec_split_nodes_link(
            ns,
        ));
    } else {
        let tail = ns.subrange(1, ns.len() as int);
        lemma_split_nodes_link_decompose(tail, i - 1);
        assert(ns.subrange(0, i).subrange(1, i) =~= tail.subrange(0, i - 1));
        assert(ns.subrange(i, ns.len() as int) =~= tail.subrange(i - 1, tail.len() as int));
        assert(ns.subrange(0, i)[0] == ns[0]);
        let h = if ns[0].text.len() == 0 {
            Seq::<TextNodeView>::empty()
        } else if ns[0].text_type != TextType::Plain {
            seq![ns[0]]
        } else {
            spec_split_link_text(ns[0].text)
        };
        assert((h + spec_split_nodes_link(tail.subrange(0, i - 1))) + spec_split_nodes_link(
            tail.subrange(i - 1, tail.len() as int),
        ) =~= h + (spec_split_nodes_link(tail.subrange(0, i - 1)) + spec_split_nodes_link(
            tail.subrange(i - 1, tail.len() as int),
        )));
    }
}

/// Appends to `out` the spans for one plain text in the image stage.
fn append_image_spans(text: String, out: &mut Vec<TextNode>)
    ensures
        span_views(final(out)@) == span_views(old(out)@) + spec_split_image_text(text@),
{
    let ghost base = span_views(old(out)@);
    let ghost total = spec_split_image_text(text@);
    let mut rest = text;
    while rest.as_str().unicode_len() > 0
        invariant
            span_views(out@) + spec_split_image_text(rest@) == base + total,
        decreases rest@.len(),
    {
        let rlen = rest.as_str().unicode_len();
        let ghost rv = rest@;
        let ghost before = span_views(out@);
        match find_image_pos(rest.as_str(), 0) {
            None => {
                out.push(TextNode { text: rest, text_type: TextType::Plain, url: None });
                proof {
                    assert(spec_split_image_text(rv) == seq![plain_view(rv)]);
                    assert(span_views(out@) =~= before + seq![plain_view(rv)]);
                }
                return;
            },
            Some(m) => {
                let (st, j, k) = m;
                if st > 0 {
                    let b = String::from_str(rest.as_str().substring_char(0, st));
                    out.push(TextNode { text: b, text_type: TextType::Plain, url: None });
                }
                let alt = String::from_str(rest.as_str().substring_char(st + 2, j));
                let url = String::from_str(rest.as_str().substring_char(j + 2, k));
                let ghost head = if st > 0 {
                    seq![plain_view(rv.subrange(0, st as int))]
                } else {
                    Seq::<TextNodeView>::empty()
                };
                let ghost img = seq![
                    TextNodeView {
                        text: rv.subrange(st as int + 2, j as int),
                        text_type: TextType::Image,
                        url: Some(rv.subrange(j as int + 2, k as int)),
                    },
                ];
                proof {
                    assert(span_views(out@) =~= before + head);
                }
                out.push(TextNode { text: alt, text_type: TextType::Image, url: Some(url) });
                let tmp = String::from_str(rest.as_str().substring_char(k + 1, rlen));
                proof {
                    assert(span_views(out@) =~= (before + head) + img);
                    assert(spec_split_image_text(rv) == (head + img) + spec_split_image_text(
                        rv.subrange(k as int + 1, rv.len() as int),
                    ));
                    assert(((before + head) + img) + spec_split_image_text(tmp@) =~= before + ((head
                        + img) + spec_split_image_text(tmp@)));
                }
                rest = tmp;
            },
        }
    }
    proof {
        assert(spec_split_image_text(rest@) == Seq::<TextNodeView>::empty());
        assert(span_views(out@) + Seq::<TextNodeView>::empty() =~= span_views(out@));
    }
}

/// Appends to `out` the spans for one plain text in the link stage.
fn append_link_spans(text: String, out: &mut Vec<TextNode>)
    ensures
        span_views(final(out)@) == span_views(old(out)@) + spec_split_link_text(text@),
{
    let ghost base = span_views(old(out)@);
    let ghost total = spec_split_link_text(text@);
    let mut rest = text;
    while rest.as_str().unicode_len() > 0
        invariant
            span_views(out@) + spec_split_link_text(rest@) == base + total,
        decreases rest@.len(),
    {
        let rlen = rest.as_str().unicode_len();
        let ghost rv = rest@;
        let ghost before = span_views(out@);
        match find_link_pos(rest.as_str(), 0) {
            None => {
                out.push(TextNode { text: rest, text_type: TextType::Plain, url: None });
                proof {
                    assert(spec_split_link_text(rv) == seq![plain_view(rv)]);
                    assert(span_views(out@) =~= before + seq![plain_view(rv)]);
                }
                return;
            },
            Some(m) => {
                let (st, j, k) = m;
                if st > 0 {
                    let b = String::from_str(rest.as_str().substring_char(0, st));
                    out.push(TextNode { text: b, text_type: TextType::Plain, url: None });
                }
                let ltext = String::from_str(rest.as_str().substring_char(st + 1, j));
                let url = String::from_str(rest.as_str().substring_char(j + 2, k));
                let ghost head = if st > 0 {
                    seq![plain_view(rv.subrange(0, st as int))]
                } else {
                    Seq::<TextNodeView>::empty()
                };
                let ghost lnk = seq![
                    TextNodeView {
                        text: rv.subrange(st as int + 1, j as int),
                        text_type: TextType::Link,
                        url: Some(rv.subrange(j as int + 2, k as int)),
                    },
                ];
                proof {
                    assert(span_views(out@) =~= before + head);
                }
                out.push(TextNode { text: ltext, text_type: TextType::Link, url: Some(url) });
                let tmp = String::from_str(rest.as_str().substring_char(k + 1, rlen));
                proof {
                    assert(span_views(out@) =~= (before + head) + lnk);
                    assert(spec_split_link_text(rv) == (head + lnk) + spec_split_link_text(
                        rv.subrange(k as int + 1, rv.len() as int),
                    ));
                    assert(((before + head) + lnk) + spec_split_link_text(tmp@) =~= before + ((head
                        + lnk) + spec_split_link_text(tmp@)));
                }
                rest = tmp;
            },
        }
    }
    proof {
        assert(spec_split_link_text(rest@) == Seq::<TextNodeView>::empty());
        assert(span_views(out@) + Seq::<TextNodeView>::empty() =~= span_views(out@));
    }
}

/// Replaces each image reference `![alt](url)` inside a plain span by an
/// image span, keeping the surrounding text as plain spans and dropping
/// empty spans. Always succeeds.
pub fn split_nodes_image(old_nodes: Vec<TextNode>) -> (r: Result<Vec<TextNode>, NodeError>)
    ensures
        r matches Ok(v) && span_views(v@) == spec_split_nodes_image(span_views(old_nodes@)),
{
    let ghost orig = span_views(old_nodes@);
    let mut nodes = old_nodes;
    let mut out: Vec<TextNode> = Vec::new();
    proof {
        assert(orig.subrange(0, 0) =~= Seq::<TextNodeView>::empty());
        assert(span_views(out@) =~= Seq::<TextNodeView>::empty());
        assert(span_views(nodes@) =~= orig.subrange(0, orig.len() as int));
        assert(spec_split_nodes_image(Seq::<TextNodeView>::empty())
            == Seq::<TextNodeView>::empty());
    }
    while nodes.len() > 0
        invariant
            nodes@.len() <= orig.len(),
            span_views(nodes@) == orig.subrange(orig.len() - nodes@.len(), orig.len() as int),
            span_views(out@) == spec_split_nodes_image(
                orig.subrange(0, orig.len() - nodes@.len()),
            ),
        decreases nodes@.len(),
    {
        let ghost idx = orig.len() - nodes@.len();
        let ghost prev = nodes@;
        let n = nodes.remove(0);
        proof {
            assert(span_views(prev)[0] == orig.subrange(idx, orig.len() as int)[0]);
            assert(n@ == span_views(prev)[0]);
            assert(nodes@ =~= prev.subrange(1, prev.len() as int));
            assert forall|k: int| 0 <= k < nodes@.len() implies span_views(nodes@)[k]
                == orig.subrange(idx + 1, orig.len() as int)[k] by {
                assert(nodes@[k] == prev[k + 1]);
                assert(span_views(prev)[k + 1] == prev[k + 1]@);
            }
            assert(span_views(nodes@) =~= orig.subrange(idx + 1, orig.len() as int));
        }
        let ghost out_base = span_views(out@);
        if n.text.as_str().unicode_len() == 0 {
            proof {
                assert(span_views(out@) =~= out_base + Seq::<TextNodeView>::empty());
            }
        } else if n.text_type != TextType::Plain {
            let ghost nv = n@;
            out.push(n);
            proof {
                assert(span_views(out@) =~= out_base + seq![nv]);
            }
        } else {
            append_image_spans(n.text, &mut out);
        }
        proof {
            let pre1 = orig.subrange(0, idx + 1);
            lemma_split_nodes_image_decompose(pre1, idx);
            assert(pre1.subrange(0, idx) =~= orig.subrange(0, idx));
            assert(pre1.subrange(idx, idx + 1) =~= seq![orig[idx]]);
            assert(seq![orig[idx]].subrange(1, 1) =~= Seq::<TextNodeView>::empty());
            assert(spec_split_nodes_image(Seq::<TextNodeView>::empty())
                == Seq::<TextNodeView>::empty());
            let h = if orig[idx].text.len() == 0 {
                Seq::<TextNodeView>::empty()
            } else if orig[idx].text_type != TextType::Plain {
                seq![orig[idx]]
            } else {
                spec_split_image_text(orig[idx].text)
            };
            assert(seq![orig[idx]][0] == orig[idx]);
            assert(h + Seq::<TextNodeView>::empty() =~= h);
            assert(spec_split_nodes_image(seq![orig[idx]]) == h);
            assert(span_views(out@) == out_base + h);
        }
    }
    proof {
        assert(orig.subrange(0, orig.len() as int) =~= orig);
    }
    Ok(out)
}

/// Replaces each link reference `[text](url)` inside a plain span by a
/// link span, keeping the surrounding text as plain spans and dropping
/// empty spans; a reference preceded by `'!'` is left alone. Always
/// succeeds.
pub fn split_nodes_link(old_nodes: Vec<TextNode>) -> (r: Result<Vec<TextNode>, NodeError>)
    ensures
        r matches Ok(v) && span_views(v@) == spec_split_nodes_link(span_views(old_nodes@)),
{
    let ghost orig = span_views(old_nodes@);
    let mut nodes = old_nodes;
    let mut out: Vec<TextNode> = Vec::new();
    proof {
        assert(orig.subrange(0, 0) =~= Seq::<TextNodeView>::empty());
        assert(span_views(out@) =~= Seq::<TextNodeView>::empty());
        assert(span_views(nodes@) =~= orig.subrange(0, orig.len() as int));
        assert(spec_split_nodes_link(Seq::<TextNodeView>::empty())
            == Seq::<TextNodeView>::empty());
    }
    while nodes.len() > 0
        invariant
            nodes@.len() <= orig.len(),
            span_views(nodes@) == orig.subrange(orig.len() - nodes@.len(), orig.len() as int),
            span_views(out@) == spec_split_nodes_link(orig.subrange(0, orig.len() - nodes@.len())),
        decreases nodes@.len(),
    {
        let ghost idx = orig.len() - nodes@.len();
        let ghost prev = nodes@;
        let n = nodes.remove(0);
        proof {
            assert(span_views(prev)[0] == orig.subrange(idx, orig.len() as int)[0]);
            assert(n@ == span_views(prev)[0]);
            assert(nodes@ =~= prev.subrange(1, prev.len() as int));
            assert forall|k: int| 0 <= k < nodes@.len() implies span_views(nodes@)[k]
                == orig.subrange(idx + 1, orig.len() as int)[k] by {
                assert(nodes@[k] == prev[k + 1]);
                assert(span_views(prev)[k + 1] == prev[k + 1]@);
            }
            assert(span_views(nodes@) =~= orig.subrange(idx + 1, orig.len() as int));
        }
        let ghost out_base = span_views(out@);
        if n.text.as_str().unicode_len() == 0 {
            proof {
                assert(span_views(out@) =~= out_base + Seq::<TextNodeView>::empty());
            }
        } else if n.text_type != TextType::Plain {
            let ghost nv = n@;
            out.push(n);
            proof {
                assert(span_views(out@) =~= out_base + seq![nv]);
            }
        } else {
            append_link_spans(n.text, &mut out);
        }
        proof {
            let pre1 = orig.subrange(0, idx + 1);
            lemma_split_nodes_link_decompose(pre1, idx);
            assert(pre1.subrange(0, idx) =~= orig.subrange(0, idx));
            assert(pre1.subrange(idx, idx + 1) =~= seq![orig[idx]]);
            assert(seq![orig[idx]].subrange(1, 1) =~= Seq::<TextNodeView>::empty());
            assert(spec_split_nodes_link(Seq::<TextNodeView>::empty())
                == Seq::<TextNodeView>::empty());
            let h = if orig[idx].text.len() == 0 {
                Seq::<TextNodeView>::empty()
            } else if orig[idx].text_type != TextType::Plain {
                seq![orig[idx]]
            } else {
                spec_split_link_text(orig[idx].text)
            };
            assert(seq![orig[idx]][0] == orig[idx]);
            assert(h + Seq::<TextNodeView>::empty() =~= h);
            assert(spec_split_nodes_link(seq![orig[idx]]) == h);
            assert(span_views(out@) == out_base + h);
        }
    }
    proof {
        assert(orig.subrange(0, orig.len() as int) =~= orig);
    }
    Ok(out)
}

/// The whole tokenization of one block text: italic, code and bold
/// delimiter splitting, then image extraction, then link extraction. The
/// first plain span holding an unmatched delimiter is the error.
pub open spec fn spec_tokenize(t: Seq<char>) -> Result<Seq<TextNodeView>, Seq<char>> {
    match spec_split_nodes_delim(seq![plain_view(t)], seq!['_'], TextType::Italic) {
        Err(e) => Err(e),
        Ok(n1) => match spec_split_nodes_delim(n1, seq!['`'], TextType::Code) {
            Err(e) => Err(e),
            Ok(n2) => match spec_split_nodes_delim(n2, seq!['*', '*'], TextType::Bold) {
                Err(e) => Err(e),
                Ok(n3) => Ok(spec_split_nodes_link(spec_split_nodes_image(n3))),
            },
        },
    }
}

/// Tokenizes one block text into its ordered inline spans; the result is
/// an error exactly when some plain span holds an unmatched delimiter,
/// and the error carries that span's text.
pub fn text_to_textnodes(text: &str) -> (r: Result<Vec<TextNode>, NodeError>)
    ensures
        match spec_tokenize(text@) {
            Ok(vs) => r matches Ok(v) && span_views(v@) == vs,
            Err(e) => r matches Err(err) && err matches NodeError::ParseError(t) && t@ == e,
        },
{
    proof {
        reveal_strlit("_");
        reveal_strlit("`");
        reveal_strlit("**");
        assert("_"@ =~= seq!['_']);
        assert("`"@ =~= seq!['`']);
        assert("**"@ =~= seq!['*', '*']);
    }
    let initial = TextNode {
        text: String::from_str(text),
        text_type: TextType::Plain,
        url: None,
    };
    let mut nodes: Vec<TextNode> = Vec::new();
    nodes.push(initial);
    proof {
        assert(span_views(nodes@) =~= seq![plain_view(text@)]);
    }
    let n1 = match split_nodes_delimeter(nodes, "_", TextType::Italic) {
        Ok(v) => v,
        Err(e) => {
            return Err(e);
        },
    };
    let n2 = match split_nodes_delimeter(n1, "`", TextType::Code) {
        Ok(v) => v,
        Err(e) => {
            return Err(e);
        },
    };
    let n3 = match split_nodes_delimeter(n2, "**", TextType::Bold) {
        Ok(v) => v,
        Err(e) => {
            return Err(e);
        },
    };
    let n4 = match split_nodes_image(n3) {
        Ok(v) => v,
        Err(e) => {
            return Err(e);
        },
    };
    split_nodes_link(n4)
}

/// Spans made by delimiter splitting carry no URL, so they are
/// well-formed for any non-link, non-image kind.
pub proof fn lemma_alternating_spans_wf(parts: Seq<Seq<char>>, i: int, tt: TextType)
    requires
        tt != TextType::Link,
        tt != TextType::Image,
    ensures
        forall|k: int|
            0 <= k < alternating_spans(parts, i, tt).len() ==> span_wf(
                #[trigger] alternating_spans(parts, i, tt)[k],
            ),
    decreases parts.len() - i,
{
    if i < 0 || i >= parts.len() {
    } else {
        lemma_alternating_spans_wf(parts, i + 1, tt);
        let rest = alternating_spans(parts, i + 1, tt);
        let cur = alternating_spans(parts, i, tt);
        assert forall|k: int| 0 <= k < cur.len() implies span_wf(cur[k]) by {
            if parts[i].len() == 0 {
                assert(cur[k] == rest[k]);
            } else if k > 0 {
                assert(cur[k] == rest[k - 1]);
            }
        }
    }
}

/// The delimiter stage keeps a well-formed span sequence well-formed.
pub proof fn lemma_split_nodes_delim_wf(ns: Seq<TextNodeView>, d: Seq<char>, tt: TextType)
    requires
        tt != TextType::Link,
        tt != TextType::Image,
        forall|k: int| 0 <= k < ns.len() ==> span_wf(#[trigger] ns[k]),
    ensures
        spec_split_nodes_delim(ns, d, tt) matches Ok(vs) ==> forall|k: int|
            0 <= k < vs.len() ==> span_wf(#[trigger] vs[k]),
    decreases ns.len(),
{
    if ns.len() == 0 {
    } else {
        let tail = ns.subrange(1, ns.len() as int);
        assert(forall|k: int| 0 <= k < tail.len() ==> span_wf(#[trigger] tail[k])) by {
            assert(forall|k: int| 0 <= k < tail.len() ==> tail[k] == ns[k + 1]);
        }
        lemma_split_nodes_delim_wf(tail, d, tt);
        match spec_split_span_delim(ns[0], d, tt) {
            Err(e) => {},
            Ok(head) => {
                assert(forall|k: int| 0 <= k < head.len() ==> span_wf(#[trigger] head[k])) by {
                    if ns[0].text_type == TextType::Plain && spec_contains(ns[0].text, d)
                        && spec_split(ns[0].text, d).len() % 2 != 0 {
                        lemma_alternating_spans_wf(spec_split(ns[0].text, d), 0, tt);
                    }
                }
                match spec_split_nodes_delim(tail, d, tt) {
                    Err(e) => {},
                    Ok(tl) => {
                        assert forall|k: int| 0 <= k < (head + tl).len() implies span_wf(
                            (head + tl)[k],
                        ) by {
                            if k < head.len() {
                                assert((head + tl)[k] == head[k]);
                            } else {
                                assert((head + tl)[k] == tl[k - head.len()]);
                            }
                        }
                    },
                }
            },
        }
    }
}

/// The spans for one plain text in the image stage are well-formed.
pub proof fn lemma_split_image_text_wf(t: Seq<char>)
    ensures
        forall|k: int|
            0 <= k < spec_split_image_text(t).len() ==> span_wf(
                #[trigger] spec_split_image_text(t)[k],
            ),
    decreases t.len(),
{
    if t.len() == 0 {
    } else {
        match spec_find_image(t, 0) {
            None => {},
            Some((st, alt, url, end)) => {
                lemma_find_image_bounds(t, 0);
                lemma_split_image_text_wf(t.subrange(end, t.len() as int));
                let head = if st > 0 {
                    seq![plain_view(t.subrange(0, st))]
                } else {
                    Seq::<TextNodeView>::empty()
                };
                let img = seq![
                    TextNodeView { text: alt, text_type: TextType::Image, url: Some(url) },
                ];
                let rest = spec_split_image_text(t.subrange(end, t.len() as int));
                let cur = spec_split_image_text(t);
                assert(cur == (head + img) + rest);
                assert forall|k: int| 0 <= k < cur.len() implies span_wf(cur[k]) by {
                    if k < head.len() {
                        assert(cur[k] == head[k]);
                    } else if k == head.len() {
                        assert(cur[k] == img[0]);
                    } else {
                        assert(cur[k] == rest[k - head.len() - 1]);
                    }
                }
            },
        }
    }
}

/// The spans for one plain text in the link stage are well-formed.
pub proof fn lemma_split_link_text_wf(t: Seq<char>)
    ensures
        forall|k: int|
            0 <= k < spec_split_link_text(t).len() ==> span_wf(
                #[trigger] spec_split_link_text(t)[k],
            ),
    decreases t.len(),
{
    if t.len() == 0 {
    } else {
        match spec_find_link(t, 0) {
            None => {},
            Some((st, text, url, end)) => {
                lemma_find_link_bounds(t, 0);
                lemma_split_link_text_wf(t.subrange(end, t.len() as int));
                let head = if st > 0 {
                    seq![plain_view(t.subrange(0, st))]
                } else {
                    Seq::<TextNodeView>::empty()
                };
                let lnk = seq![
                    TextNodeView { text: text, text_type: TextType::Link, url: Some(url) },
                ];
                let rest = spec_split_link_text(t.subrange(end, t.len() as int));
                let cur = spec_split_link_text(t);
                assert(cur == (head + lnk) + rest);
                assert forall|k: int| 0 <= k < cur.len() implies span_wf(cur[k]) by {
                    if k < head.len() {
                        assert(cur[k] == head[k]);
                    } else if k == head.len() {
                        assert(cur[k] == lnk[0]);
                    } else {
                        assert(cur[k] == rest[k - head.len() - 1]);
                    }
                }
            },
        }
    }
}

/// The image stage keeps a well-formed span sequence well-formed.
pub proof fn lemma_split_nodes_image_wf(ns: Seq<TextNodeView>)
    requires
        forall|k: int| 0 <= k < ns.len() ==> span_wf(#[trigger] ns[k]),
    ensures
        forall|k: int|
            0 <= k < spec_split_nodes_image(ns).len() ==> span_wf(
                #[trigger] spec_split_nodes_image(ns)[k],
            ),
    decreases ns.len(),
{
    if ns.len() == 0 {
    } else {
        let tail = ns.subrange(1, ns.len() as int);
        assert(forall|k: int| 0 <= k < tail.len() ==> span_wf(#[trigger] tail[k])) by {
            assert(forall|k: int| 0 <= k < tail.len() ==> tail[k] == ns[k + 1]);
        }
        lemma_split_nodes_image_wf(tail);
        lemma_split_image_text_wf(ns[0].text);
        let head = if ns[0].text.len() == 0 {
            Seq::<TextNodeView>::empty()
        } else if ns[0].text_type != TextType::Plain {
            seq![ns[0]]
        } else {
            spec_split_image_text(ns[0].text)
        };
        let rest = spec_split_nodes_image(tail);
        let cur = spec_split_nodes_image(ns);
        assert(cur == head + rest);
        assert forall|k: int| 0 <= k < cur.len() implies span_wf(cur[k]) by {
            if k < head.len() {
                assert(cur[k] == head[k]);
            } else {
                assert(cur[k] == rest[k - head.len()]);
            }
        }
    }
}

/// The link stage keeps a well-formed span sequence well-formed.
pub proof fn lemma_split_nodes_link_wf(ns: Seq<TextNodeView>)
    requires
        forall|k: int| 0 <= k < ns.len() ==> span_wf(#[trigger] ns[k]),
    ensures
        forall|k: int|
            0 <= k < spec_split_nodes_link(ns).len() ==> span_wf(
                #[trigger] spec_split_nodes_link(ns)[k],
            ),
    decreases ns.len(),
{
    if ns.len() == 0 {
    } else {
        let tail = ns.subrange(1, ns.len() as int);
        assert(forall|k: int| 0 <= k < tail.len() ==> span_wf(#[trigger] tail[k])) by {
            assert(forall|k: int| 0 <= k < tail.len() ==> tail[k] == ns[k + 1]);
        }
        lemma_split_nodes_link_wf(tail);
        lemma_split_link_text_wf(ns[0].text);
        let head = if ns[0].text.len() == 0 {
            Seq::<TextNodeView>::empty()
        } else if ns[0].text_type != TextType::Plain {
            seq![ns[0]]
        } else {
            spec_split_link_text(ns[0].text)
        };
        let rest = spec_split_nodes_link(tail);
        let cur = spec_split_nodes_link(ns);
        assert(cur == head + rest);
        assert forall|k: int| 0 <= k < cur.len() implies span_wf(cur[k]) by {
            if k < head.len() {
                assert(cur[k] == head[k]);
            } else {
                assert(cur[k] == rest[k - head.len()]);
            }
        }
    }
}

/// Every span the tokenizer returns is well-formed: it carries a URL
/// exactly when it is a link or an image.
pub proof fn lemma_tokenize_wf(t: Seq<char>)
    ensures
        spec_tokenize(t) matches Ok(vs) ==> forall|k: int|
            0 <= k < vs.len() ==> span_wf(#[trigger] vs[k]),
{
    let init = seq![plain_view(t)];
    assert(forall|k: int| 0 <= k < init.len() ==> span_wf(#[trigger] init[k]));
    lemma_split_nodes_delim_wf(init, seq!['_'], TextType::Italic);
    match spec_split_nodes_delim(init, seq!['_'], TextType::Italic) {
        Err(e) => {},
        Ok(n1) => {
            lemma_split_nodes_delim_wf(n1, seq!['`'], TextType::Code);
            match spec_split_nodes_delim(n1, seq!['`'], TextType::Code) {
                Err(e) => {},
                Ok(n2) => {
                    lemma_split_nodes_delim_wf(n2, seq!['*', '*'], TextType::Bold);
                    match spec_split_nodes_delim(n2, seq!['*', '*'], TextType::Bold) {
                        Err(e) => {},
                        Ok(n3) => {
                            lemma_split_nodes_image_wf(n3);
                            lemma_split_nodes_link_wf(spec_split_nodes_image(n3));
                        },
                    }
                },
            }
        },
    }
}

/// A bracket pair immediately preceded by `'!'` belongs to an image
/// reference and is never found as a link, wherever the search starts.
pub proof fn lemma_link_never_after_bang(s: Seq<char>, from: int)
    ensures
        ({
            let m = spec_find_link(s, from)->0;
            spec_find_link(s, from) is Some ==> !(m.0 > 0 && s[m.0 - 1] == '!')
        }),
    decreases s.len() + 1 - from,
{
    if from < 0 || from >= s.len() {
    } else if spec_link_at(s, from) is Some && !(from > 0 && s[from - 1] == '!') {
    } else {
        lemma_link_never_after_bang(s, from + 1);
    }
}

} // verus!
