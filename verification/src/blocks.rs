//! Block segmentation and classification, per-block content extraction,
//! and assembly of the document's element tree.
use vstd::prelude::*;
use vstd::string::*;
use crate::errors::NodeError;
use crate::htmlnode::{HtmlNode, HtmlNodeView, node_view, children_views, lemma_children_views,
    lemma_children_views_push};
use crate::textnode::{TextNodeView, span_views, spec_span_node};
use crate::utils::{text_to_textnodes, spec_tokenize, lemma_tokenize_wf};
use crate::text::{spec_split, spec_lines, spec_trim_end, spec_starts_with, spec_strip_prefix,
    str_views, split_string, split_lines, trim_end_string, starts_with_pattern, starts_with_chars,
    str_eq, pattern_at, match_at, spec_find, spec_contains, lemma_find_none, lemma_find_exact,
    lemma_find_min, lemma_find_some, lemma_trim_end_len};
use crate::htmlnode::{spec_render, spec_render_children, spec_node_props};

verus! {

/// The structural kind of one block, decided by an ordered predicate
/// chain: heading, code, quote, ordered list, unordered list, and
/// paragraph as the fallback.
#[derive(PartialEq, Eq, Debug, Copy, Clone, Structural)]
pub enum BlockType {
    Paragraph,
    Heading,
    Code,
    Quote,
    UnorderedList,
    OrderedList,
}

/// The decimal digit character for `d` (0 through 9).
pub open spec fn digit_char(d: nat) -> char {
    ((48 + d) as u8) as char
}

/// The decimal digits of `n`, most significant first.
pub open spec fn spec_digits(n: nat) -> Seq<char>
    decreases n,
{
    if n < 10 {
        seq![digit_char(n)]
    } else {
        spec_digits(n / 10) + seq![digit_char(n % 10)]
    }
}

/// The list marker `"{i+1}. "` that line `i` of an ordered list carries.
pub open spec fn spec_ol_prefix(i: int) -> Seq<char> {
    spec_digits((i + 1) as nat) + seq!['.', ' ']
}

/// Every line of the block starts with `'>'`.
pub open spec fn spec_is_quote(b: Seq<char>) -> bool {
    forall|i: int|
        0 <= i < spec_lines(b).len() ==> spec_starts_with(#[trigger] spec_lines(b)[i], seq!['>'])
}

/// Every line of the block starts with `"- "`.
pub open spec fn spec_is_ul(b: Seq<char>) -> bool {
    forall|i: int|
        0 <= i < spec_lines(b).len() ==> spec_starts_with(
            #[trigger] spec_lines(b)[i],
            seq!['-', ' '],
        )
}

/// Line `i` of the block starts with its ordered-list marker `"{i+1}. "`.
pub open spec fn spec_is_ol(b: Seq<char>) -> bool {
    forall|i: int|
        0 <= i < spec_lines(b).len() ==> spec_starts_with(
            #[trigger] spec_lines(b)[i],
            spec_ol_prefix(i),
        )
}

/// The position of the first character at or after `i` that is not `'#'`.
pub open spec fn first_non_hash(b: Seq<char>, i: int) -> int
    decreases b.len() - i,
{
    if 0 <= i < b.len() && b[i] == '#' {
        first_non_hash(b, i + 1)
    } else {
        i
    }
}

/// One to six leading `'#'` characters, followed by a space or by the
/// end of the block. Seven or more `'#'` characters disqualify.
pub open spec fn spec_is_heading(b: Seq<char>) -> bool {
    let h = first_non_hash(b, 0);
    &&& 1 <= h <= 6
    &&& (h == b.len() || b[h] == ' ')
}

/// At least two lines, and the first and last line are each exactly the
/// fence `"```"`.
pub open spec fn spec_is_code(b: Seq<char>) -> bool {
    let parts = spec_split(b, seq!['\n']);
    &&& parts.len() >= 2
    &&& parts[0] == seq!['`', '`', '`']
    &&& parts[parts.len() - 1] == seq!['`', '`', '`']
}

/// The ordered predicate chain deciding a block's kind; the first match
/// wins and a block matching none is a paragraph.
pub open spec fn spec_blocktype(b: Seq<char>) -> BlockType {
    if spec_is_heading(b) {
        BlockType::Heading
    } else if spec_is_code(b) {
        BlockType::Code
    } else if spec_is_quote(b) {
        BlockType::Quote
    } else if spec_is_ol(b) {
        BlockType::OrderedList
    } else if spec_is_ul(b) {
        BlockType::UnorderedList
    } else {
        BlockType::Paragraph
    }
}

/// The non-empty split pieces, each right-trimmed, in order.
pub open spec fn spec_clean_blocks(parts: Seq<Seq<char>>) -> Seq<Seq<char>>
    decreases parts.len(),
{
    if parts.len() == 0 {
        Seq::empty()
    } else {
        let rest = spec_clean_blocks(parts.subrange(1, parts.len() as int));
        if parts[0].len() == 0 {
            rest
        } else {
            seq![spec_trim_end(parts[0])] + rest
        }
    }
}

/// The blocks of a document: the text split on blank lines (two
/// consecutive newlines), empty pieces discarded, every kept piece
/// right-trimmed.
pub open spec fn spec_blocks(md: Seq<char>) -> Seq<Seq<char>> {
    spec_clean_blocks(spec_split(md, seq!['\n', '\n']))
}

/// Whether every line of the block starts with `'>'`.
pub fn is_quote(block: &str) -> (r: bool)
    ensures
        r == spec_is_quote(block@),
{
    proof {
        reveal_strlit(">");
        assert(">"@ =~= seq!['>']);
    }
    let lines = split_lines(block);
    let mut i: usize = 0;
    while i < lines.len()
        invariant
            i <= lines@.len(),
            forall|k: int|
                0 <= k < i ==> spec_starts_with(#[trigger] spec_lines(block@)[k], seq!['>']),
        decreases lines@.len() - i,
    {
        if !starts_with_pattern(lines[i].as_str(), ">") {
            proof {
                assert(!spec_starts_with(spec_lines(block@)[i as int], seq!['>']));
                assert(!spec_is_quote(block@));
            }
            return false;
        }
        i = i + 1;
    }
    true
}

/// Whether every line of the block starts with `"- "`.
pub fn is_ul(block: &str) -> (r: bool)
    ensures
        r == spec_is_ul(block@),
{
    proof {
        reveal_strlit("- ");
        assert("- "@ =~= seq!['-', ' ']);
    }
    let lines = split_lines(block);
    let mut i: usize = 0;
    while i < lines.len()
        invariant
            i <= lines@.len(),
            forall|k: int|
                0 <= k < i ==> spec_starts_with(#[trigger] spec_lines(block@)[k], seq!['-', ' ']),
        decreases lines@.len() - i,
    {
        if !starts_with_pattern(lines[i].as_str(), "- ") {
            proof {
                assert(!spec_starts_with(spec_lines(block@)[i as int], seq!['-', ' ']));
                assert(!spec_is_ul(block@));
            }
            return false;
        }
        i = i + 1;
    }
    true
}

/// The decimal digits of `n`, as characters.
pub fn digit_chars(n: usize) -> (v: Vec<char>)
    ensures
        v@ == spec_digits(n as nat),
    decreases n,
{
    if n < 10 {
        let mut v: Vec<char> = Vec::new();
        let c: char = (48u8 + (n as u8)) as char;
        v.push(c);
        proof {
            assert(v@ =~= seq![digit_char(n as nat)]);
        }
        v
    } else {
        let mut v = digit_chars(n / 10);
        let c: char = (48u8 + ((n % 10) as u8)) as char;
        v.push(c);
        proof {
            assert((n / 10) as nat == (n as nat) / 10);
            assert((n % 10) as nat == (n as nat) % 10);
            assert(v@ =~= spec_digits((n as nat) / 10) + seq![digit_char((n as nat) % 10)]);
        }
        v
    }
}

/// Whether line `i` of the block starts with `"{i+1}. "` for every `i`.
pub fn is_ol(block: &str) -> (r: bool)
    ensures
        r == spec_is_ol(block@),
{
    let lines = split_lines(block);
    let mut i: usize = 0;
    while i < lines.len()
        invariant
            i <= lines@.len(),
            forall|k: int|
                0 <= k < i ==> spec_starts_with(#[trigger] spec_lines(block@)[k], spec_ol_prefix(k)),
        decreases lines@.len() - i,
    {
        let mut pref = digit_chars(i + 1);
        pref.push('.');
        pref.push(' ');
        proof {
            assert(pref@ =~= spec_ol_prefix(i as int));
        }
        if !starts_with_chars(lines[i].as_str(), &pref) {
            proof {
                assert(!spec_starts_with(spec_lines(block@)[i as int], spec_ol_prefix(i as int)));
                assert(!spec_is_ol(block@));
            }
            return false;
        }
        i = i + 1;
    }
    true
}

/// Whether the block is a heading: one to six leading `'#'` characters
/// followed by a space or by the end of the block.
pub fn is_heading(block: &str) -> (r: bool)
    ensures
        r == spec_is_heading(block@),
{
    let slen = block.unicode_len();
    let mut h: usize = 0;
    while h < slen && block.get_char(h) == '#'
        invariant
            h <= slen,
            first_non_hash(block@, 0) == first_non_hash(block@, h as int),
        decreases slen - h,
    {
        h = h + 1;
    }
    if h < 1 || h > 6 {
        return false;
    }
    if h == slen {
        return true;
    }
    block.get_char(h) == ' '
}

/// Whether the block is a fenced code block: at least two lines, the
/// first and last being exactly the fence.
pub fn is_code(block: &str) -> (r: bool)
    ensures
        r == spec_is_code(block@),
{
    proof {
        reveal_strlit("\n");
        reveal_strlit("```");
        assert("\n"@ =~= seq!['\n']);
        assert("```"@ =~= seq!['`', '`', '`']);
    }
    let parts = split_string(block, "\n");
    if parts.len() < 2 {
        return false;
    }
    let first_ok = str_eq(parts[0].as_str(), "```");
    let last_ok = str_eq(parts[parts.len() - 1].as_str(), "```");
    first_ok && last_ok
}

/// The kind of the block, by the ordered predicate chain.
pub fn block_to_blocktype(block: &str) -> (r: BlockType)
    ensures
        r == spec_blocktype(block@),
{
    if is_heading(block) {
        return BlockType::Heading;
    }
    if is_code(block) {
        return BlockType::Code;
    }
    if is_quote(block) {
        return BlockType::Quote;
    }
    if is_ol(block) {
        return BlockType::OrderedList;
    }
    if is_ul(block) {
        return BlockType::UnorderedList;
    }
    BlockType::Paragraph
}

/// Splits a document on blank lines into its blocks: empty pieces are
/// discarded and every kept block is right-trimmed.
#[verifier::rlimit(50)]
pub fn markdown_to_blocks(markdown: &str) -> (r: Vec<String>)
    ensures
        str_views(r@) == spec_blocks(markdown@),
{
    proof {
        reveal_strlit("\n\n");
        assert("\n\n"@ =~= seq!['\n', '\n']);
    }
    let parts = split_string(markdown, "\n\n");
    let ghost pviews = spec_split(markdown@, seq!['\n', '\n']);
    let mut out: Vec<String> = Vec::new();
    let mut i: usize = 0;
    proof {
        assert(str_views(out@) =~= Seq::<Seq<char>>::empty());
        assert(pviews.subrange(0, pviews.len() as int) =~= pviews);
    }
    while i < parts.len()
        invariant
            i <= parts@.len(),
            str_views(out@) + spec_clean_blocks(pviews.subrange(i as int, pviews.len() as int))
                == spec_clean_blocks(pviews),
        decreases parts@.len() - i,
    {
        let ghost before = str_views(out@);
        let ghost suf = pviews.subrange(i as int, pviews.len() as int);
        proof {
            assert(suf[0] == pviews[i as int]);
            assert(suf.subrange(1, suf.len() as int) =~= pviews.subrange(
                i + 1,
                pviews.len() as int,
            ));
        }
        if parts[i].as_str().unicode_len() > 0 {
            let b = trim_end_string(parts[i].as_str());
            out.push(b);
            proof {
                assert(str_views(out@) =~= before + seq![spec_trim_end(pviews[i as int])]);
                assert((before + seq![spec_trim_end(pviews[i as int])]) + spec_clean_blocks(
                    pviews.subrange(i + 1, pviews.len() as int),
                ) =~= before + (seq![spec_trim_end(pviews[i as int])] + spec_clean_blocks(
                    pviews.subrange(i + 1, pviews.len() as int),
                )));
            }
        }
        i = i + 1;
    }
    proof {
        assert(pviews.subrange(pviews.len() as int, pviews.len() as int)
            =~= Seq::<Seq<char>>::empty());
        assert(str_views(out@) + Seq::<Seq<char>>::empty() =~= str_views(out@));
    }
    out
}

/// The heading text: the block without its leading `'#'` run and without
/// one space following that run.
pub open spec fn spec_heading_content(b: Seq<char>) -> Seq<char> {
    let h = first_non_hash(b, 0);
    spec_strip_prefix(b.subrange(h, b.len() as int), seq![' '])
}

/// Strips the leading `'#'` run and one following space off a heading
/// block, leaving its text.
pub fn extract_heading_content(block: &str) -> (r: String)
    ensures
        r@ == spec_heading_content(block@),
{
    proof {
        reveal_strlit(" ");
        assert(" "@ =~= seq![' ']);
    }
    let slen = block.unicode_len();
    let mut h: usize = 0;
    while h < slen && block.get_char(h) == '#'
        invariant
            h <= slen,
            first_non_hash(block@, 0) == first_non_hash(block@, h as int),
        decreases slen - h,
    {
        h = h + 1;
    }
    let rest = block.substring_char(h, slen);
    if starts_with_pattern(rest, " ") {
        let r = String::from_str(rest.substring_char(1, rest.unicode_len()));
        proof {
            assert(r@ =~= spec_heading_content(block@));
        }
        r
    } else {
        String::from_str(rest)
    }
}

/// The code text: the block without a leading `"```\n"` fence line and
/// without a trailing `"```"` fence, each stripped at most once.
pub open spec fn spec_code_content(b: Seq<char>) -> Seq<char> {
    let inner = spec_strip_prefix(b, seq!['`', '`', '`', '\n']);
    if inner.len() >= 3 && inner.subrange(inner.len() - 3, inner.len() as int) == seq!['`', '`', '`'] {
        inner.subrange(0, inner.len() - 3)
    } else {
        inner
    }
}

/// Strips the leading and trailing fence off a code block; the content
/// between them, embedded newlines included, is returned verbatim.
pub fn extract_code_content(block: &str) -> (r: String)
    ensures
        r@ == spec_code_content(block@),
{
    proof {
        reveal_strlit("```\n");
        reveal_strlit("```");
        assert("```\n"@ =~= seq!['`', '`', '`', '\n']);
        assert("```"@ =~= seq!['`', '`', '`']);
    }
    let slen = block.unicode_len();
    let inner: &str = if starts_with_pattern(block, "```\n") {
        block.substring_char(4, slen)
    } else {
        block
    };
    let ilen = inner.unicode_len();
    if ilen >= 3 && pattern_at(inner, "```", ilen - 3) {
        String::from_str(inner.substring_char(0, ilen - 3))
    } else {
        String::from_str(inner)
    }
}

/// A quote line without one leading `'>'` and one space after it.
pub open spec fn spec_quote_line(l: Seq<char>) -> Seq<char> {
    spec_strip_prefix(spec_strip_prefix(l, seq!['>']), seq![' '])
}

/// The non-empty lines of a quote block, each stripped of its marker.
pub open spec fn spec_quote_lines(lines: Seq<Seq<char>>) -> Seq<Seq<char>>
    decreases lines.len(),
{
    if lines.len() == 0 {
        Seq::empty()
    } else {
        let rest = spec_quote_lines(lines.subrange(1, lines.len() as int));
        if lines[0].len() == 0 {
            rest
        } else {
            seq![spec_quote_line(lines[0])] + rest
        }
    }
}

/// The pieces joined with a single space between each two.
pub open spec fn spec_join_space(xs: Seq<Seq<char>>) -> Seq<char>
    decreases xs.len(),
{
    if xs.len() == 0 {
        Seq::empty()
    } else if xs.len() == 1 {
        xs[0]
    } else {
        xs[0] + seq![' '] + spec_join_space(xs.subrange(1, xs.len() as int))
    }
}

/// The quote text: each non-empty line stripped of one `'>'` and one
/// following space, the surviving lines joined with single spaces.
pub open spec fn spec_quote_content(b: Seq<char>) -> Seq<char> {
    spec_join_space(spec_quote_lines(spec_lines(b)))
}

/// Joining one more piece appends a space and that piece.
pub proof fn lemma_join_space_push(xs: Seq<Seq<char>>, i: int)
    requires
        0 <= i < xs.len(),
    ensures
        spec_join_space(xs.subrange(0, i + 1)) == if i == 0 {
            xs[0]
        } else {
            spec_join_space(xs.subrange(0, i)) + seq![' '] + xs[i]
        },
    decreases i,
{
    if i == 0 {
        assert(xs.subrange(0, 1)[0] == xs[0]);
    } else if i == 1 {
        let s2 = xs.subrange(0, 2);
        assert(s2[0] == xs[0]);
        assert(s2.subrange(1, 2) =~= seq![xs[1]]);
        assert(spec_join_space(seq![xs[1]]) == xs[1]);
        assert(xs.subrange(0, 1)[0] == xs[0]);
        assert(spec_join_space(xs.subrange(0, 1)) == xs[0]);
    } else {
        let tail = xs.subrange(1, xs.len() as int);
        lemma_join_space_push(tail, i - 1);
        assert(xs.subrange(0, i + 1).subrange(1, i + 1) =~= tail.subrange(0, i));
        assert(xs.subrange(0, i).subrange(1, i) =~= tail.subrange(0, i - 1));
        assert(xs.subrange(0, i + 1)[0] == xs[0]);
        assert(xs.subrange(0, i)[0] == xs[0]);
        assert(tail[i - 1] == xs[i]);
        assert((xs[0] + seq![' ']) + ((spec_join_space(tail.subrange(0, i - 1)) + seq![' ']) + xs[i])
            =~= (((xs[0] + seq![' ']) + spec_join_space(tail.subrange(0, i - 1))) + seq![' '])
            + xs[i]);
    }
}

/// Strips the quote markers off a quote block and joins the surviving
/// lines with single spaces.
pub fn extract_quote_content(block: &str) -> (r: String)
    ensures
        r@ == spec_quote_content(block@),
{
    proof {
        reveal_strlit(">");
        reveal_strlit(" ");
        assert(">"@ =~= seq!['>']);
        assert(" "@ =~= seq![' ']);
    }
    let lines = split_lines(block);
    let ghost lviews = spec_lines(block@);
    let mut kept: Vec<String> = Vec::new();
    let mut i: usize = 0;
    proof {
        assert(str_views(kept@) =~= Seq::<Seq<char>>::empty());
        assert(lviews.subrange(0, lviews.len() as int) =~= lviews);
    }
    while i < lines.len()
        invariant
            i <= lines@.len(),
            str_views(kept@) + spec_quote_lines(lviews.subrange(i as int, lviews.len() as int))
                == spec_quote_lines(lviews),
        decreases lines@.len() - i,
    {
        let ghost before = str_views(kept@);
        let ghost suf = lviews.subrange(i as int, lviews.len() as int);
        proof {
            assert(suf[0] == lviews[i as int]);
            assert(suf.subrange(1, suf.len() as int) =~= lviews.subrange(
                i + 1,
                lviews.len() as int,
            ));
        }
        let line = lines[i].as_str();
        if line.unicode_len() > 0 {
            let l1: &str = if starts_with_pattern(line, ">") {
                line.substring_char(1, line.unicode_len())
            } else {
                line
            };
            let l2: &str = if starts_with_pattern(l1, " ") {
                l1.substring_char(1, l1.unicode_len())
            } else {
                l1
            };
            kept.push(String::from_str(l2));
            proof {
                assert(l2@ == spec_quote_line(lviews[i as int]));
                assert(str_views(kept@) =~= before + seq![spec_quote_line(lviews[i as int])]);
                assert((before + seq![spec_quote_line(lviews[i as int])]) + spec_quote_lines(
                    lviews.subrange(i + 1, lviews.len() as int),
                ) =~= before + (seq![spec_quote_line(lviews[i as int])] + spec_quote_lines(
                    lviews.subrange(i + 1, lviews.len() as int),
                )));
            }
        }
        i = i + 1;
    }
    proof {
        assert(lviews.subrange(lviews.len() as int, lviews.len() as int)
            =~= Seq::<Seq<char>>::empty());
        assert(str_views(kept@) + Seq::<Seq<char>>::empty() =~= str_views(kept@));
    }
    let ghost kviews = str_views(kept@);
    let mut r = String::new();
    let mut j: usize = 0;
    proof {
        assert(kviews.subrange(0, 0) =~= Seq::<Seq<char>>::empty());
    }
    while j < kept.len()
        invariant
            j <= kept@.len(),
            kviews == str_views(kept@),
            r@ == spec_join_space(kviews.subrange(0, j as int)),
        decreases kept@.len() - j,
    {
        proof {
            lemma_join_space_push(kviews, j as int);
        }
        if j > 0 {
            r.append(" ");
        }
        r.append(kept[j].as_str());
        j = j + 1;
    }
    proof {
        assert(kviews.subrange(0, kviews.len() as int) =~= kviews);
    }
    r
}

/// The paragraph text: the block's pieces between newlines joined with
/// single spaces, that is, every newline replaced by one space.
pub open spec fn spec_paragraph_text(b: Seq<char>) -> Seq<char> {
    spec_join_space(spec_split(b, seq!['\n']))
}

/// Joins the strings with a single space between each two.
fn join_space(parts: &Vec<String>) -> (r: String)
    ensures
        r@ == spec_join_space(str_views(parts@)),
{
    let ghost pviews = str_views(parts@);
    let mut r = String::new();
    let mut j: usize = 0;
    proof {
        reveal_strlit(" ");
        assert(" "@ =~= seq![' ']);
        assert(pviews.subrange(0, 0) =~= Seq::<Seq<char>>::empty());
    }
    while j < parts.len()
        invariant
            j <= parts@.len(),
            r@ == spec_join_space(pviews.subrange(0, j as int)),
        decreases parts@.len() - j,
    {
        proof {
            lemma_join_space_push(pviews, j as int);
        }
        if j > 0 {
            r.append(" ");
        }
        r.append(parts[j].as_str());
        j = j + 1;
    }
    proof {
        assert(pviews.subrange(0, pviews.len() as int) =~= pviews);
    }
    r
}

/// Replaces every newline in the block by a single space.
fn paragraph_text(block: &str) -> (r: String)
    ensures
        r@ == spec_paragraph_text(block@),
{
    proof {
        reveal_strlit("\n");
        assert("\n"@ =~= seq!['\n']);
    }
    let parts = split_string(block, "\n");
    proof {
        assert(str_views(parts@) =~= spec_split(block@, seq!['\n']));
    }
    join_space(&parts)
}

/// The elements for one block text: its spans, each mapped to its leaf
/// element; an unmatched delimiter in the text is the error.
pub open spec fn spec_children_of(t: Seq<char>) -> Result<Seq<HtmlNodeView>, Seq<char>> {
    match spec_tokenize(t) {
        Err(e) => Err(e),
        Ok(spans) => Ok(spans.map_values(|s: TextNodeView| spec_span_node(s))),
    }
}

/// Tokenizes one block text and maps each span to its leaf element.
pub fn text_to_children(block: &str) -> (r: Result<Vec<HtmlNode>, NodeError>)
    ensures
        match spec_children_of(block@) {
            Ok(cs) => r matches Ok(v) && children_views(v@) == cs,
            Err(e) => r matches Err(err) && err matches NodeError::ParseError(t) && t@ == e,
        },
{
    let tnodes = match text_to_textnodes(block) {
        Ok(v) => v,
        Err(e) => {
            return Err(e);
        },
    };
    proof {
        lemma_tokenize_wf(block@);
    }
    let ghost spans = span_views(tnodes@);
    let mut nodes = tnodes;
    let mut out: Vec<HtmlNode> = Vec::new();
    proof {
        assert(span_views(nodes@) =~= spans.subrange(0, spans.len() as int));
    }
    while nodes.len() > 0
        invariant
            nodes@.len() <= spans.len(),
            span_views(nodes@) == spans.subrange(spans.len() - nodes@.len(), spans.len() as int),
            out@.len() == spans.len() - nodes@.len(),
            forall|k: int|
                0 <= k < out@.len() ==> node_view(#[trigger] out@[k]) == spec_span_node(spans[k]),
        decreases nodes@.len(),
    {
        let ghost idx = spans.len() - nodes@.len();
        let ghost prev = nodes@;
        let n = nodes.remove(0);
        proof {
            assert(span_views(prev)[0] == spans.subrange(idx, spans.len() as int)[0]);
            assert(n@ == span_views(prev)[0]);
            assert(nodes@ =~= prev.subrange(1, prev.len() as int));
            assert forall|k: int| 0 <= k < nodes@.len() implies span_views(nodes@)[k]
                == spans.subrange(idx + 1, spans.len() as int)[k] by {
                assert(nodes@[k] == prev[k + 1]);
                assert(span_views(prev)[k + 1] == prev[k + 1]@);
            }
            assert(span_views(nodes@) =~= spans.subrange(idx + 1, spans.len() as int));
        }
        out.push(HtmlNode::from(n));
    }
    proof {
        lemma_children_views(out@);
        assert(children_views(out@) =~= spans.map_values(|s: TextNodeView| spec_span_node(s)));
    }
    Ok(out)
}

/// A container element with the given tag and children, no attributes.
pub open spec fn spec_container(tag: Seq<char>, cs: Seq<HtmlNodeView>) -> HtmlNodeView {
    HtmlNodeView { tag: Some(tag), value: None, children: cs, props: None }
}

/// The `li` element for one list line's elements.
pub open spec fn spec_li_node(cs: Seq<HtmlNodeView>) -> HtmlNodeView {
    spec_container(seq!['l', 'i'], cs)
}

/// One `li` element per line of an unordered list, each line stripped of
/// its `"- "` marker and tokenized; the first unmatched delimiter in a
/// line is the error.
pub open spec fn spec_ul_items(lines: Seq<Seq<char>>) -> Result<Seq<HtmlNodeView>, Seq<char>>
    decreases lines.len(),
{
    if lines.len() == 0 {
        Ok(Seq::empty())
    } else {
        match spec_children_of(spec_strip_prefix(lines[0], seq!['-', ' '])) {
            Err(e) => Err(e),
            Ok(cs) => match spec_ul_items(lines.subrange(1, lines.len() as int)) {
                Err(e) => Err(e),
                Ok(t) => Ok(seq![spec_li_node(cs)] + t),
            },
        }
    }
}

/// One `li` element per line of an ordered list whose first line is line
/// `i0` of the list, each line stripped of its `"{n}. "` marker.
pub open spec fn spec_ol_items(lines: Seq<Seq<char>>, i0: int) -> Result<
    Seq<HtmlNodeView>,
    Seq<char>,
>
    decreases lines.len(),
{
    if lines.len() == 0 {
        Ok(Seq::empty())
    } else {
        match spec_children_of(spec_strip_prefix(lines[0], spec_ol_prefix(i0))) {
            Err(e) => Err(e),
            Ok(cs) => match spec_ol_items(lines.subrange(1, lines.len() as int), i0 + 1) {
                Err(e) => Err(e),
                Ok(t) => Ok(seq![spec_li_node(cs)] + t),
            },
        }
    }
}

/// Splitting the unordered-list items at position `k`.
pub proof fn lemma_ul_items_decompose(lines: Seq<Seq<char>>, k: int)
    requires
        0 <= k <= lines.len(),
    ensures
        ({
            let pre = spec_ul_items(lines.subrange(0, k));
            let suf = spec_ul_items(lines.subrange(k, lines.len() as int));
            match pre {
                Ok(a) => match suf {
                    Ok(b) => spec_ul_items(lines) == Ok::<Seq<HtmlNodeView>, Seq<char>>(a + b),
                    Err(e) => spec_ul_items(lines) == Err::<Seq<HtmlNodeView>, Seq<char>>(e),
                },
                Err(e) => true,
            }
        }),
    decreases k,
{
    if k == 0 {
        assert(lines.subrange(0, 0) =~= Seq::<Seq<char>>::empty());
        assert(lines.subrange(0, lines.len() as int) =~= lines);
        match spec_ul_items(lines) {
            Ok(b) => {
                assert(Seq::<HtmlNodeView>::empty() + b =~= b);
            },
            Err(e) => {},
        }
    } else {
        let tail = lines.subrange(1, lines.len() as int);
        lemma_ul_items_decompose(tail, k - 1);
        assert(lines.subrange(0, k).subrange(1, k) =~= tail.subrange(0, k - 1));
        assert(lines.subrange(k, lines.len() as int) =~= tail.subrange(k - 1, tail.len() as int));
        assert(lines.subrange(0, k)[0] == lines[0]);
        match spec_children_of(spec_strip_prefix(lines[0], seq!['-', ' '])) {
            Err(e) => {},
            Ok(cs) => {
                match (spec_ul_items(tail.subrange(0, k - 1)), spec_ul_items(
                    tail.subrange(k - 1, tail.len() as int),
                )) {
                    (Ok(a1), Ok(b)) => {
                        assert((seq![spec_li_node(cs)] + a1) + b =~= seq![spec_li_node(cs)] + (a1
                            + b));
                    },
                    _ => {},
                }
            },
        }
    }
}

/// Splitting the ordered-list items at position `k`.
pub proof fn lemma_ol_items_decompose(lines: Seq<Seq<char>>, i0: int, k: int)
    requires
        0 <= k <= lines.len(),
    ensures
        ({
            let pre = spec_ol_items(lines.subrange(0, k), i0);
            let suf = spec_ol_items(lines.subrange(k, lines.len() as int), i0 + k);
            match pre {
                Ok(a) => match suf {
                    Ok(b) => spec_ol_items(lines, i0) == Ok::<Seq<HtmlNodeView>, Seq<char>>(a + b),
                    Err(e) => spec_ol_items(lines, i0) == Err::<Seq<HtmlNodeView>, Seq<char>>(e),
                },
                Err(e) => true,
            }
        }),
    decreases k,
{
    if k == 0 {
        assert(lines.subrange(0, 0) =~= Seq::<Seq<char>>::empty());
        assert(lines.subrange(0, lines.len() as int) =~= lines);
        match spec_ol_items(lines, i0) {
            Ok(b) => {
                assert(Seq::<HtmlNodeView>::empty() + b =~= b);
            },
            Err(e) => {},
        }
    } else {
        let tail = lines.subrange(1, lines.len() as int);
        lemma_ol_items_decompose(tail, i0 + 1, k - 1);
        assert(lines.subrange(0, k).subrange(1, k) =~= tail.subrange(0, k - 1));
        assert(lines.subrange(k, lines.len() as int) =~= tail.subrange(k - 1, tail.len() as int));
        assert(lines.subrange(0, k)[0] == lines[0]);
        match spec_children_of(spec_strip_prefix(lines[0], spec_ol_prefix(i0))) {
            Err(e) => {},
            Ok(cs) => {
                match (spec_ol_items(tail.subrange(0, k - 1), i0 + 1), spec_ol_items(
                    tail.subrange(k - 1, tail.len() as int),
                    i0 + k,
                )) {
                    (Ok(a1), Ok(b)) => {
                        assert((seq![spec_li_node(cs)] + a1) + b =~= seq![spec_li_node(cs)] + (a1
                            + b));
                    },
                    _ => {},
                }
            },
        }
    }
}

/// Builds one `li` element per line of an unordered-list block, each
/// line stripped of its `"- "` marker and tokenized.
pub fn extract_ul_nodes(block: &str) -> (r: Result<Vec<HtmlNode>, NodeError>)
    ensures
        match spec_ul_items(spec_lines(block@)) {
            Ok(items) => r matches Ok(v) && children_views(v@) == items,
            Err(e) => r matches Err(err) && err matches NodeError::ParseError(t) && t@ == e,
        },
{
    proof {
        reveal_strlit("- ");
        reveal_strlit("li");
        assert("- "@ =~= seq!['-', ' ']);
        assert("li"@ =~= seq!['l', 'i']);
    }
    let lines = split_lines(block);
    let ghost lviews = spec_lines(block@);
    let mut out: Vec<HtmlNode> = Vec::new();
    let mut i: usize = 0;
    proof {
        assert(lviews.subrange(0, 0) =~= Seq::<Seq<char>>::empty());
        assert(children_views(out@) =~= Seq::<HtmlNodeView>::empty());
    }
    while i < lines.len()
        invariant
            i <= lines@.len(),
            spec_ul_items(lviews.subrange(0, i as int)) == Ok::<Seq<HtmlNodeView>, Seq<char>>(
                children_views(out@),
            ),
        decreases lines@.len() - i,
    {
        let ghost out_base = children_views(out@);
        let line = lines[i].as_str();
        let stripped: &str = if starts_with_pattern(line, "- ") {
            line.substring_char(2, line.unicode_len())
        } else {
            line
        };
        proof {
            assert(stripped@ == spec_strip_prefix(lviews[i as int], seq!['-', ' ']));
        }
        let children = match text_to_children(stripped) {
            Ok(v) => v,
            Err(e) => {
                proof {
                    lemma_ul_items_decompose(lviews, i as int);
                    assert(lviews.subrange(i as int, lviews.len() as int)[0] == lviews[i as int]);
                }
                return Err(e);
            },
        };
        let ghost cs = children_views(children@);
        let node = HtmlNode::parent_node("li", children, None);
        proof {
            lemma_children_views(children@);
            assert(node@ == node_view(node));
            assert forall|k: int| 0 <= k < cs.len() implies node@.children[k] == cs[k] by {
                assert(node@.children[k] == children@[k]@);
                assert(cs[k] == node_view(children@[k]));
            }
            assert(node@.children =~= cs);
            assert(node_view(node) =~= spec_li_node(cs));
        }
        let ghost out_pre = out@;
        out.push(node);
        proof {
            lemma_children_views_push(out_pre, node);
            assert(out@ == out_pre.push(node));
            let pre1 = lviews.subrange(0, i + 1);
            lemma_ul_items_decompose(pre1, i as int);
            assert(pre1.subrange(0, i as int) =~= lviews.subrange(0, i as int));
            assert(pre1.subrange(i as int, i + 1) =~= seq![lviews[i as int]]);
            assert(seq![lviews[i as int]].subrange(1, 1) =~= Seq::<Seq<char>>::empty());
            assert(spec_ul_items(Seq::<Seq<char>>::empty()) == Ok::<Seq<HtmlNodeView>, Seq<char>>(
                Seq::<HtmlNodeView>::empty(),
            ));
            assert(seq![lviews[i as int]][0] == lviews[i as int]);
            assert(seq![spec_li_node(cs)] + Seq::<HtmlNodeView>::empty() =~= seq![
                spec_li_node(cs),
            ]);
            assert(children_views(out@) =~= out_base + seq![spec_li_node(cs)]);
        }
        i = i + 1;
    }
    proof {
        assert(lviews.subrange(0, lviews.len() as int) =~= lviews);
    }
    Ok(out)
}

/// Builds one `li` element per line of an ordered-list block, line `i`
/// stripped of its `"{i+1}. "` marker and tokenized.
pub fn extract_ol_nodes(block: &str) -> (r: Result<Vec<HtmlNode>, NodeError>)
    ensures
        match spec_ol_items(spec_lines(block@), 0) {
            Ok(items) => r matches Ok(v) && children_views(v@) == items,
            Err(e) => r matches Err(err) && err matches NodeError::ParseError(t) && t@ == e,
        },
{
    proof {
        reveal_strlit("li");
        assert("li"@ =~= seq!['l', 'i']);
    }
    let lines = split_lines(block);
    let ghost lviews = spec_lines(block@);
    let mut out: Vec<HtmlNode> = Vec::new();
    let mut i: usize = 0;
    proof {
        assert(lviews.subrange(0, 0) =~= Seq::<Seq<char>>::empty());
        assert(children_views(out@) =~= Seq::<HtmlNodeView>::empty());
    }
    while i < lines.len()
        invariant
            i <= lines@.len(),
            spec_ol_items(lviews.subrange(0, i as int), 0) == Ok::<Seq<HtmlNodeView>, Seq<char>>(
                children_views(out@),
            ),
        decreases lines@.len() - i,
    {
        let ghost out_base = children_views(out@);
        let line = lines[i].as_str();
        let mut pref = digit_chars(i + 1);
        pref.push('.');
        pref.push(' ');
        proof {
            assert(pref@ =~= spec_ol_prefix(i as int));
        }
        let stripped: &str = if starts_with_chars(line, &pref) {
            line.substring_char(pref.len(), line.unicode_len())
        } else {
            line
        };
        proof {
            assert(stripped@ == spec_strip_prefix(lviews[i as int], spec_ol_prefix(i as int)));
        }
        let children = match text_to_children(stripped) {
            Ok(v) => v,
            Err(e) => {
                proof {
                    lemma_ol_items_decompose(lviews, 0, i as int);
                    assert(lviews.subrange(i as int, lviews.len() as int)[0] == lviews[i as int]);
                }
                return Err(e);
            },
        };
        let ghost cs = children_views(children@);
        let node = HtmlNode::parent_node("li", children, None);
        proof {
            lemma_children_views(children@);
            assert(node@ == node_view(node));
            assert forall|k: int| 0 <= k < cs.len() implies node@.children[k] == cs[k] by {
                assert(node@.children[k] == children@[k]@);
                assert(cs[k] == node_view(children@[k]));
            }
            assert(node@.children =~= cs);
            assert(node_view(node) =~= spec_li_node(cs));
        }
        let ghost out_pre = out@;
        out.push(node);
        proof {
            lemma_children_views_push(out_pre, node);
            assert(out@ == out_pre.push(node));
            let pre1 = lviews.subrange(0, i + 1);
            lemma_ol_items_decompose(pre1, 0, i as int);
            assert(pre1.subrange(0, i as int) =~= lviews.subrange(0, i as int));
            assert(pre1.subrange(i as int, i + 1) =~= seq![lviews[i as int]]);
            assert(seq![lviews[i as int]].subrange(1, 1) =~= Seq::<Seq<char>>::empty());
            assert(spec_ol_items(Seq::<Seq<char>>::empty(), i + 1) == Ok::<
                Seq<HtmlNodeView>,
                Seq<char>,
            >(Seq::<HtmlNodeView>::empty()));
            assert(seq![lviews[i as int]][0] == lviews[i as int]);
            assert(seq![spec_li_node(cs)] + Seq::<HtmlNodeView>::empty() =~= seq![
                spec_li_node(cs),
            ]);
            assert(children_views(out@) =~= out_base + seq![spec_li_node(cs)]);
        }
        i = i + 1;
    }
    proof {
        assert(lviews.subrange(0, lviews.len() as int) =~= lviews);
    }
    Ok(out)
}

/// The heading tag `h1` through `h6`: `'h'` followed by the number of
/// leading `'#'` characters, capped at six.
pub open spec fn spec_heading_tag(b: Seq<char>) -> Seq<char> {
    let h = first_non_hash(b, 0);
    let n: int = if h <= 6 {
        h
    } else {
        6
    };
    seq!['h', digit_char(n as nat)]
}

/// The tag for a heading block: `'h'` followed by the count of leading
/// `'#'` characters, capped at six.
pub fn get_heading_block_tag(block: &str) -> (r: String)
    ensures
        r@ == spec_heading_tag(block@),
{
    let slen = block.unicode_len();
    let mut h: usize = 0;
    while h < slen && block.get_char(h) == '#'
        invariant
            h <= slen,
            first_non_hash(block@, 0) == first_non_hash(block@, h as int),
        decreases slen - h,
    {
        h = h + 1;
    }
    let n: usize = if h > 6 {
        6
    } else {
        h
    };
    let lit: &str = if n == 0 {
        "h0"
    } else if n == 1 {
        "h1"
    } else if n == 2 {
        "h2"
    } else if n == 3 {
        "h3"
    } else if n == 4 {
        "h4"
    } else if n == 5 {
        "h5"
    } else {
        "h6"
    };
    proof {
        reveal_strlit("h0");
        reveal_strlit("h1");
        reveal_strlit("h2");
        reveal_strlit("h3");
        reveal_strlit("h4");
        reveal_strlit("h5");
        reveal_strlit("h6");
        assert(lit@ =~= spec_heading_tag(block@));
    }
    String::from_str(lit)
}

/// The element for one block, by its kind: a `p`, `h1`..`h6` or
/// `blockquote` container over the tokenized content, a `pre` container
/// over one raw `code` leaf, or a `ul` / `ol` container over `li` items.
/// The error is the first unmatched inline delimiter.
pub open spec fn spec_block_node(b: Seq<char>) -> Result<HtmlNodeView, Seq<char>> {
    match spec_blocktype(b) {
        BlockType::Paragraph => match spec_children_of(spec_paragraph_text(b)) {
            Err(e) => Err(e),
            Ok(cs) => Ok(spec_container(seq!['p'], cs)),
        },
        BlockType::Heading => match spec_children_of(spec_heading_content(b)) {
            Err(e) => Err(e),
            Ok(cs) => Ok(spec_container(spec_heading_tag(b), cs)),
        },
        BlockType::Code => Ok(
            spec_container(
                seq!['p', 'r', 'e'],
                seq![
                    HtmlNodeView {
                        tag: Some(seq!['c', 'o', 'd', 'e']),
                        value: Some(spec_code_content(b)),
                        children: Seq::empty(),
                        props: None,
                    },
                ],
            ),
        ),
        BlockType::Quote => match spec_children_of(spec_quote_content(b)) {
            Err(e) => Err(e),
            Ok(cs) => Ok(spec_container(seq!['b', 'l', 'o', 'c', 'k', 'q', 'u', 'o', 't', 'e'], cs)),
        },
        BlockType::UnorderedList => match spec_ul_items(spec_lines(b)) {
            Err(e) => Err(e),
            Ok(items) => Ok(spec_container(seq!['u', 'l'], items)),
        },
        BlockType::OrderedList => match spec_ol_items(spec_lines(b), 0) {
            Err(e) => Err(e),
            Ok(items) => Ok(spec_container(seq!['o', 'l'], items)),
        },
    }
}

/// The elements for a document's blocks, in order; the first block with
/// an unmatched inline delimiter is the error.
pub open spec fn spec_block_nodes(bs: Seq<Seq<char>>) -> Result<Seq<HtmlNodeView>, Seq<char>>
    decreases bs.len(),
{
    if bs.len() == 0 {
        Ok(Seq::empty())
    } else {
        match spec_block_node(bs[0]) {
            Err(e) => Err(e),
            Ok(n) => match spec_block_nodes(bs.subrange(1, bs.len() as int)) {
                Err(e) => Err(e),
                Ok(t) => Ok(seq![n] + t),
            },
        }
    }
}

/// The whole document tree: one element per block, all children of a
/// single `div` container.
pub open spec fn spec_markdown_tree(md: Seq<char>) -> Result<HtmlNodeView, Seq<char>> {
    match spec_block_nodes(spec_blocks(md)) {
        Err(e) => Err(e),
        Ok(ns) => Ok(spec_container(seq!['d', 'i', 'v'], ns)),
    }
}

/// Splitting the block elements at position `k`.
pub proof fn lemma_block_nodes_decompose(bs: Seq<Seq<char>>, k: int)
    requires
        0 <= k <= bs.len(),
    ensures
        ({
            let pre = spec_block_nodes(bs.subrange(0, k));
            let suf = spec_block_nodes(bs.subrange(k, bs.len() as int));
            match pre {
                Ok(a) => match suf {
                    Ok(b) => spec_block_nodes(bs) == Ok::<Seq<HtmlNodeView>, Seq<char>>(a + b),
                    Err(e) => spec_block_nodes(bs) == Err::<Seq<HtmlNodeView>, Seq<char>>(e),
                },
                Err(e) => true,
            }
        }),
    decreases k,
{
    if k == 0 {
        assert(bs.subrange(0, 0) =~= Seq::<Seq<char>>::empty());
        assert(bs.subrange(0, bs.len() as int) =~= bs);
        match spec_block_nodes(bs) {
            Ok(b) => {
                assert(Seq::<HtmlNodeView>::empty() + b =~= b);
            },
            Err(e) => {},
        }
    } else {
        let tail = bs.subrange(1, bs.len() as int);
        lemma_block_nodes_decompose(tail, k - 1);
        assert(bs.subrange(0, k).subrange(1, k) =~= tail.subrange(0, k - 1));
        assert(bs.subrange(k, bs.len() as int) =~= tail.subrange(k - 1, tail.len() as int));
        assert(bs.subrange(0, k)[0] == bs[0]);
        match spec_block_node(bs[0]) {
            Err(e) => {},
            Ok(n) => {
                match (spec_block_nodes(tail.subrange(0, k - 1)), spec_block_nodes(
                    tail.subrange(k - 1, tail.len() as int),
                )) {
                    (Ok(a1), Ok(b)) => {
                        assert((seq![n] + a1) + b =~= seq![n] + (a1 + b));
                    },
                    _ => {},
                }
            },
        }
    }
}

/// Builds the element for one block, by its classified kind.
#[verifier::rlimit(100)]
fn block_to_node(block: &str) -> (r: Result<HtmlNode, NodeError>)
    ensures
        match spec_block_node(block@) {
            Ok(n) => r matches Ok(node) && node@ == n,
            Err(e) => r matches Err(err) && err matches NodeError::ParseError(t) && t@ == e,
        },
{
    proof {
        reveal_strlit("p");
        reveal_strlit("pre");
        reveal_strlit("code");
        reveal_strlit("blockquote");
        reveal_strlit("ul");
        reveal_strlit("ol");
        assert("p"@ =~= seq!['p']);
        assert("pre"@ =~= seq!['p', 'r', 'e']);
        assert("code"@ =~= seq!['c', 'o', 'd', 'e']);
        assert("blockquote"@ =~= seq!['b', 'l', 'o', 'c', 'k', 'q', 'u', 'o', 't', 'e']);
        assert("ul"@ =~= seq!['u', 'l']);
        assert("ol"@ =~= seq!['o', 'l']);
    }
    let bt = block_to_blocktype(block);
    match bt {
        BlockType::Paragraph => {
            let clean = paragraph_text(block);
            match text_to_children(clean.as_str()) {
                Err(e) => Err(e),
                Ok(children) => {
                    let ghost cs = children_views(children@);
                    let n = HtmlNode::parent_node("p", children, None);
                    proof {
                        lemma_children_views(children@);
                        assert forall|k: int| 0 <= k < cs.len() implies n@.children[k] == cs[k] by {
                            assert(n@.children[k] == children@[k]@);
                            assert(cs[k] == node_view(children@[k]));
                        }
                        assert(n@.children =~= cs);
                        assert(n@ =~= spec_container(seq!['p'], cs));
                    }
                    Ok(n)
                },
            }
        },
        BlockType::Heading => {
            let tag = get_heading_block_tag(block);
            let content = extract_heading_content(block);
            match text_to_children(content.as_str()) {
                Err(e) => Err(e),
                Ok(children) => {
                    let ghost cs = children_views(children@);
                    let n = HtmlNode::parent_node(tag.as_str(), children, None);
                    proof {
                        lemma_children_views(children@);
                        assert forall|k: int| 0 <= k < cs.len() implies n@.children[k] == cs[k] by {
                            assert(n@.children[k] == children@[k]@);
                            assert(cs[k] == node_view(children@[k]));
                        }
                        assert(n@.children =~= cs);
                        assert(n@ =~= spec_container(spec_heading_tag(block@), cs));
                    }
                    Ok(n)
                },
            }
        },
        BlockType::Code => {
            let content = extract_code_content(block);
            let code_node = HtmlNode::leaf_node(Some("code"), content.as_str(), None);
            let ghost cv = code_node@;
            let mut kids: Vec<HtmlNode> = Vec::new();
            kids.push(code_node);
            let n = HtmlNode::parent_node("pre", kids, None);
            proof {
                assert(n@.children.len() == 1);
                assert(n@.children[0] == cv);
                assert(n@.children =~= seq![cv]);
                assert(cv =~= (HtmlNodeView {
                    tag: Some(seq!['c', 'o', 'd', 'e']),
                    value: Some(spec_code_content(block@)),
                    children: Seq::empty(),
                    props: None,
                }));
                assert(n@ =~= spec_container(
                    seq!['p', 'r', 'e'],
                    seq![
                        HtmlNodeView {
                            tag: Some(seq!['c', 'o', 'd', 'e']),
                            value: Some(spec_code_content(block@)),
                            children: Seq::empty(),
                            props: None,
                        },
                    ],
                ));
            }
            Ok(n)
        },
        BlockType::Quote => {
            let content = extract_quote_content(block);
            match text_to_children(content.as_str()) {
                Err(e) => Err(e),
                Ok(children) => {
                    let ghost cs = children_views(children@);
                    let n = HtmlNode::parent_node("blockquote", children, None);
                    proof {
                        lemma_children_views(children@);
                        assert forall|k: int| 0 <= k < cs.len() implies n@.children[k] == cs[k] by {
                            assert(n@.children[k] == children@[k]@);
                            assert(cs[k] == node_view(children@[k]));
                        }
                        assert(n@.children =~= cs);
                        assert(n@ =~= spec_container(
                            seq!['b', 'l', 'o', 'c', 'k', 'q', 'u', 'o', 't', 'e'],
                            cs,
                        ));
                    }
                    Ok(n)
                },
            }
        },
        BlockType::UnorderedList => {
            match extract_ul_nodes(block) {
                Err(e) => Err(e),
                Ok(items) => {
                    let ghost cs = children_views(items@);
                    let n = HtmlNode::parent_node("ul", items, None);
                    proof {
                        lemma_children_views(items@);
                        assert forall|k: int| 0 <= k < cs.len() implies n@.children[k] == cs[k] by {
                            assert(n@.children[k] == items@[k]@);
                            assert(cs[k] == node_view(items@[k]));
                        }
                        assert(n@.children =~= cs);
                        assert(n@ =~= spec_container(seq!['u', 'l'], cs));
                    }
                    Ok(n)
                },
            }
        },
        BlockType::OrderedList => {
            match extract_ol_nodes(block) {
                Err(e) => Err(e),
                Ok(items) => {
                    let ghost cs = children_views(items@);
                    let n = HtmlNode::parent_node("ol", items, None);
                    proof {
                        lemma_children_views(items@);
                        assert forall|k: int| 0 <= k < cs.len() implies n@.children[k] == cs[k] by {
                            assert(n@.children[k] == items@[k]@);
                            assert(cs[k] == node_view(items@[k]));
                        }
                        assert(n@.children =~= cs);
                        assert(n@ =~= spec_container(seq!['o', 'l'], cs));
                    }
                    Ok(n)
                },
            }
        },
    }
}

/// Converts a whole document to its element tree: one element per block,
/// under a single `div` root. The error is the first block text holding
/// an unmatched inline delimiter.
pub fn markdown_to_html_node(markdown: &str) -> (r: Result<HtmlNode, NodeError>)
    ensures
        match spec_markdown_tree(markdown@) {
            Ok(n) => r matches Ok(node) && node@ == n,
            Err(e) => r matches Err(err) && err matches NodeError::ParseError(t) && t@ == e,
        },
{
    proof {
        reveal_strlit("div");
        assert("div"@ =~= seq!['d', 'i', 'v']);
    }
    let blocks = markdown_to_blocks(markdown);
    let ghost bviews = spec_blocks(markdown@);
    let mut nodes: Vec<HtmlNode> = Vec::new();
    let mut i: usize = 0;
    proof {
        assert(bviews.subrange(0, 0) =~= Seq::<Seq<char>>::empty());
        assert(children_views(nodes@) =~= Seq::<HtmlNodeView>::empty());
    }
    while i < blocks.len()
        invariant
            i <= blocks@.len(),
            spec_block_nodes(bviews.subrange(0, i as int)) == Ok::<Seq<HtmlNodeView>, Seq<char>>(
                children_views(nodes@),
            ),
        decreases blocks@.len() - i,
    {
        let ghost out_base = children_views(nodes@);
        let block = blocks[i].as_str();
        proof {
            assert(str_views(blocks@)[i as int] == blocks@[i as int]@);
        }
        let node = match block_to_node(block) {
            Err(e) => {
                proof {
                    lemma_block_nodes_decompose(bviews, i as int);
                    assert(bviews.subrange(i as int, bviews.len() as int)[0] == bviews[i as int]);
                }
                return Err(e);
            },
            Ok(n) => n,
        };
        let ghost nodes_pre = nodes@;
        nodes.push(node);
        proof {
            lemma_children_views_push(nodes_pre, node);
            assert(nodes@ == nodes_pre.push(node));
            let pre1 = bviews.subrange(0, i + 1);
            lemma_block_nodes_decompose(pre1, i as int);
            assert(pre1.subrange(0, i as int) =~= bviews.subrange(0, i as int));
            assert(pre1.subrange(i as int, i + 1) =~= seq![bviews[i as int]]);
            assert(seq![bviews[i as int]].subrange(1, 1) =~= Seq::<Seq<char>>::empty());
            assert(spec_block_nodes(Seq::<Seq<char>>::empty()) == Ok::<
                Seq<HtmlNodeView>,
                Seq<char>,
            >(Seq::<HtmlNodeView>::empty()));
            assert(seq![bviews[i as int]][0] == bviews[i as int]);
            assert(seq![node@] + Seq::<HtmlNodeView>::empty() =~= seq![node@]);
            assert(children_views(nodes@) =~= out_base + seq![node@]);
        }
        i = i + 1;
    }
    proof {
        assert(bviews.subrange(0, bviews.len() as int) =~= bviews);
    }
    let ghost ns = children_views(nodes@);
    let ghost nodes_final = nodes@;
    let root = HtmlNode::parent_node("div", nodes, None);
    proof {
        lemma_children_views(nodes_final);
        assert forall|k: int| 0 <= k < ns.len() implies root@.children[k] == ns[k] by {
            assert(root@.children[k] == nodes_final[k]@);
            assert(ns[k] == node_view(nodes_final[k]));
        }
        assert(root@.children =~= ns);
        assert(root@ =~= spec_container(seq!['d', 'i', 'v'], ns));
    }
    Ok(root)
}

/// Extracts the document title from its first block: the block must be a
/// level-1 heading (`'#'` and a space, or `'#'` alone), and the title is
/// its text; any other block is a `ParseError`.
pub fn extract_title(markdown: &str) -> (r: Result<String, NodeError>)
    ensures
        (spec_blocktype(markdown@) == BlockType::Heading && first_non_hash(markdown@, 0) == 1) ==> (
        r matches Ok(t) && t@ == spec_heading_content(markdown@)),
        !(spec_blocktype(markdown@) == BlockType::Heading && first_non_hash(markdown@, 0) == 1)
            ==> (r matches Err(e) && e matches NodeError::ParseError(m) && m@
            == "First block must be an h1 heading"@),
{
    let bt = block_to_blocktype(markdown);
    if bt == BlockType::Heading {
        let slen = markdown.unicode_len();
        let mut h: usize = 0;
        while h < slen && markdown.get_char(h) == '#'
            invariant
                h <= slen,
                first_non_hash(markdown@, 0) == first_non_hash(markdown@, h as int),
            decreases slen - h,
        {
            h = h + 1;
        }
        if h == 1 {
            return Ok(extract_heading_content(markdown));
        }
    }
    Err(NodeError::ParseError(String::from_str("First block must be an h1 heading")))
}

/// The blocks joined with one blank line (two newlines) between each two.
pub open spec fn spec_join_blank(bs: Seq<Seq<char>>) -> Seq<char>
    decreases bs.len(),
{
    if bs.len() == 0 {
        Seq::empty()
    } else if bs.len() == 1 {
        bs[0]
    } else {
        bs[0] + seq!['\n', '\n'] + spec_join_blank(bs.subrange(1, bs.len() as int))
    }
}

/// Segmentation is exact: a document made of blocks that are non-empty,
/// right-trimmed and free of blank lines, joined by blank lines, is
/// segmented back into exactly those blocks, in order.
pub proof fn lemma_segmentation_round_trip(bs: Seq<Seq<char>>)
    requires
        forall|i: int| 0 <= i < bs.len() ==> (#[trigger] bs[i]).len() > 0,
        forall|i: int| 0 <= i < bs.len() ==> spec_trim_end(#[trigger] bs[i]) == bs[i],
        forall|i: int| 0 <= i < bs.len() ==> !spec_contains(#[trigger] bs[i], seq!['\n', '\n']),
    ensures
        spec_blocks(spec_join_blank(bs)) == bs,
    decreases bs.len(),
{
    let nn = seq!['\n', '\n'];
    if bs.len() == 0 {
        assert(spec_find(Seq::<char>::empty(), nn, 0) is None);
        assert(spec_split(Seq::<char>::empty(), nn) == seq![Seq::<char>::empty()]);
        assert(seq![Seq::<char>::empty()].subrange(1, 1) =~= Seq::<Seq<char>>::empty());
        assert(spec_clean_blocks(Seq::<Seq<char>>::empty()) == Seq::<Seq<char>>::empty());
        assert(seq![Seq::<char>::empty()][0].len() == 0);
        assert(spec_blocks(spec_join_blank(bs)) =~= bs);
    } else if bs.len() == 1 {
        let b = bs[0];
        assert(spec_split(b, nn) == seq![b]);
        assert(spec_clean_blocks(Seq::<Seq<char>>::empty()) == Seq::<Seq<char>>::empty());
        assert(seq![b].subrange(1, 1) =~= Seq::<Seq<char>>::empty());
        assert(seq![b][0] == b);
        assert(spec_clean_blocks(seq![b]) == seq![spec_trim_end(b)] + Seq::<Seq<char>>::empty());
        assert(seq![spec_trim_end(b)] + Seq::<Seq<char>>::empty() =~= seq![b]);
        assert(spec_blocks(spec_join_blank(bs)) =~= bs);
    } else {
        let b = bs[0];
        let tail = bs.subrange(1, bs.len() as int);
        let j = spec_join_blank(bs);
        let jt = spec_join_blank(tail);
        lemma_segmentation_round_trip(tail);
        assert(j == b + nn + jt);
        let len0 = b.len() as int;
        // the first blank line in the joined text is the separator itself
        assert(match_at(j, nn, len0)) by {
            assert(j.subrange(len0, len0 + 2) =~= nn);
        }
        assert forall|k: int| 0 <= k < len0 implies !match_at(j, nn, k) by {
            if k + 2 <= len0 {
                assert(!match_at(b, nn, k)) by {
                    lemma_find_none(b, nn, 0, k);
                }
                assert(b.subrange(k, k + 2) =~= j.subrange(k, k + 2));
            } else {
                // a match here would need the block's last character to
                // be a newline, which right-trimming rules out
                assert(k == len0 - 1);
                lemma_trim_end_len(b.drop_last());
                assert(j[k] == b[len0 - 1]);
            }
        }
        lemma_find_exact(j, nn, 0, len0);
        assert(j.subrange(0, len0) =~= b);
        assert(j.subrange(len0 + 2, j.len() as int) =~= jt);
        assert(spec_split(j, nn) == seq![b] + spec_split(jt, nn));
        let parts = spec_split(j, nn);
        assert(parts[0] == b);
        assert(parts.subrange(1, parts.len() as int) =~= spec_split(jt, nn));
        assert(spec_clean_blocks(parts) == seq![spec_trim_end(b)] + spec_clean_blocks(
            spec_split(jt, nn),
        ));
        assert(seq![spec_trim_end(b)] + tail =~= bs);
    }
}

/// A fenced code block round-trips: its element renders to exactly
/// `<pre><code>` + the verbatim content, embedded newlines included,
/// + `</code></pre>`.
pub proof fn lemma_code_block_round_trip(b: Seq<char>)
    requires
        spec_blocktype(b) == BlockType::Code,
    ensures
        ({
            let n = spec_block_node(b)->Ok_0;
            &&& spec_block_node(b) is Ok
            &&& spec_render(n) == Ok::<Seq<char>, ()>(
                seq!['<', 'p', 'r', 'e', '>'] + (seq!['<', 'c', 'o', 'd', 'e', '>']
                    + spec_code_content(b) + seq!['<', '/', 'c', 'o', 'd', 'e', '>']) + seq![
                    '<',
                    '/',
                    'p',
                    'r',
                    'e',
                    '>',
                ],
            )
        }),
{
    let leaf = HtmlNodeView {
        tag: Some(seq!['c', 'o', 'd', 'e']),
        value: Some(spec_code_content(b)),
        children: Seq::empty(),
        props: None,
    };
    let n = spec_block_node(b)->Ok_0;
    assert(spec_render(leaf) == Ok::<Seq<char>, ()>(
        seq!['<'] + seq!['c', 'o', 'd', 'e'] + spec_node_props(leaf.props) + seq!['>']
            + spec_code_content(b) + seq!['<', '/'] + seq!['c', 'o', 'd', 'e'] + seq!['>'],
    ));
    assert(seq![leaf].subrange(1, 1) =~= Seq::<HtmlNodeView>::empty());
    assert(seq![leaf][0] == leaf);
    assert(spec_render_children(seq![leaf]) == Ok::<Seq<char>, ()>(
        spec_render(leaf)->Ok_0 + Seq::<char>::empty(),
    ));
    assert(spec_render(n) == Ok::<Seq<char>, ()>(
        seq!['<'] + seq!['p', 'r', 'e'] + seq!['>'] + spec_render_children(seq![leaf])->Ok_0
            + seq!['<', '/'] + seq!['p', 'r', 'e'] + seq!['>'],
    ));
    assert(spec_render(n)->Ok_0 =~= seq!['<', 'p', 'r', 'e', '>'] + (seq!['<', 'c', 'o', 'd', 'e', '>']
        + spec_code_content(b) + seq!['<', '/', 'c', 'o', 'd', 'e', '>']) + seq![
        '<',
        '/',
        'p',
        'r',
        'e',
        '>',
    ]);
}

/// A run of seven or more leading `'#'` characters is never a heading:
/// such a block falls through the predicate chain.
pub proof fn lemma_long_hash_run_not_heading(b: Seq<char>)
    requires
        first_non_hash(b, 0) > 6,
    ensures
        spec_blocktype(b) != BlockType::Heading,
{
}

/// The paragraph text replaces every newline of the block by a single
/// space and keeps every other character: it has the block's length,
/// a space wherever the block has a newline, and the block's character
/// everywhere else.
pub proof fn lemma_paragraph_replaces_newlines(b: Seq<char>)
    ensures
        spec_paragraph_text(b).len() == b.len(),
        forall|i: int|
            0 <= i < b.len() ==> spec_paragraph_text(b)[i] == (if b[i] == '\n' {
                ' '
            } else {
                b[i]
            }),
    decreases b.len(),
{
    let nl = seq!['\n'];
    match spec_find(b, nl, 0) {
        None => {
            assert(spec_split(b, nl) == seq![b]);
            assert(seq![b][0] == b);
            assert(spec_join_space(seq![b]) == b);
            assert forall|i: int| 0 <= i < b.len() implies b[i] != '\n' by {
                lemma_find_none(b, nl, 0, i);
                if b[i] == '\n' {
                    assert(b.subrange(i, i + 1) =~= nl);
                }
            }
        },
        Some(i) => {
            lemma_find_some(b, nl, 0);
            assert(b.subrange(i, i + 1) =~= seq![b[i]]);
            assert(seq![b[i]][0] == b[i]);
            assert(b[i] == '\n');
            let pre = b.subrange(0, i);
            let rest = b.subrange(i + 1, b.len() as int);
            assert(spec_split(b, nl) == seq![pre] + spec_split(rest, nl));
            lemma_paragraph_replaces_newlines(rest);
            let parts = seq![pre] + spec_split(rest, nl);
            assert(spec_split(rest, nl).len() >= 1);
            assert(parts[0] == pre);
            assert(parts.subrange(1, parts.len() as int) =~= spec_split(rest, nl));
            assert(spec_join_space(parts) == pre + seq![' '] + spec_join_space(
                spec_split(rest, nl),
            ));
            assert forall|k: int| 0 <= k < i implies b[k] != '\n' by {
                lemma_find_min(b, nl, 0, k);
                if b[k] == '\n' {
                    assert(b.subrange(k, k + 1) =~= nl);
                }
            }
            assert forall|k: int| 0 <= k < b.len() implies spec_paragraph_text(b)[k] == (if b[k]
                == '\n' {
                ' '
            } else {
                b[k]
            }) by {
                if k < i {
                    assert(spec_paragraph_text(b)[k] == pre[k]);
                    assert(pre[k] == b[k]);
                    assert(b[k] != '\n');
                } else if k == i {
                    assert(spec_paragraph_text(b)[k] == ' ');
                } else {
                    assert(spec_paragraph_text(b)[k] == spec_paragraph_text(rest)[k - i - 1]);
                    assert(rest[k - i - 1] == b[k]);
                }
            }
        },
    }
}

} // verus!
