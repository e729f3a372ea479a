//! Renderings of article HTML: the plain text indexed for full-text search
//! and the Markdown used for export.
//!
//! The tag grammars are the reader's own (they were regular expressions):
//! script and style elements (matched case-insensitively, up to the first
//! closing tag), block-level tags, and any tag.
use vstd::prelude::*;

use crate::text::{
    append_chars, chars_of, find_char, first_index_of, is_white, is_whitespace_char,
    lemma_first_index_of_facts, lemma_trimmed_range, replace_chars, replaced, string_of, trim_chars,
    trimmed,
};

verus! {

/// Case-insensitive match of one character against a pattern character
/// given in lower case, under Unicode simple case folding: an ASCII letter
/// also matches its upper case, `s` also matches U+017F (long s) and `k`
/// also matches U+212A (Kelvin sign); any other character matches itself.
pub open spec fn folds_to(c: char, p: char) -> bool {
    ||| c == p
    ||| ('a' <= p && p <= 'z' && (c as u32) == (p as u32) - 32)
    ||| (p == 's' && c == '\u{17f}')
    ||| (p == 'k' && c == '\u{212a}')
}

/// `s` begins with `p`, case-insensitively.
pub open spec fn ci_prefix(s: Seq<char>, p: Seq<char>) -> bool {
    p.len() <= s.len() && forall|i: int| 0 <= i < p.len() ==> folds_to(#[trigger] s[i], p[i])
}

/// First position where `p` occurs in `s`, case-insensitively.
pub open spec fn first_ci_index(s: Seq<char>, p: Seq<char>) -> Option<int>
    decreases s.len(),
{
    if ci_prefix(s, p) {
        Some(0)
    } else if s.len() == 0 {
        None
    } else {
        match first_ci_index(s.skip(1), p) {
            Some(i) => Some(i + 1),
            None => None,
        }
    }
}

pub open spec fn lit_script() -> Seq<char> {
    seq!['s', 'c', 'r', 'i', 'p', 't']
}

pub open spec fn lit_script_close() -> Seq<char> {
    seq!['<', '/', 's', 'c', 'r', 'i', 'p', 't', '>']
}

pub open spec fn lit_style() -> Seq<char> {
    seq!['s', 't', 'y', 'l', 'e']
}

pub open spec fn lit_style_close() -> Seq<char> {
    seq!['<', '/', 's', 't', 'y', 'l', 'e', '>']
}

/// Where an element `<name ...> ... </name>` that starts `s` ends: after
/// the first `>` following `<name`, up to the first closing tag.
pub open spec fn element_end(s: Seq<char>, name: Seq<char>, close: Seq<char>) -> Option<int> {
    if s.len() > 0 && s[0] == '<' && ci_prefix(s.skip(1), name) {
        match first_index_of(s.skip(1 + name.len() as int), '>') {
            Some(g) => {
                let b: int = 1 + name.len() + g + 1;
                match first_ci_index(s.skip(b), close) {
                    Some(c) => Some(b + c + close.len()),
                    None => None,
                }
            },
            None => None,
        }
    } else {
        None
    }
}

/// The names of block-level tags: `p`, `div`, `br`, `h1`..`h6`, `li`, `tr`,
/// `blockquote` (a name only has to begin the tag: `<pre>` counts as `p`).
pub open spec fn block_name_at(t: Seq<char>) -> bool {
    ||| ci_prefix(t, seq!['p'])
    ||| ci_prefix(t, seq!['d', 'i', 'v'])
    ||| ci_prefix(t, seq!['b', 'r'])
    ||| (t.len() >= 2 && folds_to(t[0], 'h') && '1' <= t[1] && t[1] <= '6')
    ||| ci_prefix(t, seq!['l', 'i'])
    ||| ci_prefix(t, seq!['t', 'r'])
    ||| ci_prefix(t, seq!['b', 'l', 'o', 'c', 'k', 'q', 'u', 'o', 't', 'e'])
}

/// Where an opening or closing block-level tag that starts `s` ends.
pub open spec fn block_tag_end(s: Seq<char>) -> Option<int> {
    if s.len() > 0 && s[0] == '<' {
        let j: int = if s.len() > 1 && s[1] == '/' {
            2
        } else {
            1
        };
        if block_name_at(s.skip(j)) {
            match first_index_of(s.skip(j), '>') {
                Some(g) => Some(j + g + 1),
                None => None,
            }
        } else {
            None
        }
    } else {
        None
    }
}

/// Where a tag `<...>` with at least one character inside that starts `s` ends.
pub open spec fn any_tag_end(s: Seq<char>) -> Option<int> {
    if s.len() > 0 && s[0] == '<' {
        match first_index_of(s.skip(1), '>') {
            Some(g) => if g >= 1 {
                Some(g + 2)
            } else {
                None
            },
            None => None,
        }
    } else {
        None
    }
}

/// The tag grammars that the renderings rewrite.
#[derive(Clone, Copy)]
pub enum TagPattern {
    ScriptElement,
    StyleElement,
    BlockTag,
    AnyTag,
}

pub open spec fn pattern_end(p: TagPattern, s: Seq<char>) -> Option<int> {
    match p {
        TagPattern::ScriptElement => element_end(s, lit_script(), lit_script_close()),
        TagPattern::StyleElement => element_end(s, lit_style(), lit_style_close()),
        TagPattern::BlockTag => block_tag_end(s),
        TagPattern::AnyTag => any_tag_end(s),
    }
}

/// Every match of `p`, leftmost first and without overlap, replaced by `rep`.
pub open spec fn pattern_replaced(s: Seq<char>, p: TagPattern, rep: Seq<char>) -> Seq<char>
    decreases s.len(),
{
    if s.len() == 0 {
        s
    } else {
        match pattern_end(p, s) {
            Some(e) => if 0 < e <= s.len() {
                rep + pattern_replaced(s.skip(e), p, rep)
            } else {
                s
            },
            None => seq![s[0]] + pattern_replaced(s.skip(1), p, rep),
        }
    }
}

fn folds(c: char, p: char) -> (b: bool)
    ensures
        b == folds_to(c, p),
{
    c == p || ('a' <= p && p <= 'z' && (c as u32) == (p as u32) - 32) || (p == 's' && c
        == '\u{17f}') || (p == 'k' && c == '\u{212a}')
}

fn ci_prefix_at(s: &Vec<char>, at: usize, p: &Vec<char>) -> (b: bool)
    requires
        at <= s@.len(),
    ensures
        b == ci_prefix(s@.skip(at as int), p@),
{
    if p.len() > s.len() - at {
        return false;
    }
    let mut i: usize = 0;
    while i < p.len()
        invariant
            at + p.len() <= s.len(),
            i <= p.len(),
            forall|j: int| 0 <= j < i ==> folds_to(#[trigger] s@.skip(at as int)[j], p@[j]),
        decreases p@.len() - i,
    {
        if !folds(s[at + i], p[i]) {
            assert(!folds_to(s@.skip(at as int)[i as int], p@[i as int]));
            return false;
        }
        i = i + 1;
    }
    true
}

proof fn lemma_first_ci_index(t: Seq<char>, p: Seq<char>, i: int)
    requires
        0 <= i <= t.len(),
        forall|j: int| 0 <= j < i ==> !ci_prefix(#[trigger] t.skip(j), p),
    ensures
        ci_prefix(t.skip(i), p) ==> first_ci_index(t, p) == Some(i),
        i == t.len() && !ci_prefix(t.skip(i), p) ==> first_ci_index(t, p) is None,
    decreases i,
{
    if i == 0 {
        assert(t.skip(0) =~= t);
    } else {
        assert(t.skip(0) =~= t);
        assert(!ci_prefix(t.skip(0), p));
        assert forall|j: int| 0 <= j < i - 1 implies !ci_prefix(#[trigger] t.skip(1).skip(j), p) by {
            assert(t.skip(1).skip(j) =~= t.skip(j + 1));
        }
        assert(t.skip(1).skip(i - 1) =~= t.skip(i));
        lemma_first_ci_index(t.skip(1), p, i - 1);
    }
}

fn first_ci_from(s: &Vec<char>, from: usize, p: &Vec<char>) -> (r: Option<usize>)
    requires
        from <= s@.len(),
        p@.len() > 0,
    ensures
        match r {
            Some(k) => from <= k && k + p@.len() <= s@.len() && first_ci_index(
                s@.skip(from as int),
                p@,
            ) == Some(k - from),
            None => first_ci_index(s@.skip(from as int), p@) is None,
        },
{
    let ghost t = s@.skip(from as int);
    let mut i: usize = from;
    while i < s.len()
        invariant
            from <= i <= s@.len(),
            t == s@.skip(from as int),
            p@.len() > 0,
            forall|j: int| 0 <= j < i - from ==> !ci_prefix(#[trigger] t.skip(j), p@),
        decreases s.len() - i,
    {
        assert(t.skip(i - from) =~= s@.skip(i as int));
        if ci_prefix_at(s, i, p) {
            proof {
                lemma_first_ci_index(t, p@, i - from);
            }
            return Some(i);
        }
        i = i + 1;
    }
    assert(t.skip(i - from) =~= s@.skip(i as int));
    proof {
        lemma_first_ci_index(t, p@, i - from);
    }
    None
}

fn block_name_at_exec(s: &Vec<char>, at: usize) -> (b: bool)
    requires
        at <= s.len(),
    ensures
        b == block_name_at(s@.skip(at as int)),
{
    let ghost t = s@.skip(at as int);
    let h_digit = s.len() - at >= 2 && folds(s[at], 'h') && '1' <= s[at + 1] && s[at + 1] <= '6';
    ci_prefix_at(s, at, &vec!['p']) || ci_prefix_at(s, at, &vec!['d', 'i', 'v']) || ci_prefix_at(
        s,
        at,
        &vec!['b', 'r'],
    ) || h_digit || ci_prefix_at(s, at, &vec!['l', 'i']) || ci_prefix_at(s, at, &vec!['t', 'r'])
        || ci_prefix_at(s, at, &vec!['b', 'l', 'o', 'c', 'k', 'q', 'u', 'o', 't', 'e'])
}

fn pattern_end_at(pat: TagPattern, s: &Vec<char>, at: usize) -> (r: Option<usize>)
    requires
        at < s.len(),
    ensures
        match r {
            Some(e) => at < e <= s@.len() && pattern_end(pat, s@.skip(at as int)) == Some(
                e - at,
            ),
            None => pattern_end(pat, s@.skip(at as int)) is None,
        },
{
    let ghost t = s@.skip(at as int);
    if s[at] != '<' {
        return None;
    }
    match pat {
        TagPattern::ScriptElement | TagPattern::StyleElement => {
            let (name, close) = match pat {
                TagPattern::ScriptElement => (
                    vec!['s', 'c', 'r', 'i', 'p', 't'],
                    vec!['<', '/', 's', 'c', 'r', 'i', 'p', 't', '>'],
                ),
                _ => (vec!['s', 't', 'y', 'l', 'e'], vec!['<', '/', 's', 't', 'y', 'l', 'e', '>']),
            };
            assert(t.skip(1) =~= s@.skip(at + 1));
            if !ci_prefix_at(s, at + 1, &name) {
                return None;
            }
            let body = at + 1 + name.len();
            assert(t.skip(1 + name@.len() as int) =~= s@.skip(body as int));
            match find_char(s, body, '>') {
                None => None,
                Some(g) => {
                    assert(t.skip(g - at + 1) =~= s@.skip(g + 1));
                    match first_ci_from(s, g + 1, &close) {
                        None => None,
                        Some(c) => Some(c + close.len()),
                    }
                },
            }
        },
        TagPattern::BlockTag => {
            let j: usize = if at + 1 < s.len() && s[at + 1] == '/' {
                2
            } else {
                1
            };
            assert(t.skip(j as int) =~= s@.skip(at + j));
            if !block_name_at_exec(s, at + j) {
                return None;
            }
            match find_char(s, at + j, '>') {
                None => None,
                Some(g) => Some(g + 1),
            }
        },
        TagPattern::AnyTag => {
            assert(t.skip(1) =~= s@.skip(at + 1));
            match find_char(s, at + 1, '>') {
                None => None,
                Some(g) => if g >= at + 2 {
                    Some(g + 1)
                } else {
                    None
                },
            }
        },
    }
}

/// Every match of `pat`, leftmost first and without overlap, replaced by `rep`.
pub fn replace_pattern(s: &Vec<char>, pat: TagPattern, rep: &Vec<char>) -> (r: Vec<char>)
    ensures
        r@ == pattern_replaced(s@, pat, rep@),
{
    let mut out: Vec<char> = Vec::new();
    let mut i: usize = 0;
    assert(s@.skip(0) =~= s@);
    assert(out@ + pattern_replaced(s@, pat, rep@) =~= pattern_replaced(s@, pat, rep@));
    while i < s.len()
        invariant
            i <= s@.len(),
            out@ + pattern_replaced(s@.skip(i as int), pat, rep@) == pattern_replaced(
                s@,
                pat,
                rep@,
            ),
        decreases s.len() - i,
    {
        let ghost rest = s@.skip(i as int);
        let ghost old_out = out@;
        match pattern_end_at(pat, s, i) {
            Some(e) => {
                append_chars(&mut out, rep);
                assert(rest.skip(e - i) =~= s@.skip(e as int));
                assert(old_out + pattern_replaced(rest, pat, rep@) =~= out@ + pattern_replaced(
                    s@.skip(e as int),
                    pat,
                    rep@,
                ));
                i = e;
            },
            None => {
                out.push(s[i]);
                assert(rest.skip(1) =~= s@.skip(i + 1));
                assert(old_out + pattern_replaced(rest, pat, rep@) =~= out@ + pattern_replaced(
                    s@.skip(i + 1),
                    pat,
                    rep@,
                ));
                i = i + 1;
            },
        }
    }
    assert(out@ + pattern_replaced(s@.skip(i as int), pat, rep@) =~= out@);
    out
}

/// `s` after `s = s.replace(from, to)` for each pair in turn.
pub open spec fn pairs_replaced(s: Seq<char>, pairs: Seq<(Seq<char>, Seq<char>)>) -> Seq<char>
    decreases pairs.len(),
{
    if pairs.len() == 0 {
        s
    } else {
        let last = pairs[pairs.len() - 1];
        replaced(pairs_replaced(s, pairs.subrange(0, pairs.len() - 1)), last.0, last.1)
    }
}

pub open spec fn str_pair_views(v: Seq<(&str, &str)>) -> Seq<(Seq<char>, Seq<char>)> {
    v.map_values(|p: (&str, &str)| (p.0@, p.1@))
}

/// The common HTML entities and what they stand for.
pub open spec fn entity_pairs() -> Seq<(Seq<char>, Seq<char>)> {
    seq![
        ("&nbsp;"@, " "@),
        ("&amp;"@, "&"@),
        ("&lt;"@, "<"@),
        ("&gt;"@, ">"@),
        ("&quot;"@, "\""@),
        ("&#39;"@, "'"@),
        ("&mdash;"@, "\u{2014}"@),
        ("&ndash;"@, "\u{2013}"@),
    ]
}

fn entity_table() -> (v: Vec<(&'static str, &'static str)>)
    ensures
        str_pair_views(v@) == entity_pairs(),
{
    let v = vec![
        ("&nbsp;", " "),
        ("&amp;", "&"),
        ("&lt;", "<"),
        ("&gt;", ">"),
        ("&quot;", "\""),
        ("&#39;", "'"),
        ("&mdash;", "\u{2014}"),
        ("&ndash;", "\u{2013}"),
    ];
    assert(str_pair_views(v@) =~= entity_pairs());
    v
}

/// `s.replace(from, to)`.
fn replace_text(s: &Vec<char>, from: &str, to: &str) -> (r: Vec<char>)
    ensures
        r@ == replaced(s@, from@, to@),
{
    let f = chars_of(from);
    if f.len() == 0 {
        let mut out: Vec<char> = Vec::new();
        append_chars(&mut out, s);
        assert(out@ =~= s@);
        out
    } else {
        let t = chars_of(to);
        replace_chars(s, &f, &t)
    }
}

/// `s` after `s = s.replace(from, to)` for each pair in turn.
fn replace_pairs(s: &Vec<char>, pairs: &Vec<(&str, &str)>) -> (r: Vec<char>)
    ensures
        r@ == pairs_replaced(s@, str_pair_views(pairs@)),
{
    let ghost pv = str_pair_views(pairs@);
    let mut out: Vec<char> = Vec::new();
    append_chars(&mut out, s);
    assert(out@ =~= s@);
    assert(pv.subrange(0, 0) =~= Seq::<(Seq<char>, Seq<char>)>::empty());
    let mut i: usize = 0;
    while i < pairs.len()
        invariant
            i <= pairs@.len(),
            pv == str_pair_views(pairs@),
            out@ == pairs_replaced(s@, pv.subrange(0, i as int)),
        decreases pairs@.len() - i,
    {
        let (from, to) = pairs[i];
        out = replace_text(&out, from, to);
        assert(pv.subrange(0, i + 1).subrange(0, i as int) =~= pv.subrange(0, i as int));
        i = i + 1;
    }
    assert(pv.subrange(0, pairs@.len() as int) =~= pv);
    out
}

/// Runs of white space collapsed to a single space (`\s+` replaced by " ").
pub open spec fn white_collapsed(s: Seq<char>) -> Seq<char>
    decreases s.len(),
{
    if s.len() == 0 {
        s
    } else if is_white(s[0]) {
        if s.len() > 1 && is_white(s[1]) {
            white_collapsed(s.skip(1))
        } else {
            seq![' '] + white_collapsed(s.skip(1))
        }
    } else {
        seq![s[0]] + white_collapsed(s.skip(1))
    }
}

fn collapse_white(s: &Vec<char>) -> (r: Vec<char>)
    ensures
        r@ == white_collapsed(s@),
{
    let mut out: Vec<char> = Vec::new();
    let mut i: usize = 0;
    assert(s@.skip(0) =~= s@);
    assert(out@ + white_collapsed(s@) =~= white_collapsed(s@));
    while i < s.len()
        invariant
            i <= s@.len(),
            out@ + white_collapsed(s@.skip(i as int)) == white_collapsed(s@),
        decreases s.len() - i,
    {
        let ghost rest = s@.skip(i as int);
        let ghost old_out = out@;
        assert(rest.skip(1) =~= s@.skip(i + 1));
        if is_whitespace_char(s[i]) {
            if i + 1 < s.len() && is_whitespace_char(s[i + 1]) {
            } else {
                out.push(' ');
            }
        } else {
            out.push(s[i]);
        }
        assert(old_out + white_collapsed(rest) =~= out@ + white_collapsed(s@.skip(i + 1)));
        i = i + 1;
    }
    assert(out@ + white_collapsed(s@.skip(i as int)) =~= out@);
    out
}

/// The plain text of an article's HTML, as indexed for full-text search:
/// script and style elements dropped, block-level tags turned into line
/// breaks, other tags dropped, common entities decoded, white space
/// collapsed to single spaces and trimmed.
pub open spec fn plain_text(html: Seq<char>) -> Seq<char> {
    let a = pattern_replaced(html, TagPattern::ScriptElement, Seq::empty());
    let b = pattern_replaced(a, TagPattern::StyleElement, Seq::empty());
    let c = pattern_replaced(b, TagPattern::BlockTag, seq!['\n']);
    let d = pattern_replaced(c, TagPattern::AnyTag, Seq::empty());
    trimmed(white_collapsed(pairs_replaced(d, entity_pairs())))
}

/// Strip HTML tags and convert to plain text for FTS indexing
pub fn html_to_plain_text(html: &str) -> (r: String)
    ensures
        r@ == plain_text(html@),
{
    let empty: Vec<char> = Vec::new();
    let newline = vec!['\n'];
    let hv = chars_of(html);
    assert(empty@ =~= Seq::<char>::empty());
    assert(newline@ =~= seq!['\n']);
    let a = replace_pattern(&hv, TagPattern::ScriptElement, &empty);
    let b = replace_pattern(&a, TagPattern::StyleElement, &empty);
    let c = replace_pattern(&b, TagPattern::BlockTag, &newline);
    let d = replace_pattern(&c, TagPattern::AnyTag, &empty);
    let table = entity_table();
    let e = replace_pairs(&d, &table);
    let f = collapse_white(&e);
    let g = trim_chars(&f);
    assert(empty@ =~= Seq::<char>::empty());
    string_of(&g)
}

/// The HTML tags that the Markdown rendering turns into Markdown, and into what.
pub open spec fn markdown_tag_pairs() -> Seq<(Seq<char>, Seq<char>)> {
    seq![
        ("<h1>"@, "\n# "@),
        ("</h1>"@, "\n"@),
        ("<h2>"@, "\n## "@),
        ("</h2>"@, "\n"@),
        ("<h3>"@, "\n### "@),
        ("</h3>"@, "\n"@),
        ("<h4>"@, "\n#### "@),
        ("</h4>"@, "\n"@),
        ("<p>"@, "\n"@),
        ("</p>"@, "\n"@),
        ("<br>"@, "\n"@),
        ("<br/>"@, "\n"@),
        ("<br />"@, "\n"@),
        ("<strong>"@, "**"@),
        ("</strong>"@, "**"@),
        ("<b>"@, "**"@),
        ("</b>"@, "**"@),
        ("<em>"@, "*"@),
        ("</em>"@, "*"@),
        ("<i>"@, "*"@),
        ("</i>"@, "*"@),
        ("<ul>"@, "\n"@),
        ("</ul>"@, "\n"@),
        ("<ol>"@, "\n"@),
        ("</ol>"@, "\n"@),
        ("<li>"@, "- "@),
        ("</li>"@, "\n"@),
        ("<blockquote>"@, "\n> "@),
        ("</blockquote>"@, "\n"@),
        ("<code>"@, "`"@),
        ("</code>"@, "`"@),
        ("<pre>"@, "\n```\n"@),
        ("</pre>"@, "\n```\n"@),
        ("<hr>"@, "\n---\n"@),
        ("<hr/>"@, "\n---\n"@),
        ("<hr />"@, "\n---\n"@),
    ]
}

fn markdown_tag_table() -> (v: Vec<(&'static str, &'static str)>)
    ensures
        str_pair_views(v@) == markdown_tag_pairs(),
{
    let v = vec![
        ("<h1>", "\n# "),
        ("</h1>", "\n"),
        ("<h2>", "\n## "),
        ("</h2>", "\n"),
        ("<h3>", "\n### "),
        ("</h3>", "\n"),
        ("<h4>", "\n#### "),
        ("</h4>", "\n"),
        ("<p>", "\n"),
        ("</p>", "\n"),
        ("<br>", "\n"),
        ("<br/>", "\n"),
        ("<br />", "\n"),
        ("<strong>", "**"),
        ("</strong>", "**"),
        ("<b>", "**"),
        ("</b>", "**"),
        ("<em>", "*"),
        ("</em>", "*"),
        ("<i>", "*"),
        ("</i>", "*"),
        ("<ul>", "\n"),
        ("</ul>", "\n"),
        ("<ol>", "\n"),
        ("</ol>", "\n"),
        ("<li>", "- "),
        ("</li>", "\n"),
        ("<blockquote>", "\n> "),
        ("</blockquote>", "\n"),
        ("<code>", "`"),
        ("</code>", "`"),
        ("<pre>", "\n```\n"),
        ("</pre>", "\n```\n"),
        ("<hr>", "\n---\n"),
        ("<hr/>", "\n---\n"),
        ("<hr />", "\n---\n"),
    ];
    assert(str_pair_views(v@) =~= markdown_tag_pairs());
    v
}

/// The lines of `s` (as `str::lines` gives them: split at `'\n'`, no empty
/// line after a final line break), each trimmed, joined with `'\n'`.
pub open spec fn lines_trimmed(s: Seq<char>) -> Seq<char>
    decreases s.len(),
{
    match first_index_of(s, '\n') {
        Some(i) => if 0 <= i < s.len() - 1 {
            trimmed(s.take(i)) + seq!['\n'] + lines_trimmed(s.skip(i + 1))
        } else {
            trimmed(s.take(i))
        },
        None => trimmed(s),
    }
}

fn trim_lines(s: &Vec<char>) -> (r: Vec<char>)
    ensures
        r@ == lines_trimmed(s@),
{
    let mut out: Vec<char> = Vec::new();
    let mut pos: usize = 0;
    assert(s@.skip(0) =~= s@);
    assert(out@ + lines_trimmed(s@) =~= lines_trimmed(s@));
    loop
        invariant
            pos <= s@.len(),
            out@ + lines_trimmed(s@.skip(pos as int)) == lines_trimmed(s@),
        decreases s@.len() - pos,
    {
        let ghost rest = s@.skip(pos as int);
        let ghost old_out = out@;
        match find_char(s, pos, '\n') {
            None => {
                let piece = crate::text::sub_chars(s, pos, s.len());
                assert(piece@ =~= rest);
                let t = trim_chars(&piece);
                append_chars(&mut out, &t);
                return out;
            },
            Some(k) => {
                let piece = crate::text::sub_chars(s, pos, k);
                assert(piece@ =~= rest.take(k - pos));
                let t = trim_chars(&piece);
                append_chars(&mut out, &t);
                if k + 1 == s.len() {
                    return out;
                }
                out.push('\n');
                assert(rest.skip(k - pos + 1) =~= s@.skip(k + 1));
                assert(old_out + lines_trimmed(rest) =~= out@ + lines_trimmed(s@.skip(k + 1)));
                pos = k + 1;
            },
        }
    }
}

/// The Markdown rendering of article HTML used for export: headings,
/// paragraphs, line breaks, emphasis, lists, quotes, code and rules turned
/// into Markdown, other tags dropped, common entities decoded, and every
/// line trimmed.
pub open spec fn markdown_text(html: Seq<char>) -> Seq<char> {
    let a = pairs_replaced(html, markdown_tag_pairs());
    let b = pattern_replaced(a, TagPattern::AnyTag, Seq::empty());
    lines_trimmed(pairs_replaced(b, entity_pairs()))
}

/// Simple HTML to Markdown conversion
pub fn html_to_markdown(html: &str) -> (r: String)
    ensures
        r@ == markdown_text(html@),
{
    let empty: Vec<char> = Vec::new();
    assert(empty@ =~= Seq::<char>::empty());
    let hv = chars_of(html);
    let tags = markdown_tag_table();
    let a = replace_pairs(&hv, &tags);
    let b = replace_pattern(&a, TagPattern::AnyTag, &empty);
    let entities = entity_table();
    let c = replace_pairs(&b, &entities);
    let d = trim_lines(&c);
    string_of(&d)
}

/// No two white-space characters follow each other.
pub open spec fn no_double_white(t: Seq<char>) -> bool {
    forall|i: int| 0 <= i < t.len() - 1 ==> !(is_white(#[trigger] t[i]) && is_white(t[i + 1]))
}

proof fn lemma_white_collapsed(s: Seq<char>)
    ensures
        no_double_white(white_collapsed(s)),
        white_collapsed(s).len() > 0 ==> (is_white(white_collapsed(s)[0]) <==> is_white(s[0])),
        white_collapsed(s).len() > 0 ==> s.len() > 0,
    decreases s.len(),
{
    if s.len() > 0 {
        lemma_white_collapsed(s.skip(1));
        let r = white_collapsed(s.skip(1));
        let w = white_collapsed(s);
        if is_white(s[0]) {
            if s.len() > 1 && is_white(s[1]) {
                assert(s.skip(1)[0] == s[1]);
            } else {
                if r.len() > 0 {
                    assert(s.skip(1)[0] == s[1]);
                }
                assert forall|i: int| 0 <= i < w.len() - 1 implies !(is_white(#[trigger] w[i])
                    && is_white(w[i + 1])) by {
                    if i > 0 {
                        assert(w[i] == r[i - 1]);
                        assert(w[i + 1] == r[i]);
                    } else {
                        assert(w[1] == r[0]);
                    }
                }
            }
        } else {
            assert forall|i: int| 0 <= i < w.len() - 1 implies !(is_white(#[trigger] w[i])
                && is_white(w[i + 1])) by {
                if i > 0 {
                    assert(w[i] == r[i - 1]);
                    assert(w[i + 1] == r[i]);
                }
            }
        }
    }
}

/// The plain text never holds two white-space characters in a row, and
/// neither begins nor ends with white space.
pub proof fn law_plain_text_spacing(html: Seq<char>)
    ensures
        no_double_white(plain_text(html)),
        plain_text(html).len() > 0 ==> !is_white(plain_text(html)[0]) && !is_white(
            plain_text(html).last(),
        ),
{
    let a = pattern_replaced(html, TagPattern::ScriptElement, Seq::empty());
    let b = pattern_replaced(a, TagPattern::StyleElement, Seq::empty());
    let c = pattern_replaced(b, TagPattern::BlockTag, seq!['\n']);
    let d = pattern_replaced(c, TagPattern::AnyTag, Seq::empty());
    let w = white_collapsed(pairs_replaced(d, entity_pairs()));
    lemma_white_collapsed(pairs_replaced(d, entity_pairs()));
    lemma_trimmed_range(w);
    let (x, y) = choose|x: int, y: int| 0 <= x <= y <= w.len() && trimmed(w) == #[trigger] w.subrange(x, y);
    let t = trimmed(w);
    assert forall|i: int| 0 <= i < t.len() - 1 implies !(is_white(#[trigger] t[i]) && is_white(
        t[i + 1],
    )) by {
        assert(t[i] == w[x + i]);
        assert(t[i + 1] == w[x + i + 1]);
    }
}

/// No line begins or ends with white space: every white-space character
/// other than a line break has a character of its own line on each side.
pub open spec fn lines_unpadded(t: Seq<char>) -> bool {
    forall|i: int|
        0 <= i < t.len() && is_white(#[trigger] t[i]) && t[i] != '\n' ==> 0 < i && t[i - 1] != '\n'
            && i + 1 < t.len() && t[i + 1] != '\n'
}

proof fn lemma_trimmed_line(piece: Seq<char>)
    requires
        forall|j: int| 0 <= j < piece.len() ==> #[trigger] piece[j] != '\n',
    ensures
        lines_unpadded(trimmed(piece)),
        forall|j: int| 0 <= j < trimmed(piece).len() ==> #[trigger] trimmed(piece)[j] != '\n',
        trimmed(piece).len() > 0 ==> !is_white(trimmed(piece)[0]) && !is_white(trimmed(piece).last()),
{
    lemma_trimmed_range(piece);
    let (x, y) = choose|x: int, y: int| 0 <= x <= y <= piece.len() && trimmed(piece) == #[trigger] piece.subrange(x, y);
    let t = trimmed(piece);
    assert forall|j: int| 0 <= j < t.len() implies #[trigger] t[j] != '\n' by {
        assert(t[j] == piece[x + j]);
    }
}

proof fn lemma_lines_trimmed(s: Seq<char>)
    ensures
        lines_unpadded(lines_trimmed(s)),
    decreases s.len(),
{
    lemma_first_index_of_facts(s, '\n');
    match first_index_of(s, '\n') {
        Some(i) => {
            let piece = s.take(i);
            assert forall|j: int| 0 <= j < piece.len() implies #[trigger] piece[j] != '\n' by {
                assert(piece[j] == s[j]);
            }
            lemma_trimmed_line(piece);
            if i < s.len() - 1 {
                lemma_lines_trimmed(s.skip(i + 1));
                let x = trimmed(piece);
                let r = lines_trimmed(s.skip(i + 1));
                let t = x + seq!['\n'] + r;
                assert(lines_trimmed(s) == t);
                assert forall|k: int|
                    0 <= k < t.len() && is_white(#[trigger] t[k]) && t[k] != '\n' implies 0 < k
                    && t[k - 1] != '\n' && k + 1 < t.len() && t[k + 1] != '\n' by {
                    if k < x.len() {
                        assert(t[k] == x[k]);
                        assert(k != x.len() - 1);
                        assert(t[k + 1] == x[k + 1]);
                        if k > 0 {
                            assert(t[k - 1] == x[k - 1]);
                        }
                    } else if k > x.len() {
                        let j = k - x.len() - 1;
                        assert(t[k] == r[j]);
                        assert(j > 0);
                        assert(t[k - 1] == r[j - 1]);
                        assert(t[k + 1] == r[j + 1]);
                    }
                }
            } else {
                assert(lines_trimmed(s) == trimmed(piece));
            }
        },
        None => {
            lemma_trimmed_line(s);
        },
    }
}

/// Every line of the Markdown rendering is trimmed: no line begins or ends
/// with white space.
pub proof fn law_markdown_lines_trimmed(html: Seq<char>)
    ensures
        lines_unpadded(markdown_text(html)),
{
    let a = pairs_replaced(html, markdown_tag_pairs());
    let b = pattern_replaced(a, TagPattern::AnyTag, Seq::empty());
    lemma_lines_trimmed(pairs_replaced(b, entity_pairs()));
}

proof fn lemma_markdown_pair_facts()
    ensures
        forall|k: int| 0 <= k < markdown_tag_pairs().len() ==> (#[trigger] markdown_tag_pairs()[k]).0.len() > 0
            && markdown_tag_pairs()[k].0[0] == '<',
        markdown_tag_pairs().len() == 36,
        markdown_tag_pairs()[0] == (seq!['<', 'h', '1', '>'], seq!['\n', '#', ' ']),
        markdown_tag_pairs()[1] == (seq!['<', '/', 'h', '1', '>'], seq!['\n']),
        markdown_tag_pairs()[2] == (seq!['<', 'h', '2', '>'], seq!['\n', '#', '#', ' ']),
        markdown_tag_pairs()[3] == (seq!['<', '/', 'h', '2', '>'], seq!['\n']),
        markdown_tag_pairs()[4] == (seq!['<', 'h', '3', '>'], seq!['\n', '#', '#', '#', ' ']),
        markdown_tag_pairs()[5] == (seq!['<', '/', 'h', '3', '>'], seq!['\n']),
        markdown_tag_pairs()[6] == (seq!['<', 'h', '4', '>'], seq!['\n', '#', '#', '#', '#', ' ']),
        markdown_tag_pairs()[7] == (seq!['<', '/', 'h', '4', '>'], seq!['\n']),
{
    reveal_strlit("<h1>");
    reveal_strlit("</h1>");
    reveal_strlit("<h2>");
    reveal_strlit("</h2>");
    reveal_strlit("<h3>");
    reveal_strlit("</h3>");
    reveal_strlit("<h4>");
    reveal_strlit("</h4>");
    reveal_strlit("<p>");
    reveal_strlit("</p>");
    reveal_strlit("<br>");
    reveal_strlit("<br/>");
    reveal_strlit("<br />");
    reveal_strlit("<strong>");
    reveal_strlit("</strong>");
    reveal_strlit("<b>");
    reveal_strlit("</b>");
    reveal_strlit("<em>");
    reveal_strlit("</em>");
    reveal_strlit("<i>");
    reveal_strlit("</i>");
    reveal_strlit("<ul>");
    reveal_strlit("</ul>");
    reveal_strlit("<ol>");
    reveal_strlit("</ol>");
    reveal_strlit("<li>");
    reveal_strlit("</li>");
    reveal_strlit("<blockquote>");
    reveal_strlit("</blockquote>");
    reveal_strlit("<code>");
    reveal_strlit("</code>");
    reveal_strlit("<pre>");
    reveal_strlit("</pre>");
    reveal_strlit("<hr>");
    reveal_strlit("<hr/>");
    reveal_strlit("<hr />");
    reveal_strlit("\n# ");
    reveal_strlit("\n");
    reveal_strlit("\n## ");
    reveal_strlit("\n");
    reveal_strlit("\n### ");
    reveal_strlit("\n");
    reveal_strlit("\n#### ");
    reveal_strlit("\n");
    let ps = markdown_tag_pairs();
    assert("<h1>"@ =~= seq!['<', 'h', '1', '>']);
    assert("\n# "@ =~= seq!['\n', '#', ' ']);
    assert("</h1>"@ =~= seq!['<', '/', 'h', '1', '>']);
    assert("\n"@ =~= seq!['\n']);
    assert("<h2>"@ =~= seq!['<', 'h', '2', '>']);
    assert("\n## "@ =~= seq!['\n', '#', '#', ' ']);
    assert("</h2>"@ =~= seq!['<', '/', 'h', '2', '>']);
    assert("\n"@ =~= seq!['\n']);
    assert("<h3>"@ =~= seq!['<', 'h', '3', '>']);
    assert("\n### "@ =~= seq!['\n', '#', '#', '#', ' ']);
    assert("</h3>"@ =~= seq!['<', '/', 'h', '3', '>']);
    assert("\n"@ =~= seq!['\n']);
    assert("<h4>"@ =~= seq!['<', 'h', '4', '>']);
    assert("\n#### "@ =~= seq!['\n', '#', '#', '#', '#', ' ']);
    assert("</h4>"@ =~= seq!['<', '/', 'h', '4', '>']);
    assert("\n"@ =~= seq!['\n']);
    assert forall|k: int| 0 <= k < ps.len() implies (#[trigger] ps[k]).0.len() > 0 && ps[k].0[0] == '<' by {
        if k == 0 {
            assert(ps[k].0 == "<h1>"@);
        } else if k == 1 {
            assert(ps[k].0 == "</h1>"@);
        } else if k == 2 {
            assert(ps[k].0 == "<h2>"@);
        } else if k == 3 {
            assert(ps[k].0 == "</h2>"@);
        } else if k == 4 {
            assert(ps[k].0 == "<h3>"@);
        } else if k == 5 {
            assert(ps[k].0 == "</h3>"@);
        } else if k == 6 {
            assert(ps[k].0 == "<h4>"@);
        } else if k == 7 {
            assert(ps[k].0 == "</h4>"@);
        } else if k == 8 {
            assert(ps[k].0 == "<p>"@);
        } else if k == 9 {
            assert(ps[k].0 == "</p>"@);
        } else if k == 10 {
            assert(ps[k].0 == "<br>"@);
        } else if k == 11 {
            assert(ps[k].0 == "<br/>"@);
        } else if k == 12 {
            assert(ps[k].0 == "<br />"@);
        } else if k == 13 {
            assert(ps[k].0 == "<strong>"@);
        } else if k == 14 {
            assert(ps[k].0 == "</strong>"@);
        } else if k == 15 {
            assert(ps[k].0 == "<b>"@);
        } else if k == 16 {
            assert(ps[k].0 == "</b>"@);
        } else if k == 17 {
            assert(ps[k].0 == "<em>"@);
        } else if k == 18 {
            assert(ps[k].0 == "</em>"@);
        } else if k == 19 {
            assert(ps[k].0 == "<i>"@);
        } else if k == 20 {
            assert(ps[k].0 == "</i>"@);
        } else if k == 21 {
            assert(ps[k].0 == "<ul>"@);
        } else if k == 22 {
            assert(ps[k].0 == "</ul>"@);
        } else if k == 23 {
            assert(ps[k].0 == "<ol>"@);
        } else if k == 24 {
            assert(ps[k].0 == "</ol>"@);
        } else if k == 25 {
            assert(ps[k].0 == "<li>"@);
        } else if k == 26 {
            assert(ps[k].0 == "</li>"@);
        } else if k == 27 {
            assert(ps[k].0 == "<blockquote>"@);
        } else if k == 28 {
            assert(ps[k].0 == "</blockquote>"@);
        } else if k == 29 {
            assert(ps[k].0 == "<code>"@);
        } else if k == 30 {
            assert(ps[k].0 == "</code>"@);
        } else if k == 31 {
            assert(ps[k].0 == "<pre>"@);
        } else if k == 32 {
            assert(ps[k].0 == "</pre>"@);
        } else if k == 33 {
            assert(ps[k].0 == "<hr>"@);
        } else if k == 34 {
            assert(ps[k].0 == "<hr/>"@);
        } else if k == 35 {
            assert(ps[k].0 == "<hr />"@);
        }
    }
}

proof fn lemma_entity_pair_facts()
    ensures
        forall|k: int| 0 <= k < entity_pairs().len() ==> (#[trigger] entity_pairs()[k]).0.len() > 0
            && entity_pairs()[k].0[0] == '&',
{
    reveal_strlit("&nbsp;");
    reveal_strlit("&amp;");
    reveal_strlit("&lt;");
    reveal_strlit("&gt;");
    reveal_strlit("&quot;");
    reveal_strlit("&#39;");
    reveal_strlit("&mdash;");
    reveal_strlit("&ndash;");
    let ps = entity_pairs();
    assert forall|k: int| 0 <= k < ps.len() implies (#[trigger] ps[k]).0.len() > 0 && ps[k].0[0] == '&' by {
        if k == 0 {
            assert(ps[k].0 == "&nbsp;"@);
        } else if k == 1 {
            assert(ps[k].0 == "&amp;"@);
        } else if k == 2 {
            assert(ps[k].0 == "&lt;"@);
        } else if k == 3 {
            assert(ps[k].0 == "&gt;"@);
        } else if k == 4 {
            assert(ps[k].0 == "&quot;"@);
        } else if k == 5 {
            assert(ps[k].0 == "&#39;"@);
        } else if k == 6 {
            assert(ps[k].0 == "&mdash;"@);
        } else if k == 7 {
            assert(ps[k].0 == "&ndash;"@);
        }
    }
}

/// No character of `t` is `c`.
pub open spec fn free_of(t: Seq<char>, c: char) -> bool {
    forall|j: int| 0 <= j < t.len() ==> #[trigger] t[j] != c
}

/// `t` and `f` differ at a position both have.
pub open spec fn differs_early(t: Seq<char>, f: Seq<char>) -> bool {
    exists|i: int| 0 <= i < t.len() && i < f.len() && t[i] != f[i]
}

proof fn lemma_replaced_passthrough(a: Seq<char>, b: Seq<char>, from: Seq<char>, to: Seq<char>)
    requires
        from.len() > 0,
        free_of(a, from[0]),
    ensures
        replaced(a + b, from, to) == a + replaced(b, from, to),
    decreases a.len(),
{
    if a.len() == 0 {
        assert(a + b =~= b);
        assert(a + replaced(b, from, to) =~= replaced(b, from, to));
    } else {
        let s = a + b;
        assert(s[0] == a[0]);
        assert(!crate::text::has_prefix(s, from)) by {
            if crate::text::has_prefix(s, from) {
                assert(s.subrange(0, from.len() as int)[0] == s[0]);
            }
        }
        assert(s.skip(1) =~= a.skip(1) + b);
        assert forall|j: int| 0 <= j < a.skip(1).len() implies #[trigger] a.skip(1)[j] != from[0] by {
            assert(a.skip(1)[j] == a[j + 1]);
        }
        lemma_replaced_passthrough(a.skip(1), b, from, to);
        assert(seq![a[0]] + (a.skip(1) + replaced(b, from, to)) =~= a + replaced(b, from, to));
    }
}

/// A tag token `<...` followed by `b`: replaced as a whole when it is
/// `from`, else passed over.
proof fn lemma_replaced_token(t: Seq<char>, b: Seq<char>, from: Seq<char>, to: Seq<char>)
    requires
        from.len() > 0,
        from[0] == '<',
        t.len() > 0,
        t[0] == '<',
        free_of(t.skip(1), '<'),
        t == from || differs_early(t, from),
    ensures
        replaced(t + b, from, to) == (if t == from {
            to
        } else {
            t
        }) + replaced(b, from, to),
{
    let s = t + b;
    if t == from {
        assert(s.subrange(0, from.len() as int) =~= from);
        assert(s.skip(from.len() as int) =~= b);
    } else {
        let i = choose|i: int| 0 <= i < t.len() && i < from.len() && t[i] != from[i];
        assert(!crate::text::has_prefix(s, from)) by {
            if crate::text::has_prefix(s, from) {
                assert(s.subrange(0, from.len() as int)[i] == s[i]);
            }
        }
        assert(s.skip(1) =~= t.skip(1) + b);
        lemma_replaced_passthrough(t.skip(1), b, from, to);
        assert(seq![t[0]] + (t.skip(1) + replaced(b, from, to)) =~= t + replaced(b, from, to));
    }
}

/// Where a tag token stands after `n` pairs: itself until its pair `k`,
/// then its replacement.
pub open spec fn tag_state(t: Seq<char>, n: int, k: int, tt: Seq<char>) -> Seq<char> {
    if n <= k {
        t
    } else {
        tt
    }
}

proof fn lemma_token_step(
    t: Seq<char>,
    n: int,
    k: int,
    tt: Seq<char>,
    b: Seq<char>,
    from: Seq<char>,
    to: Seq<char>,
)
    requires
        from.len() > 0,
        from[0] == '<',
        t.len() > 0,
        t[0] == '<',
        free_of(t.skip(1), '<'),
        free_of(tt, '<'),
        n >= 1,
        n - 1 < k ==> differs_early(t, from),
        n - 1 == k ==> from == t && to == tt,
    ensures
        replaced(tag_state(t, n - 1, k, tt) + b, from, to) == tag_state(t, n, k, tt) + replaced(
            b,
            from,
            to,
        ),
{
    if n - 1 < k {
        lemma_replaced_token(t, b, from, to);
        assert(t != from) by {
            let i = choose|i: int| 0 <= i < t.len() && i < from.len() && t[i] != from[i];
        }
    } else if n - 1 == k {
        lemma_replaced_token(t, b, from, to);
    } else {
        lemma_replaced_passthrough(tt, b, from, to);
    }
}

proof fn lemma_pairs_two_tags(
    x: Seq<char>,
    w: Seq<char>,
    y: Seq<char>,
    ps: Seq<(Seq<char>, Seq<char>)>,
    n: int,
    ko: int,
    kc: int,
    tx: Seq<char>,
    ty: Seq<char>,
)
    requires
        0 <= n <= ps.len(),
        forall|k: int|
            0 <= k < ps.len() ==> (#[trigger] ps[k]).0.len() > 0 && ps[k].0[0] == '<',
        free_of(w, '<'),
        free_of(tx, '<'),
        free_of(ty, '<'),
        x.len() > 0 && x[0] == '<' && free_of(x.skip(1), '<'),
        y.len() > 0 && y[0] == '<' && free_of(y.skip(1), '<'),
        0 <= ko < ps.len() && ps[ko] == (x, tx),
        0 <= kc < ps.len() && ps[kc] == (y, ty),
        forall|k: int| 0 <= k < ko ==> differs_early(x, (#[trigger] ps[k]).0),
        forall|k: int| 0 <= k < kc ==> differs_early(y, (#[trigger] ps[k]).0),
    ensures
        pairs_replaced(x + w + y, ps.take(n)) == tag_state(x, n, ko, tx) + w + tag_state(
            y,
            n,
            kc,
            ty,
        ),
    decreases n,
{
    if n == 0 {
        assert(ps.take(0) =~= Seq::<(Seq<char>, Seq<char>)>::empty());
    } else {
        let pn = ps.take(n);
        assert(pn.subrange(0, n - 1) =~= ps.take(n - 1));
        assert(pn[n - 1] == ps[n - 1]);
        lemma_pairs_two_tags(x, w, y, ps, n - 1, ko, kc, tx, ty);
        let from = ps[n - 1].0;
        let to = ps[n - 1].1;
        let xs = tag_state(x, n - 1, ko, tx);
        let ys = tag_state(y, n - 1, kc, ty);
        assert(xs + w + ys =~= xs + (w + ys));
        lemma_token_step(x, n, ko, tx, w + ys, from, to);
        lemma_replaced_passthrough(w, ys, from, to);
        lemma_token_step(y, n, kc, ty, Seq::empty(), from, to);
        assert(ys + Seq::<char>::empty() =~= ys);
        assert(replaced(Seq::<char>::empty(), from, to) == Seq::<char>::empty());
        assert(tag_state(y, n, kc, ty) + Seq::<char>::empty() =~= tag_state(y, n, kc, ty));
        assert(tag_state(x, n, ko, tx) + (w + tag_state(y, n, kc, ty)) =~= tag_state(x, n, ko, tx)
            + w + tag_state(y, n, kc, ty));
    }
}

proof fn lemma_pairs_pass_free(a: Seq<char>, ps: Seq<(Seq<char>, Seq<char>)>, c: char, n: int)
    requires
        0 <= n <= ps.len(),
        forall|k: int| 0 <= k < ps.len() ==> (#[trigger] ps[k]).0.len() > 0 && ps[k].0[0] == c,
        free_of(a, c),
    ensures
        pairs_replaced(a, ps.take(n)) == a,
    decreases n,
{
    if n == 0 {
        assert(ps.take(0) =~= Seq::<(Seq<char>, Seq<char>)>::empty());
    } else {
        let pn = ps.take(n);
        assert(pn.subrange(0, n - 1) =~= ps.take(n - 1));
        assert(pn[n - 1] == ps[n - 1]);
        lemma_pairs_pass_free(a, ps, c, n - 1);
        lemma_replaced_passthrough(a, Seq::empty(), ps[n - 1].0, ps[n - 1].1);
        assert(a + Seq::<char>::empty() =~= a);
        assert(replaced(Seq::<char>::empty(), ps[n - 1].0, ps[n - 1].1) == Seq::<char>::empty());
    }
}

proof fn lemma_any_tag_free(s: Seq<char>)
    requires
        free_of(s, '<'),
    ensures
        pattern_replaced(s, TagPattern::AnyTag, Seq::empty()) == s,
    decreases s.len(),
{
    if s.len() > 0 {
        assert(s[0] != '<');
        assert forall|j: int| 0 <= j < s.skip(1).len() implies #[trigger] s.skip(1)[j] != '<' by {
            assert(s.skip(1)[j] == s[j + 1]);
        }
        lemma_any_tag_free(s.skip(1));
        assert(seq![s[0]] + s.skip(1) =~= s);
    }
}

/// The digit of heading level `n` (1 to 4).
pub open spec fn level_char(n: int) -> char {
    if n == 1 {
        '1'
    } else if n == 2 {
        '2'
    } else if n == 3 {
        '3'
    } else {
        '4'
    }
}

/// `<hN>`
pub open spec fn heading_open(n: int) -> Seq<char> {
    seq!['<', 'h', level_char(n), '>']
}

/// `</hN>`
pub open spec fn heading_close(n: int) -> Seq<char> {
    seq!['<', '/', 'h', level_char(n), '>']
}

proof fn lemma_heading_lines(hw: Seq<char>)
    requires
        hw.len() > 0,
        !is_white(hw[0]),
        !is_white(hw.last()),
        free_of(hw, '\n'),
    ensures
        lines_trimmed(seq!['\n'] + hw + seq!['\n']) == seq!['\n'] + hw,
{
    let a = seq!['\n'] + hw + seq!['\n'];
    crate::text::lemma_first_index_of(a, '\n', 0);
    let r = a.skip(1);
    assert(r =~= hw + seq!['\n']);
    assert forall|j: int| 0 <= j < hw.len() implies #[trigger] r[j] != '\n' by {
        assert(r[j] == hw[j]);
    }
    crate::text::lemma_first_index_of(r, '\n', hw.len() as int);
    assert(r.take(hw.len() as int) =~= hw);
    crate::text::lemma_trimmed_of_unpadded(hw);
    assert(lines_trimmed(r) == hw);
    assert(a.take(0) =~= Seq::<char>::empty());
    assert(trimmed(Seq::<char>::empty()) == Seq::<char>::empty());
    assert(lines_trimmed(a) == trimmed(a.take(0)) + seq!['\n'] + lines_trimmed(r));
    assert(Seq::<char>::empty() + seq!['\n'] + hw =~= seq!['\n'] + hw);
}

/// The tag replacements on a heading: `<hN>w</hN>` becomes the heading
/// marker line start, `w`, and a line break.
proof fn lemma_heading_pairs(n: int, w: Seq<char>)
    requires
        1 <= n <= 4,
        free_of(w, '<'),
    ensures
        pairs_replaced(heading_open(n) + w + heading_close(n), markdown_tag_pairs()) == seq!['\n']
            + Seq::new(n as nat, |i: int| '#') + seq![' '] + w + seq!['\n'],
{
    lemma_markdown_pair_facts();
    let ps = markdown_tag_pairs();
    let x = heading_open(n);
    let y = heading_close(n);
    let hashes = Seq::new(n as nat, |i: int| '#');
    let tx = seq!['\n'] + hashes + seq![' '];
    let ty = seq!['\n'];
    let ko = 2 * n - 2;
    let kc = 2 * n - 1;
    assert(ps[ko] == (x, tx)) by {
        if n == 1 {
            assert(tx =~= seq!['\n', '#', ' ']);
        } else if n == 2 {
            assert(tx =~= seq!['\n', '#', '#', ' ']);
        } else if n == 3 {
            assert(tx =~= seq!['\n', '#', '#', '#', ' ']);
        } else {
            assert(tx =~= seq!['\n', '#', '#', '#', '#', ' ']);
        }
    }
    assert(ps[kc] == (y, ty));
    assert forall|k: int| 0 <= k < 8 implies (#[trigger] ps[k]).0 == (if k % 2 == 0 {
        heading_open(k / 2 + 1)
    } else {
        heading_close((k + 1) / 2)
    }) by {
        if k == 0 {
        } else if k == 1 {
        } else if k == 2 {
        } else if k == 3 {
        } else if k == 4 {
        } else if k == 5 {
        } else if k == 6 {
        } else {
        }
    }
    assert forall|k: int| 0 <= k < ko implies differs_early(x, (#[trigger] ps[k]).0) by {
        let f = ps[k].0;
        if k % 2 == 0 {
            assert(x[2] != f[2]);
        } else {
            assert(x[1] != f[1]);
        }
    }
    assert forall|k: int| 0 <= k < kc implies differs_early(y, (#[trigger] ps[k]).0) by {
        let f = ps[k].0;
        if k % 2 == 0 {
            assert(y[1] != f[1]);
        } else {
            assert(y[3] != f[3]);
        }
    }
    assert(free_of(x.skip(1), '<')) by {
        assert(x.skip(1) =~= seq!['h', level_char(n), '>']);
    }
    assert(free_of(y.skip(1), '<')) by {
        assert(y.skip(1) =~= seq!['/', 'h', level_char(n), '>']);
    }
    lemma_pairs_two_tags(x, w, y, ps, 36, ko, kc, tx, ty);
    assert(ps.take(36) =~= ps);
}

/// Each heading level keeps its Markdown marker: a heading `<hN>w</hN>`
/// (N from 1 to 4) around a text `w` without tags, entities or line
/// breaks that ends in a visible character becomes a line break, N `#`
/// characters, a space and `w`.
pub proof fn law_markdown_heading_levels(n: int, w: Seq<char>)
    requires
        1 <= n <= 4,
        w.len() > 0,
        !is_white(w.last()),
        free_of(w, '<'),
        free_of(w, '&'),
        free_of(w, '\n'),
    ensures
        markdown_text(heading_open(n) + w + heading_close(n)) == seq!['\n'] + Seq::new(
            n as nat,
            |i: int| '#',
        ) + seq![' '] + w,
{
    lemma_heading_pairs(n, w);
    lemma_entity_pair_facts();
    let hashes = Seq::new(n as nat, |i: int| '#');
    let hw = hashes + seq![' '] + w;
    let a = seq!['\n'] + hashes + seq![' '] + w + seq!['\n'];
    assert(a =~= seq!['\n'] + hw + seq!['\n']);
    assert(free_of(a, '<') && free_of(a, '&')) by {
        assert forall|j: int| 0 <= j < a.len() implies #[trigger] a[j] != '<' && a[j] != '&' by {
            if j > n + 1 && j < a.len() - 1 {
                assert(a[j] == w[j - n - 2]);
            }
        }
    }
    lemma_any_tag_free(a);
    lemma_pairs_pass_free(a, entity_pairs(), '&', 8);
    assert(entity_pairs().take(8) =~= entity_pairs());
    assert(free_of(hw, '\n')) by {
        assert forall|j: int| 0 <= j < hw.len() implies #[trigger] hw[j] != '\n' by {
            if j > n {
                assert(hw[j] == w[j - n - 1]);
            }
        }
    }
    assert(hw[0] == '#');
    assert(hw.last() == w.last());
    lemma_heading_lines(hw);
}

} // verus!
