//! Articles fetched through Freedium: the article record, the fetch errors,
//! and the rewriting of host-relative image references.
use vstd::prelude::*;

use crate::json::{
    as_text, devalue_resolve, devalue_resolved, get_member, items_of, json_clone, json_model,
    json_document, json_models, member, member_of, parse_json_line, text_of, JsonModel, JsonValue,
};
use crate::text::{
    append_chars, chars_of, find_char, find_white, first_index_of, first_white_index, has_prefix,
    is_white, lemma_trimmed_idempotent, lemma_trimmed_of_unpadded, lemma_trimmed_range,
    replace_chars, seq_starts_with_at, string_of, sub_chars, trim_chars, trimmed,
};

verus! {

/// Represents a fetched and parsed Medium article
#[derive(Debug)]
pub struct Article {
    pub title: String,
    pub author: String,
    pub author_url: Option<String>,
    pub header_image_url: Option<String>,
    pub content_html: String,
    pub original_url: String,
    pub fetched_from: String,
}

/// Errors that can occur when fetching articles
#[derive(Debug)]
pub enum FetchError {
    /// The proxy answered with a non-success HTTP status.
    HttpError(u16),
    /// The request could not be made or its body not read; the text is the
    /// transport's own description.
    Network(String),
    ParseError(String),
    AllEndpointsFailed,
    NoEndpointsConfigured,
}

pub open spec fn lit_http() -> Seq<char> {
    seq!['h', 't', 't', 'p', ':', '/', '/']
}

pub open spec fn lit_https() -> Seq<char> {
    seq!['h', 't', 't', 'p', 's', ':', '/', '/']
}

pub open spec fn lit_two_slashes() -> Seq<char> {
    seq!['/', '/']
}

pub open spec fn lit_data() -> Seq<char> {
    seq!['d', 'a', 't', 'a', ':']
}

/// `src="/`
pub open spec fn lit_src_slash() -> Seq<char> {
    seq!['s', 'r', 'c', '=', '"', '/']
}

/// `src="`
pub open spec fn lit_src() -> Seq<char> {
    seq!['s', 'r', 'c', '=', '"']
}

/// `srcset="`
pub open spec fn lit_srcset() -> Seq<char> {
    seq!['s', 'r', 'c', 's', 'e', 't', '=', '"']
}

/// `s` without its trailing slashes (`trim_end_matches('/')`).
pub open spec fn without_trailing_slashes(s: Seq<char>) -> Seq<char>
    decreases s.len(),
{
    if s.len() > 0 && s.last() == '/' {
        without_trailing_slashes(s.drop_last())
    } else {
        s
    }
}

/// An image reference that needs no base: `http://`, `https://`,
/// protocol-relative `//`, or a `data:` URL.
pub open spec fn is_absolute_ref(u: Seq<char>) -> bool {
    ||| has_prefix(u, lit_http())
    ||| has_prefix(u, lit_https())
    ||| has_prefix(u, lit_two_slashes())
    ||| has_prefix(u, lit_data())
}

/// The URL, trimmed, joined to the endpoint unless it is already absolute.
pub open spec fn absolutized(url: Seq<char>, endpoint: Seq<char>) -> Seq<char> {
    let u = trimmed(url);
    if is_absolute_ref(u) {
        u
    } else {
        without_trailing_slashes(endpoint) + u
    }
}

/// Every `src="/...` is given the base in front of its leading slash,
/// except protocol-relative `src="//...`.
pub open spec fn img_src_rewritten(s: Seq<char>, base: Seq<char>) -> Seq<char>
    decreases s.len(),
{
    if s.len() == 0 {
        s
    } else if has_prefix(s, lit_src_slash()) {
        if has_prefix(s.skip(5), lit_two_slashes()) {
            lit_src_slash() + img_src_rewritten(s.skip(6), base)
        } else {
            lit_src() + base + img_src_rewritten(s.skip(5), base)
        }
    } else {
        seq![s[0]] + img_src_rewritten(s.skip(1), base)
    }
}

/// One `srcset` candidate, `<url> <descriptor>`: trimmed, its URL given
/// the base when it is host-relative, and the descriptor kept after one space.
pub open spec fn srcset_candidate_rewritten(c: Seq<char>, base: Seq<char>) -> Seq<char> {
    let t = trimmed(c);
    match first_white_index(t) {
        Some(k) => host_relative_joined(t.take(k), base) + seq![' '] + t.skip(k + 1),
        None => host_relative_joined(t, base),
    }
}

/// `base + url` when `url` starts with a single slash, else `url`.
pub open spec fn host_relative_joined(url: Seq<char>, base: Seq<char>) -> Seq<char> {
    if has_prefix(url, seq!['/']) && !has_prefix(url, lit_two_slashes()) {
        base + url
    } else {
        url
    }
}

/// The comma-separated candidates of a `srcset` value, each rewritten,
/// joined again with `", "`.
pub open spec fn srcset_value_rewritten(v: Seq<char>, base: Seq<char>) -> Seq<char>
    decreases v.len(),
{
    match first_index_of(v, ',') {
        Some(i) => if 0 <= i < v.len() {
            srcset_candidate_rewritten(v.take(i), base) + seq![',', ' '] + srcset_value_rewritten(
                v.skip(i + 1),
                base,
            )
        } else {
            v
        },
        None => srcset_candidate_rewritten(v, base),
    }
}

/// Every complete `srcset="..."` attribute with its value rewritten; from an
/// unterminated one on, the text is left as it is.
pub open spec fn srcset_rewritten(s: Seq<char>, base: Seq<char>) -> Seq<char>
    decreases s.len(),
{
    if s.len() == 0 {
        s
    } else if has_prefix(s, lit_srcset()) {
        let after = s.skip(8);
        match first_index_of(after, '"') {
            Some(e) => if 0 <= e < after.len() {
                lit_srcset() + srcset_value_rewritten(after.take(e), base) + seq!['"']
                    + srcset_rewritten(after.skip(e + 1), base)
            } else {
                s
            },
            None => s,
        }
    } else {
        seq![s[0]] + srcset_rewritten(s.skip(1), base)
    }
}

/// Both rewritings, against the endpoint without its trailing slashes.
pub open spec fn img_paths_absolutized(html: Seq<char>, endpoint: Seq<char>) -> Seq<char> {
    let base = without_trailing_slashes(endpoint);
    srcset_rewritten(img_src_rewritten(html, base), base)
}

proof fn lemma_without_trailing_slashes(s: Seq<char>, m: int)
    requires
        0 <= m <= s.len(),
        forall|j: int| m <= j < s.len() ==> #[trigger] s[j] == '/',
        m == 0 || s[m - 1] != '/',
    ensures
        without_trailing_slashes(s) == s.take(m),
    decreases s.len() - m,
{
    if m == s.len() {
        assert(s.take(m) =~= s);
    } else {
        assert forall|j: int| m <= j < s.drop_last().len() implies #[trigger] s.drop_last()[j]
            == '/' by {
            assert(s.drop_last()[j] == s[j]);
        }
        lemma_without_trailing_slashes(s.drop_last(), m);
        assert(s.drop_last().take(m) =~= s.take(m));
    }
}

/// `s` without its trailing slashes.
fn strip_trailing_slashes(s: &Vec<char>) -> (r: Vec<char>)
    ensures
        r@ == without_trailing_slashes(s@),
{
    let mut m: usize = s.len();
    while m > 0 && s[m - 1] == '/'
        invariant
            m <= s@.len(),
            forall|j: int| m <= j < s@.len() ==> #[trigger] s@[j] == '/',
        decreases m,
    {
        m = m - 1;
    }
    proof {
        lemma_without_trailing_slashes(s@, m as int);
    }
    sub_chars(s, 0, m)
}

/// Join a possibly host-relative URL against the endpoint base.
///
/// Freedium serves images as paths like `/img/700/0*abc`; absolute URLs
/// (`http://`, `https://`, protocol-relative `//`, or `data:`) are left as-is.
pub fn absolutize_url(url: &str, endpoint: &str) -> (r: String)
    ensures
        r@ == absolutized(url@, endpoint@),
{
    let uv = chars_of(url);
    let u = trim_chars(&uv);
    let http = vec!['h', 't', 't', 'p', ':', '/', '/'];
    let https = vec!['h', 't', 't', 'p', 's', ':', '/', '/'];
    let two = vec!['/', '/'];
    let data = vec!['d', 'a', 't', 'a', ':'];
    assert(u@.skip(0) =~= u@);
    if seq_starts_with_at(&u, 0, &http) || seq_starts_with_at(&u, 0, &https)
        || seq_starts_with_at(&u, 0, &two) || seq_starts_with_at(&u, 0, &data) {
        return string_of(&u);
    }
    let ev = chars_of(endpoint);
    let mut out = strip_trailing_slashes(&ev);
    append_chars(&mut out, &u);
    string_of(&out)
}

fn img_src_rewrite(s: &Vec<char>, base: &Vec<char>) -> (r: Vec<char>)
    ensures
        r@ == img_src_rewritten(s@, base@),
{
    let needle = vec!['s', 'r', 'c', '=', '"', '/'];
    let src = vec!['s', 'r', 'c', '=', '"'];
    let two = vec!['/', '/'];
    let mut out: Vec<char> = Vec::new();
    let mut i: usize = 0;
    assert(s@.skip(0) =~= s@);
    assert(out@ + img_src_rewritten(s@, base@) =~= img_src_rewritten(s@, base@));
    while i < s.len()
        invariant
            i <= s@.len(),
            needle@ == lit_src_slash(),
            src@ == lit_src(),
            two@ == lit_two_slashes(),
            out@ + img_src_rewritten(s@.skip(i as int), base@) == img_src_rewritten(s@, base@),
        decreases s.len() - i,
    {
        let ghost rest = s@.skip(i as int);
        let ghost old_out = out@;
        if seq_starts_with_at(s, i, &needle) {
            if seq_starts_with_at(s, i + 5, &two) {
                assert(rest.skip(5) =~= s@.skip(i + 5));
                assert(rest.skip(6) =~= s@.skip(i + 6));
                append_chars(&mut out, &needle);
                assert(old_out + img_src_rewritten(rest, base@) =~= out@ + img_src_rewritten(
                    s@.skip(i + 6),
                    base@,
                ));
                i = i + 6;
            } else {
                assert(rest.skip(5) =~= s@.skip(i + 5));
                append_chars(&mut out, &src);
                append_chars(&mut out, base);
                assert(old_out + img_src_rewritten(rest, base@) =~= out@ + img_src_rewritten(
                    s@.skip(i + 5),
                    base@,
                ));
                i = i + 5;
            }
        } else {
            out.push(s[i]);
            assert(rest.skip(1) =~= s@.skip(i + 1));
            assert(old_out + img_src_rewritten(rest, base@) =~= out@ + img_src_rewritten(
                s@.skip(i + 1),
                base@,
            ));
            i = i + 1;
        }
    }
    assert(out@ + img_src_rewritten(s@.skip(i as int), base@) =~= out@);
    out
}

fn host_relative_join(u: &Vec<char>, base: &Vec<char>) -> (r: Vec<char>)
    ensures
        r@ == host_relative_joined(u@, base@),
{
    let slash = vec!['/'];
    let two = vec!['/', '/'];
    assert(slash@ =~= seq!['/']);
    assert(two@ =~= lit_two_slashes());
    assert(u@.skip(0) =~= u@);
    if seq_starts_with_at(u, 0, &slash) && !seq_starts_with_at(u, 0, &two) {
        let mut out = sub_chars(base, 0, base.len());
        assert(base@.subrange(0, base@.len() as int) =~= base@);
        append_chars(&mut out, u);
        out
    } else {
        assert(u@.subrange(0, u@.len() as int) =~= u@);
        sub_chars(u, 0, u.len())
    }
}

fn srcset_candidate_rewrite(c: &Vec<char>, base: &Vec<char>) -> (r: Vec<char>)
    ensures
        r@ == srcset_candidate_rewritten(c@, base@),
{
    let t = trim_chars(c);
    match find_white(&t) {
        Some(k) => {
            let url = sub_chars(&t, 0, k);
            assert(url@ =~= t@.take(k as int));
            let mut out = host_relative_join(&url, base);
            out.push(' ');
            let desc = sub_chars(&t, k + 1, t.len());
            assert(desc@ =~= t@.skip(k + 1));
            append_chars(&mut out, &desc);
            out
        },
        None => host_relative_join(&t, base),
    }
}

fn srcset_value_rewrite(v: &Vec<char>, base: &Vec<char>) -> (r: Vec<char>)
    ensures
        r@ == srcset_value_rewritten(v@, base@),
{
    let mut out: Vec<char> = Vec::new();
    let mut pos: usize = 0;
    assert(v@.skip(0) =~= v@);
    assert(out@ + srcset_value_rewritten(v@, base@) =~= srcset_value_rewritten(v@, base@));
    loop
        invariant
            pos <= v@.len(),
            out@ + srcset_value_rewritten(v@.skip(pos as int), base@) == srcset_value_rewritten(
                v@,
                base@,
            ),
        decreases v@.len() - pos,
    {
        let ghost rest = v@.skip(pos as int);
        let ghost old_out = out@;
        match find_char(v, pos, ',') {
            None => {
                let piece = sub_chars(v, pos, v.len());
                assert(piece@ =~= rest);
                let cand = srcset_candidate_rewrite(&piece, base);
                append_chars(&mut out, &cand);
                return out;
            },
            Some(k) => {
                let piece = sub_chars(v, pos, k);
                assert(piece@ =~= rest.take(k - pos));
                let cand = srcset_candidate_rewrite(&piece, base);
                append_chars(&mut out, &cand);
                out.push(',');
                out.push(' ');
                assert(rest.skip(k - pos + 1) =~= v@.skip(k + 1));
                assert(old_out + srcset_value_rewritten(rest, base@) =~= out@
                    + srcset_value_rewritten(v@.skip(k + 1), base@));
                pos = k + 1;
            },
        }
    }
}

fn srcset_rewrite(s: &Vec<char>, base: &Vec<char>) -> (r: Vec<char>)
    ensures
        r@ == srcset_rewritten(s@, base@),
{
    let attr = vec!['s', 'r', 'c', 's', 'e', 't', '=', '"'];
    let mut out: Vec<char> = Vec::new();
    let mut i: usize = 0;
    assert(s@.skip(0) =~= s@);
    assert(out@ + srcset_rewritten(s@, base@) =~= srcset_rewritten(s@, base@));
    while i < s.len()
        invariant
            i <= s@.len(),
            attr@ == lit_srcset(),
            out@ + srcset_rewritten(s@.skip(i as int), base@) == srcset_rewritten(s@, base@),
        decreases s.len() - i,
    {
        let ghost rest = s@.skip(i as int);
        let ghost old_out = out@;
        if seq_starts_with_at(s, i, &attr) {
            assert(rest.skip(8) =~= s@.skip(i + 8));
            match find_char(s, i + 8, '"') {
                None => {
                    let tail = sub_chars(s, i, s.len());
                    assert(tail@ =~= rest);
                    append_chars(&mut out, &tail);
                    assert(s@.skip(s@.len() as int) =~= Seq::<char>::empty());
                    assert(old_out + srcset_rewritten(rest, base@) =~= out@ + srcset_rewritten(
                        s@.skip(s@.len() as int),
                        base@,
                    ));
                    i = s.len();
                },
                Some(e) => {
                    append_chars(&mut out, &attr);
                    let value = sub_chars(s, i + 8, e);
                    assert(value@ =~= rest.skip(8).take(e - i - 8));
                    let rv = srcset_value_rewrite(&value, base);
                    append_chars(&mut out, &rv);
                    out.push('"');
                    assert(rest.skip(8).skip(e - i - 8 + 1) =~= s@.skip(e + 1));
                    assert(old_out + srcset_rewritten(rest, base@) =~= out@ + srcset_rewritten(
                        s@.skip(e + 1),
                        base@,
                    ));
                    i = e + 1;
                },
            }
        } else {
            out.push(s[i]);
            assert(rest.skip(1) =~= s@.skip(i + 1));
            assert(old_out + srcset_rewritten(rest, base@) =~= out@ + srcset_rewritten(
                s@.skip(i + 1),
                base@,
            ));
            i = i + 1;
        }
    }
    assert(out@ + srcset_rewritten(s@.skip(i as int), base@) =~= out@);
    out
}

/// Rewrite host-relative `src="/..."` and `srcset="..."` image references in
/// `html` so they resolve against the endpoint host inside the webview.
pub fn absolutize_img_paths(html: &str, endpoint: &str) -> (r: String)
    ensures
        r@ == img_paths_absolutized(html@, endpoint@),
{
    let ev = chars_of(endpoint);
    let base = strip_trailing_slashes(&ev);
    let hv = chars_of(html);
    let with_src = img_src_rewrite(&hv, &base);
    let out = srcset_rewrite(&with_src, &base);
    string_of(&out)
}

/// Rewrite host-relative URLs inside every `srcset="..."` attribute.
pub fn rewrite_srcset(html: &str, base: &str) -> (r: String)
    ensures
        r@ == srcset_rewritten(html@, base@),
{
    let hv = chars_of(html);
    let bv = chars_of(base);
    let out = srcset_rewrite(&hv, &bv);
    string_of(&out)
}

/// The outer HTML of the elements of an HTML fragment that a CSS selector
/// picks, in document order; `None` when the selector does not parse.
pub uninterp spec fn selected_outer_html(fragment: Seq<char>, selector: Seq<char>) -> Option<
    Seq<Seq<char>>,
>;

pub open spec fn string_views(v: Seq<String>) -> Seq<Seq<char>> {
    v.map_values(|s: String| s@)
}

pub open spec fn opt_view(o: Option<String>) -> Option<Seq<char>> {
    match o {
        Some(s) => Some(s@),
        None => None,
    }
}

/// scraper: parses `fragment` with `Html::parse_fragment`, parses `selector`
/// with `Selector::parse`, and hands out `ElementRef::html` (the element's
/// outer HTML) of every element that `Html::select` yields, in its order.
/// The contract claims only that the result is `selected_outer_html` of the
/// two arguments, `None` exactly when `Selector::parse` fails.
#[verifier::external_body]
fn select_outer_html(fragment: &str, selector: &str) -> (r: Option<Vec<String>>)
    ensures
        selected_outer_html(fragment@, selector@) == match r {
            Some(v) => Some(string_views(v@)),
            None => None,
        },
{
    let doc = scraper::Html::parse_fragment(fragment);
    match scraper::Selector::parse(selector) {
        Ok(sel) => Some(doc.select(&sel).map(|e| e.html()).collect()),
        Err(_) => None,
    }
}

/// `s` after `s = s.replace(piece, "")` for each piece in turn.
pub open spec fn pieces_removed(s: Seq<char>, pieces: Seq<Seq<char>>) -> Seq<char>
    decreases pieces.len(),
{
    if pieces.len() == 0 {
        s
    } else {
        pieces_removed(crate::text::replaced(s, pieces[0], Seq::empty()), pieces.skip(1))
    }
}

/// `s` with the elements that `selector` picks in `content` removed, when the
/// selector parses.
pub open spec fn selection_removed(s: Seq<char>, content: Seq<char>, selector: Seq<char>) -> Seq<
    char,
> {
    match selected_outer_html(content, selector) {
        Some(p) => pieces_removed(s, p),
        None => s,
    }
}

/// Article HTML without its `script`, `style` and `noscript` elements.
pub open spec fn content_cleaned(content: Seq<char>) -> Seq<char> {
    selection_removed(
        selection_removed(selection_removed(content, content, "script"@), content, "style"@),
        content,
        "noscript"@,
    )
}

fn remove_pieces(s: &Vec<char>, pieces: &Vec<String>) -> (r: Vec<char>)
    ensures
        r@ == pieces_removed(s@, string_views(pieces@)),
{
    let ghost pm = string_views(pieces@);
    let mut out = sub_chars(s, 0, s.len());
    assert(s@.subrange(0, s@.len() as int) =~= s@);
    assert(pm.skip(0) =~= pm);
    let mut i: usize = 0;
    while i < pieces.len()
        invariant
            i <= pieces@.len(),
            pm == string_views(pieces@),
            pieces_removed(out@, pm.skip(i as int)) == pieces_removed(s@, pm),
        decreases pieces@.len() - i,
    {
        let pv = chars_of(pieces[i].as_str());
        let empty: Vec<char> = Vec::new();
        assert(pm.skip(i as int).skip(1) =~= pm.skip(i + 1));
        assert(pm.skip(i as int)[0] == pieces@[i as int]@);
        if pv.len() > 0 {
            out = replace_chars(&out, &pv, &empty);
        } else {
            assert(empty@ =~= Seq::<char>::empty());
        }
        i = i + 1;
    }
    out
}

/// `content` with every fragment removed in turn (`content.replace(fragment, "")`).
pub fn remove_fragments(content: &str, fragments: &Vec<String>) -> (r: String)
    ensures
        r@ == pieces_removed(content@, string_views(fragments@)),
{
    let cv = chars_of(content);
    let out = remove_pieces(&cv, fragments);
    string_of(&out)
}

/// Clean up article content HTML: remove `script`, `style` and `noscript`
/// elements.
pub fn clean_content(content: &str) -> (r: String)
    ensures
        r@ == content_cleaned(content@),
{
    let mut cleaned = chars_of(content);
    match select_outer_html(content, "script") {
        Some(p) => {
            cleaned = remove_pieces(&cleaned, &p);
        },
        None => {},
    }
    match select_outer_html(content, "style") {
        Some(p) => {
            cleaned = remove_pieces(&cleaned, &p);
        },
        None => {},
    }
    match select_outer_html(content, "noscript") {
        Some(p) => {
            cleaned = remove_pieces(&cleaned, &p);
        },
        None => {},
    }
    string_of(&cleaned)
}

/// `t` as a one-line list, or no line when it is empty.
pub open spec fn kept_if_nonempty(t: Seq<char>) -> Seq<Seq<char>> {
    if t.len() == 0 {
        Seq::empty()
    } else {
        seq![t]
    }
}

/// The lines of `s` (split at `'\n'`), each trimmed, the empty ones left out.
pub open spec fn nonblank_lines(s: Seq<char>) -> Seq<Seq<char>>
    decreases s.len(),
{
    match first_index_of(s, '\n') {
        Some(i) => if 0 <= i < s.len() {
            kept_if_nonempty(trimmed(s.take(i))) + nonblank_lines(s.skip(i + 1))
        } else {
            Seq::empty()
        },
        None => kept_if_nonempty(trimmed(s)),
    }
}

/// The response is newline-delimited JSON: its trimmed, non-empty lines,
/// each of which is one JSON document.
pub fn data_json_lines(body: &str) -> (r: Vec<String>)
    ensures
        string_views(r@) == nonblank_lines(body@),
{
    let s = chars_of(body);
    let mut out: Vec<String> = Vec::new();
    let mut pos: usize = 0;
    assert(s@.skip(0) =~= s@);
    assert(string_views(out@) + nonblank_lines(s@) =~= nonblank_lines(s@));
    loop
        invariant
            pos <= s@.len(),
            s@ == body@,
            string_views(out@) + nonblank_lines(s@.skip(pos as int)) == nonblank_lines(s@),
        decreases s@.len() - pos,
    {
        let ghost rest = s@.skip(pos as int);
        let ghost old_out = string_views(out@);
        match find_char(&s, pos, '\n') {
            None => {
                let piece = sub_chars(&s, pos, s.len());
                assert(piece@ =~= rest);
                let t = trim_chars(&piece);
                if t.len() > 0 {
                    let line = string_of(&t);
                    out.push(line);
                    assert(string_views(out@) =~= old_out + kept_if_nonempty(t@));
                } else {
                    assert(kept_if_nonempty(t@) =~= Seq::<Seq<char>>::empty());
                    assert(string_views(out@) =~= old_out + kept_if_nonempty(t@));
                }
                return out;
            },
            Some(k) => {
                let piece = sub_chars(&s, pos, k);
                assert(piece@ =~= rest.take(k - pos));
                let t = trim_chars(&piece);
                if t.len() > 0 {
                    let line = string_of(&t);
                    out.push(line);
                    assert(string_views(out@) =~= old_out + kept_if_nonempty(t@));
                } else {
                    assert(kept_if_nonempty(t@) =~= Seq::<Seq<char>>::empty());
                    assert(string_views(out@) =~= old_out + kept_if_nonempty(t@));
                }
                assert(rest.skip(k - pos + 1) =~= s@.skip(k + 1));
                assert(old_out + nonblank_lines(rest) =~= string_views(out@) + nonblank_lines(
                    s@.skip(k + 1),
                ));
                pos = k + 1;
            },
        }
    }
}

/// The `data` array of a devalue "chunk" document.
pub open spec fn chunk_payload(m: JsonModel) -> Option<Seq<JsonModel>> {
    if text_of(member(m, "type"@)) == Some("chunk"@) {
        items_of(member(m, "data"@))
    } else {
        None
    }
}

/// The payload of the first line that is a chunk with a `data` array.
pub open spec fn first_chunk(lines: Seq<Option<JsonModel>>) -> Option<Seq<JsonModel>>
    decreases lines.len(),
{
    if lines.len() == 0 {
        None
    } else {
        match lines[0] {
            Some(m) => if chunk_payload(m) is Some {
                chunk_payload(m)
            } else {
                first_chunk(lines.skip(1))
            },
            None => first_chunk(lines.skip(1)),
        }
    }
}

/// The parsed lines, a line that is not JSON being `None`.
pub open spec fn line_models(lines: Seq<Option<JsonValue>>) -> Seq<Option<JsonModel>> {
    lines.map_values(
        |o: Option<JsonValue>|
            match o {
                Some(v) => Some(v@),
                None => None,
            },
    )
}

/// An optional value by its model.
pub open spec fn model_of_opt(o: Option<JsonValue>) -> Option<JsonModel> {
    match o {
        Some(v) => Some(v@),
        None => None,
    }
}

/// The page payload within a resolved SvelteKit node: its `eager` member
/// when that carries the rendered `html`, else the node itself when it
/// carries it.
pub open spec fn payload_in(root: JsonModel) -> Option<JsonModel> {
    if member_of(member(root, "eager"@), "html"@) is Some {
        member(root, "eager"@)
    } else if member(root, "html"@) is Some {
        Some(root)
    } else {
        None
    }
}

/// The page payload of one SvelteKit node `{"type":"data","data":[...]}`,
/// its `data` decoded from index 0.
pub open spec fn node_payload(n: JsonModel) -> Option<JsonModel> {
    if text_of(member(n, "type"@)) == Some("data"@) {
        match items_of(member(n, "data"@)) {
            Some(d) => payload_in(devalue_resolved(d, 0, 0)),
            None => None,
        }
    } else {
        None
    }
}

/// The payload of the last node that carries one (layout nodes come
/// first, the page's own node last).
pub open spec fn last_node_payload(ns: Seq<JsonModel>) -> Option<JsonModel>
    decreases ns.len(),
{
    if ns.len() == 0 {
        None
    } else {
        match node_payload(ns.last()) {
            Some(p) => Some(p),
            None => last_node_payload(ns.drop_last()),
        }
    }
}

/// The page payload of a `{"type":"data","nodes":[...]}` document.
pub open spec fn nodes_payload(m: JsonModel) -> Option<JsonModel> {
    if text_of(member(m, "type"@)) == Some("data"@) {
        match items_of(member(m, "nodes"@)) {
            Some(ns) => last_node_payload(ns),
            None => None,
        }
    } else {
        None
    }
}

/// The payload of the first line that is a nodes document carrying one.
pub open spec fn first_nodes_payload(lines: Seq<Option<JsonModel>>) -> Option<JsonModel>
    decreases lines.len(),
{
    if lines.len() == 0 {
        None
    } else {
        match lines[0] {
            Some(m) => if nodes_payload(m) is Some {
                nodes_payload(m)
            } else {
                first_nodes_payload(lines.skip(1))
            },
            None => first_nodes_payload(lines.skip(1)),
        }
    }
}

/// The decoded page payload of a response: the first chunk's, as before,
/// when there is a chunk; else the one in the SvelteKit `nodes` structure.
pub open spec fn page_payload(lines: Seq<Option<JsonModel>>) -> Option<JsonModel> {
    match first_chunk(lines) {
        Some(data) => Some(devalue_resolved(data, 0, 0)),
        None => first_nodes_payload(lines),
    }
}

/// A text that is not blank once trimmed.
pub open spec fn nonblank(t: Option<Seq<char>>) -> Option<Seq<char>> {
    match t {
        Some(s) => if trimmed(s).len() > 0 {
            Some(s)
        } else {
            None
        },
        None => None,
    }
}

/// The rendered body (`html`), empty when missing.
pub open spec fn article_html(root: JsonModel) -> Seq<char> {
    match text_of(member(root, "html"@)) {
        Some(h) => h,
        None => Seq::empty(),
    }
}

pub open spec fn article_title(root: JsonModel) -> Seq<char> {
    match nonblank(text_of(member_of(member(root, "article"@), "title"@))) {
        Some(t) => t,
        None => "Untitled Article"@,
    }
}

pub open spec fn article_author(root: JsonModel) -> Seq<char> {
    match nonblank(text_of(member_of(member_of(member(root, "article"@), "author"@), "name"@))) {
        Some(t) => t,
        None => "Unknown Author"@,
    }
}

pub open spec fn article_header_image(root: JsonModel, endpoint: Seq<char>) -> Option<Seq<char>> {
    match nonblank(text_of(member_of(member(root, "article"@), "postImage"@))) {
        Some(p) => Some(absolutized(p, endpoint)),
        None => None,
    }
}

fn is_blank(s: &str) -> (b: bool)
    ensures
        b == (trimmed(s@).len() == 0),
{
    let v = chars_of(s);
    let t = trim_chars(&v);
    t.len() == 0
}

/// `value.get(key)` on an optional value.
fn member_opt<'a>(v: Option<&'a JsonValue>, key: &str) -> (r: Option<&'a JsonValue>)
    ensures
        match r {
            Some(x) => member_of(
                match v {
                    Some(y) => Some(y@),
                    None => None,
                },
                key@,
            ) == Some(x@),
            None => member_of(
                match v {
                    Some(y) => Some(y@),
                    None => None,
                },
                key@,
            ) is None,
        },
{
    match v {
        Some(y) => get_member(y, key),
        None => None,
    }
}

/// The non-blank string at `v`, if any.
fn nonblank_text_at(v: Option<&JsonValue>) -> (r: Option<String>)
    ensures
        opt_view(r) == nonblank(
            text_of(
                match v {
                    Some(y) => Some(y@),
                    None => None,
                },
            ),
        ),
{
    match v {
        Some(y) => match as_text(y) {
            Some(t) => if is_blank(t.as_str()) {
                None
            } else {
                Some(t.clone())
            },
            None => None,
        },
        None => None,
    }
}

/// Whether `v` has a member `key`.
fn has_member(v: &JsonValue, key: &str) -> (b: bool)
    ensures
        b == (member(v@, key@) is Some),
{
    get_member(v, key).is_some()
}

/// Whether `v`'s `type` member is the string `name`.
fn has_type(v: &JsonValue, name: &str) -> (b: bool)
    ensures
        b == (text_of(member(v@, "type"@)) == Some(name@)),
{
    match get_member(v, "type") {
        Some(t) => match as_text(t) {
            Some(ts) => crate::text::str_eq(ts.as_str(), name),
            None => false,
        },
        None => false,
    }
}

/// The page payload within a resolved node (see [`payload_in`]).
fn payload_of(root: JsonValue) -> (r: Option<JsonValue>)
    ensures
        model_of_opt(r) == payload_in(root@),
{
    let eager_html = match get_member(&root, "eager") {
        Some(e) => has_member(e, "html"),
        None => false,
    };
    if eager_html {
        match get_member(&root, "eager") {
            Some(e) => Some(json_clone(e)),
            None => None,
        }
    } else if has_member(&root, "html") {
        Some(root)
    } else {
        None
    }
}

/// The page payload of one SvelteKit node (see [`node_payload`]).
fn node_payload_of(n: &JsonValue) -> (r: Option<JsonValue>)
    ensures
        model_of_opt(r) == node_payload(n@),
{
    if !has_type(n, "data") {
        return None;
    }
    match get_member(n, "data") {
        Some(JsonValue::Array(items)) => payload_of(devalue_resolve(items.as_slice(), 0, 0)),
        _ => None,
    }
}

/// The payload of the last node that carries one.
fn last_node_payload_of(ns: &Vec<JsonValue>) -> (r: Option<JsonValue>)
    ensures
        model_of_opt(r) == last_node_payload(json_models(ns@)),
{
    let ghost ms = json_models(ns@);
    proof {
        crate::json::lemma_json_models_len(ns@);
    }
    let mut i: usize = ns.len();
    assert(ms.take(i as int) =~= ms);
    while i > 0
        invariant
            i <= ns@.len(),
            ms == json_models(ns@),
            ms.len() == ns@.len(),
            forall|j: int| 0 <= j < ns@.len() ==> #[trigger] ms[j] == ns@[j]@,
            last_node_payload(ms.take(i as int)) == last_node_payload(ms),
        decreases i,
    {
        let ghost t = ms.take(i as int);
        assert(t.last() == ms[i - 1]);
        assert(t.drop_last() =~= ms.take(i - 1));
        match node_payload_of(&ns[i - 1]) {
            Some(p) => {
                return Some(p);
            },
            None => {},
        }
        i = i - 1;
    }
    assert(ms.take(0) =~= Seq::<JsonModel>::empty());
    None
}

/// The page payload of a nodes document (see [`nodes_payload`]).
fn nodes_payload_of(m: &JsonValue) -> (r: Option<JsonValue>)
    ensures
        model_of_opt(r) == nodes_payload(m@),
{
    if !has_type(m, "data") {
        return None;
    }
    match get_member(m, "nodes") {
        Some(JsonValue::Array(ns)) => last_node_payload_of(ns),
        _ => None,
    }
}

/// The payload of the first line that is a nodes document carrying one.
fn first_nodes_payload_of(lines: &Vec<Option<JsonValue>>) -> (r: Option<JsonValue>)
    ensures
        model_of_opt(r) == first_nodes_payload(line_models(lines@)),
{
    let ghost lm = line_models(lines@);
    let mut i: usize = 0;
    assert(lm.skip(0) =~= lm);
    while i < lines.len()
        invariant
            i <= lines@.len(),
            lm == line_models(lines@),
            lm.len() == lines@.len(),
            first_nodes_payload(lm.skip(i as int)) == first_nodes_payload(lm),
        decreases lines@.len() - i,
    {
        assert(lm.skip(i as int).skip(1) =~= lm.skip(i + 1));
        assert(lm.skip(i as int)[0] == lm[i as int]);
        match &lines[i] {
            Some(v) => match nodes_payload_of(v) {
                Some(p) => {
                    return Some(p);
                },
                None => {},
            },
            None => {},
        }
        i = i + 1;
    }
    assert(lm.skip(i as int) =~= Seq::<Option<JsonModel>>::empty());
    None
}

/// What parsing a `__data.json` response gives, for its lines as JSON
/// models `lm`.
pub open spec fn data_json_outcome(
    lm: Seq<Option<JsonModel>>,
    original_url: Seq<char>,
    endpoint: Seq<char>,
    r: Result<Article, FetchError>,
) -> bool {
    match page_payload(lm) {
        None => r matches Err(FetchError::ParseError(m)) && m@
            == "No article chunk found in __data.json"@,
        Some(root) => {
            let html = article_html(root);
            if trimmed(html).len() == 0 {
                r matches Err(FetchError::ParseError(m)) && m@
                    == "Freedium returned no rendered article content"@
            } else {
                &&& r matches Ok(a)
                &&& a.title@ == article_title(root)
                &&& a.author@ == article_author(root)
                &&& a.author_url is None
                &&& opt_view(a.header_image_url) == article_header_image(root, endpoint)
                &&& a.content_html@ == content_cleaned(img_paths_absolutized(html, endpoint))
                &&& a.original_url@ == original_url
                &&& a.fetched_from@ == endpoint
            }
        },
    }
}

/// The response's lines as serde_json parses them.
pub open spec fn body_line_models(body: Seq<char>) -> Seq<Option<JsonModel>> {
    nonblank_lines(body).map_values(|l: Seq<char>| json_document(l))
}

/// Parse Freedium's SvelteKit `__data.json` response and extract the article.
///
/// `lines` are the response's lines as JSON (see [`data_json_lines`]), `None`
/// for a line that is not JSON. The page payload uses devalue's
/// flattened-index encoding. It is read from the first "chunk" line when
/// there is one (the earlier format); otherwise from SvelteKit's
/// `{"type":"data","nodes":[...]}` structure, where the last node that
/// carries a rendered `html` (directly or under `eager`) holds it. We then
/// read the `html` body plus the `article` metadata (`title`,
/// `author.name`, `postImage`).
pub fn parse_data_json(lines: &Vec<Option<JsonValue>>, original_url: &str, endpoint: &str) -> (r:
    Result<Article, FetchError>)
    ensures
        data_json_outcome(line_models(lines@), original_url@, endpoint@, r),
{
    let ghost lm = line_models(lines@);
    let mut found: Option<&Vec<JsonValue>> = None;
    let mut i: usize = 0;
    assert(lm.skip(0) =~= lm);
    while i < lines.len()
        invariant_except_break
            i <= lines@.len(),
            found is None,
            first_chunk(lm.skip(i as int)) == first_chunk(lm),
        invariant
            lm == line_models(lines@),
            lm.len() == lines@.len(),
        ensures
            match found {
                Some(d) => first_chunk(lm) == Some(json_models(d@)),
                None => first_chunk(lm) is None,
            },
        decreases lines@.len() - i,
    {
        assert(lm.skip(i as int).skip(1) =~= lm.skip(i + 1));
        assert(lm.skip(i as int)[0] == lm[i as int]);
        match &lines[i] {
            Some(v) => {
                let t = get_member(v, "type");
                let is_chunk = match t {
                    Some(tv) => match as_text(tv) {
                        Some(ts) => crate::text::str_eq(ts.as_str(), "chunk"),
                        None => false,
                    },
                    None => false,
                };
                if is_chunk {
                    match get_member(v, "data") {
                        Some(JsonValue::Array(items)) => {
                            found = Some(items);
                            assert(first_chunk(lm) == Some(json_models(items@)));
                            break ;
                        },
                        _ => {},
                    }
                }
            },
            None => {},
        }
        i = i + 1;
    }
    let root = match found {
        Some(d) => devalue_resolve(d.as_slice(), 0, 0),
        None => match first_nodes_payload_of(lines) {
            Some(p) => p,
            None => {
                return Err(
                    FetchError::ParseError("No article chunk found in __data.json".to_string()),
                );
            },
        },
    };
    let html: String = match get_member(&root, "html") {
        Some(h) => match as_text(h) {
            Some(t) => t.clone(),
            None => String::new(),
        },
        None => String::new(),
    };
    if is_blank(html.as_str()) {
        return Err(
            FetchError::ParseError("Freedium returned no rendered article content".to_string()),
        );
    }
    let article = get_member(&root, "article");
    let title = match nonblank_text_at(member_opt(article, "title")) {
        Some(t) => t,
        None => "Untitled Article".to_string(),
    };
    let author = match nonblank_text_at(member_opt(member_opt(article, "author"), "name")) {
        Some(t) => t,
        None => "Unknown Author".to_string(),
    };
    let header_image_url = match nonblank_text_at(member_opt(article, "postImage")) {
        Some(p) => Some(absolutize_url(p.as_str(), endpoint)),
        None => None,
    };
    let html = absolutize_img_paths(html.as_str(), endpoint);
    let cleaned_content = clean_content(html.as_str());
    Ok(Article {
        title,
        author,
        author_url: None,
        header_image_url,
        content_html: cleaned_content,
        original_url: original_url.to_string(),
        fetched_from: endpoint.to_string(),
    })
}

/// Parse a whole `__data.json` response body: its non-blank lines
/// (see [`data_json_lines`]), each parsed as JSON, then
/// [`parse_data_json`].
pub fn parse_data_json_body(body: &str, original_url: &str, endpoint: &str) -> (r: Result<
    Article,
    FetchError,
>)
    ensures
        data_json_outcome(body_line_models(body@), original_url@, endpoint@, r),
{
    let lines = data_json_lines(body);
    let ghost nl = nonblank_lines(body@);
    let mut parsed: Vec<Option<JsonValue>> = Vec::new();
    let mut i: usize = 0;
    while i < lines.len()
        invariant
            i <= lines@.len(),
            nl == nonblank_lines(body@),
            string_views(lines@) == nl,
            parsed@.len() == i,
            line_models(parsed@) =~= nl.take(i as int).map_values(
                |l: Seq<char>| json_document(l),
            ),
        decreases lines@.len() - i,
    {
        let p = parse_json_line(lines[i].as_str());
        assert(string_views(lines@).len() == lines@.len());
        assert(nl[i as int] == lines@[i as int]@);
        let ghost before = parsed@;
        parsed.push(p);
        let ghost goal = nl.take(i + 1).map_values(|l: Seq<char>| json_document(l));
        assert forall|j: int| 0 <= j < i + 1 implies #[trigger] line_models(parsed@)[j]
            == goal[j] by {
            if j < i {
                assert(parsed@[j] == before[j]);
                assert(line_models(before)[j] == nl.take(i as int).map_values(
                    |l: Seq<char>| json_document(l),
                )[j]);
            }
        }
        assert(line_models(parsed@) =~= goal);
        i = i + 1;
    }
    assert(nl.take(i as int) =~= nl);
    parse_data_json(&parsed, original_url, endpoint)
}

/// Absolutizing is idempotent: a URL once joined to an HTTP(S) endpoint is
/// left as it is by a second pass (for an endpoint that, without its
/// trailing slashes, begins with `http://` or `https://` and does not end in
/// white space).
pub proof fn law_absolutize_url_idempotent(url: Seq<char>, endpoint: Seq<char>)
    requires
        has_prefix(without_trailing_slashes(endpoint), lit_http()) || has_prefix(
            without_trailing_slashes(endpoint),
            lit_https(),
        ),
        !is_white(without_trailing_slashes(endpoint).last()),
    ensures
        absolutized(absolutized(url, endpoint), endpoint) == absolutized(url, endpoint),
{
    let base = without_trailing_slashes(endpoint);
    let u = trimmed(url);
    lemma_trimmed_idempotent(url);
    lemma_trimmed_range(url);
    if !is_absolute_ref(u) {
        let r = base + u;
        assert(base.subrange(0, 7)[0] == 'h');
        assert(r[0] == base[0]);
        if u.len() > 0 {
            assert(r.last() == u.last());
        } else {
            assert(r =~= base);
        }
        lemma_trimmed_of_unpadded(r);
        if has_prefix(base, lit_http()) {
            assert(r.subrange(0, 7) =~= base.subrange(0, 7));
        } else {
            assert(r.subrange(0, 8) =~= base.subrange(0, 8));
        }
    }
}

/// `p` occurs somewhere in `s`.
pub open spec fn occurs_in(s: Seq<char>, p: Seq<char>) -> bool {
    exists|i: int| 0 <= i <= s.len() && #[trigger] has_prefix(s.skip(i), p)
}

proof fn lemma_no_occurrence_in_rest(s: Seq<char>, p: Seq<char>, k: int)
    requires
        !occurs_in(s, p),
        0 <= k <= s.len(),
    ensures
        !occurs_in(s.skip(k), p),
{
    if occurs_in(s.skip(k), p) {
        let i = choose|i: int| 0 <= i <= s.skip(k).len() && #[trigger] has_prefix(s.skip(k).skip(i), p);
        assert(s.skip(k).skip(i) =~= s.skip(k + i));
        assert(has_prefix(s.skip(k + i), p));
    }
}

proof fn lemma_img_src_identity(s: Seq<char>, base: Seq<char>)
    requires
        !occurs_in(s, lit_src_slash()),
    ensures
        img_src_rewritten(s, base) == s,
    decreases s.len(),
{
    if s.len() > 0 {
        assert(s.skip(0) =~= s);
        assert(!has_prefix(s.skip(0), lit_src_slash()));
        lemma_no_occurrence_in_rest(s, lit_src_slash(), 1);
        lemma_img_src_identity(s.skip(1), base);
        assert(seq![s[0]] + s.skip(1) =~= s);
    }
}

proof fn lemma_srcset_identity(s: Seq<char>, base: Seq<char>)
    requires
        !occurs_in(s, lit_srcset()),
    ensures
        srcset_rewritten(s, base) == s,
    decreases s.len(),
{
    if s.len() > 0 {
        assert(s.skip(0) =~= s);
        assert(!has_prefix(s.skip(0), lit_srcset()));
        lemma_no_occurrence_in_rest(s, lit_srcset(), 1);
        lemma_srcset_identity(s.skip(1), base);
        assert(seq![s[0]] + s.skip(1) =~= s);
    }
}

/// HTML without any `src="/` and without any `srcset="` comes back
/// unchanged: only those image references are rewritten (links such as
/// `href="/..."` are not).
pub proof fn law_img_paths_untouched_without_references(html: Seq<char>, endpoint: Seq<char>)
    requires
        !occurs_in(html, lit_src_slash()),
        !occurs_in(html, lit_srcset()),
    ensures
        img_paths_absolutized(html, endpoint) == html,
{
    let base = without_trailing_slashes(endpoint);
    lemma_img_src_identity(html, base);
    lemma_srcset_identity(html, base);
}

proof fn lemma_img_src_short(s: Seq<char>, base: Seq<char>)
    requires
        s.len() < 6,
    ensures
        img_src_rewritten(s, base) == s,
    decreases s.len(),
{
    if s.len() > 0 {
        lemma_img_src_short(s.skip(1), base);
        assert(seq![s[0]] + s.skip(1) =~= s);
    }
}

/// The `src` pass leaves the first five characters as they are.
proof fn lemma_img_src_keeps_prefix(s: Seq<char>, base: Seq<char>, n: int)
    requires
        0 <= n <= 5,
        n <= s.len(),
    ensures
        img_src_rewritten(s, base).len() >= n,
        img_src_rewritten(s, base).take(n) == s.take(n),
    decreases s.len(),
{
    let r = img_src_rewritten(s, base);
    if n == 0 {
        assert(r.take(0) =~= s.take(0));
    } else if has_prefix(s, lit_src_slash()) {
        assert(s.subrange(0, 6) == lit_src_slash());
        assert forall|j: int| 0 <= j < n implies r[j] == s[j] by {
            assert(s[j] == s.subrange(0, 6)[j]);
        }
        assert(r.take(n) =~= s.take(n));
    } else {
        lemma_img_src_keeps_prefix(s.skip(1), base, n - 1);
        let y = img_src_rewritten(s.skip(1), base);
        assert(r == seq![s[0]] + y);
        assert forall|j: int| 0 <= j < n implies r[j] == s[j] by {
            if j > 0 {
                assert(r[j] == y[j - 1]);
                assert(y[j - 1] == y.take(n - 1)[j - 1]);
                assert(s[j] == s.skip(1).take(n - 1)[j - 1]);
            }
        }
        assert(r.take(n) =~= s.take(n));
    }
}

/// Rewriting `t + u` where no `src="/` starts inside `t` rewrites `u` only.
proof fn lemma_img_src_passthrough(t: Seq<char>, u: Seq<char>, base: Seq<char>)
    requires
        forall|k: int| 0 <= k < t.len() ==> !has_prefix(#[trigger] (t + u).skip(k), lit_src_slash()),
    ensures
        img_src_rewritten(t + u, base) == t + img_src_rewritten(u, base),
    decreases t.len(),
{
    if t.len() == 0 {
        assert(t + u =~= u);
        assert(t + img_src_rewritten(u, base) =~= img_src_rewritten(u, base));
    } else {
        assert((t + u).skip(0) =~= t + u);
        assert(!has_prefix((t + u).skip(0), lit_src_slash()));
        let t1 = t.skip(1);
        assert((t + u).skip(1) =~= t1 + u);
        assert forall|k: int| 0 <= k < t1.len() implies !has_prefix(
            #[trigger] (t1 + u).skip(k),
            lit_src_slash(),
        ) by {
            assert((t1 + u).skip(k) =~= (t + u).skip(k + 1));
        }
        lemma_img_src_passthrough(t1, u, base);
        assert((t + u)[0] == t[0]);
        assert(seq![t[0]] + (t1 + img_src_rewritten(u, base)) =~= t + img_src_rewritten(u, base));
    }
}

proof fn lemma_img_src_idempotent(s: Seq<char>, base: Seq<char>)
    requires
        base.len() > 0,
        base[0] != '/',
        forall|j: int| 0 <= j < base.len() ==> base[j] != '"',
    ensures
        img_src_rewritten(img_src_rewritten(s, base), base) == img_src_rewritten(s, base),
    decreases s.len(),
{
    let p6 = lit_src_slash();
    if s.len() == 0 {
    } else if has_prefix(s, p6) {
        assert(s.subrange(0, 6) == p6);
        if has_prefix(s.skip(5), lit_two_slashes()) {
            let s6 = s.skip(6);
            assert(s.skip(5).subrange(0, 2) == lit_two_slashes());
            assert(s6[0] == s.skip(5)[1]);
            lemma_img_src_keeps_prefix(s6, base, 1);
            let y = img_src_rewritten(s6, base);
            assert(y[0] == y.take(1)[0]);
            assert(y[0] == '/');
            let t = p6 + y;
            assert(t.subrange(0, 6) =~= p6);
            assert(t.skip(5).subrange(0, 2) =~= lit_two_slashes()) by {
                assert(t.skip(5)[0] == '/');
                assert(t.skip(5)[1] == y[0]);
            }
            assert(t.skip(6) =~= y);
            lemma_img_src_idempotent(s6, base);
        } else {
            let s5 = s.skip(5);
            assert(s5[0] == '/');
            lemma_img_src_keeps_prefix(s5, base, 1);
            let y = img_src_rewritten(s5, base);
            assert(y[0] == y.take(1)[0]);
            let q = lit_src() + base;
            let t = q + y;
            assert(img_src_rewritten(s, base) == lit_src() + base + y);
            assert(lit_src() + base + y =~= t);
            assert forall|k: int| 0 <= k < q.len() implies !has_prefix(
                #[trigger] (q + y).skip(k),
                p6,
            ) by {
                let w = (q + y).skip(k);
                if has_prefix(w, p6) {
                    assert(w.subrange(0, 6) == p6);
                    assert(w[0] == p6[0]);
                    if k == 0 {
                        assert(w[5] == p6[5]);
                        assert(w[5] == base[0]);
                    } else if k < 5 {
                        assert(w[0] == lit_src()[k]);
                    } else {
                        let i = k - 5;
                        if i + 4 < base.len() {
                            assert(w[4] == p6[4]);
                            assert(w[4] == base[i + 4]);
                        } else {
                            let l = base.len() - i;
                            assert(1 <= l <= 4);
                            assert(w[l] == p6[l]);
                            assert(w[l] == y[0]);
                        }
                    }
                }
            }
            lemma_img_src_passthrough(q, y, base);
            lemma_img_src_idempotent(s5, base);
        }
    } else {
        let s1 = s.skip(1);
        let y = img_src_rewritten(s1, base);
        let t = seq![s[0]] + y;
        assert(img_src_rewritten(s, base) == t);
        if s.len() < 6 {
            lemma_img_src_short(s, base);
            lemma_img_src_short(s1, base);
            assert(t =~= s);
        } else {
            lemma_img_src_keeps_prefix(s1, base, 5);
            assert(t.subrange(0, 6) =~= s.subrange(0, 6)) by {
                assert forall|j: int| 0 <= j < 6 implies t[j] == s[j] by {
                    if j > 0 {
                        assert(t[j] == y[j - 1]);
                        assert(y[j - 1] == y.take(5)[j - 1]);
                        assert(s[j] == s1.take(5)[j - 1]);
                    }
                }
            }
            assert(!has_prefix(t, p6));
            assert(t.skip(1) =~= y);
            lemma_img_src_idempotent(s1, base);
        }
    }
}

/// The `src="/...` rewriting is idempotent: rewriting its own output again
/// changes nothing, for a base (the endpoint without its trailing slashes)
/// that is not empty, does not begin with `/` and holds no `"` (as an
/// `http://` or `https://` endpoint does).
pub proof fn law_img_src_rewrite_idempotent(html: Seq<char>, base: Seq<char>)
    requires
        base.len() > 0,
        base[0] != '/',
        forall|j: int| 0 <= j < base.len() ==> base[j] != '"',
    ensures
        img_src_rewritten(img_src_rewritten(html, base), base) == img_src_rewritten(html, base),
{
    lemma_img_src_idempotent(html, base);
}

/// A base that the `srcset` rewriting cannot confuse with its own syntax:
/// not empty, not beginning with `/`, and without `"`, `,` or white space.
pub open spec fn plain_base(base: Seq<char>) -> bool {
    &&& base.len() > 0
    &&& base[0] != '/'
    &&& forall|j: int|
        0 <= j < base.len() ==> #[trigger] base[j] != '"' && base[j] != ',' && !is_white(base[j])
}

/// No character of `s` is `,` or `"`.
pub open spec fn no_comma_or_quote(s: Seq<char>) -> bool {
    forall|j: int| 0 <= j < s.len() ==> #[trigger] s[j] != ',' && s[j] != '"'
}

/// White space that may stand before a candidate: nothing or one space.
pub open spec fn candidate_gap(p: Seq<char>) -> bool {
    p.len() == 0 || p == seq![' ']
}

proof fn lemma_first_white_index_facts(s: Seq<char>)
    ensures
        match first_white_index(s) {
            Some(i) => 0 <= i < s.len() && is_white(s[i]) && forall|j: int|
                0 <= j < i ==> !is_white(#[trigger] s[j]),
            None => forall|j: int| 0 <= j < s.len() ==> !is_white(#[trigger] s[j]),
        },
    decreases s.len(),
{
    if s.len() > 0 && !is_white(s[0]) {
        lemma_first_white_index_facts(s.skip(1));
        match first_white_index(s.skip(1)) {
            Some(i) => {
                assert forall|j: int| 0 <= j < i + 1 implies !is_white(#[trigger] s[j]) by {
                    if j > 0 {
                        assert(s[j] == s.skip(1)[j - 1]);
                    }
                }
            },
            None => {
                assert forall|j: int| 0 <= j < s.len() implies !is_white(#[trigger] s[j]) by {
                    if j > 0 {
                        assert(s[j] == s.skip(1)[j - 1]);
                    }
                }
            },
        }
    }
}

/// A gap before an unpadded text is trimmed away.
proof fn lemma_trimmed_after_gap(p: Seq<char>, o: Seq<char>)
    requires
        candidate_gap(p),
        o.len() > 0 ==> !is_white(o[0]) && !is_white(o.last()),
    ensures
        trimmed(p + o) == o,
{
    if o.len() == 0 {
        assert(p + o =~= p);
        crate::text::lemma_trimmed_empty(p);
        assert forall|j: int| 0 <= j < p.len() implies is_white(#[trigger] p[j]) by {}
    } else {
        let w = p + o;
        assert forall|j: int| 0 <= j < p.len() implies is_white(#[trigger] w[j]) by {}
        assert(w[p.len() as int] == o[0]);
        crate::text::lemma_trim_start_at(w, p.len() as int);
        assert(w.skip(p.len() as int) =~= o);
        crate::text::lemma_trim_end_at(o, o.len() as int);
        assert(o.take(o.len() as int) =~= o);
    }
}

/// A rewritten candidate has no `,` or `"`, and rewriting it again (after
/// a gap) gives it back.
proof fn lemma_candidate_stable(c: Seq<char>, p: Seq<char>, base: Seq<char>)
    requires
        plain_base(base),
        no_comma_or_quote(c),
        candidate_gap(p),
    ensures
        no_comma_or_quote(srcset_candidate_rewritten(c, base)),
        srcset_candidate_rewritten(p + srcset_candidate_rewritten(c, base), base)
            == srcset_candidate_rewritten(c, base),
{
    let t = trimmed(c);
    lemma_trimmed_range(c);
    let (a, b) = choose|a: int, b: int| 0 <= a <= b <= c.len() && trimmed(c) == #[trigger] c.subrange(a, b);
    assert forall|j: int| 0 <= j < t.len() implies #[trigger] t[j] != ',' && t[j] != '"' by {
        assert(t[j] == c[a + j]);
    }
    let o = srcset_candidate_rewritten(c, base);
    lemma_first_white_index_facts(t);
    match first_white_index(t) {
        Some(k) => {
            let url = t.take(k);
            let rest = t.skip(k + 1);
            let h = host_relative_joined(url, base);
            assert(k >= 1);
            assert(k < t.len() - 1);
            assert(o == h + seq![' '] + rest);
            assert(forall|j: int| 0 <= j < h.len() ==> !is_white(#[trigger] h[j]) && h[j] != ','
                && h[j] != '"') by {
                assert forall|j: int| 0 <= j < h.len() implies !is_white(#[trigger] h[j]) && h[j]
                    != ',' && h[j] != '"' by {
                    if h == base + url {
                        if j >= base.len() {
                            assert(h[j] == url[j - base.len()]);
                        } else {
                            assert(h[j] == base[j]);
                        }
                    } else {
                        assert(h[j] == url[j]);
                    }
                }
            }
            assert(h.len() > 0);
            assert(no_comma_or_quote(o)) by {
                assert forall|j: int| 0 <= j < o.len() implies #[trigger] o[j] != ',' && o[j]
                    != '"' by {
                    if j < h.len() {
                        assert(o[j] == h[j]);
                    } else if j > h.len() {
                        assert(o[j] == rest[j - h.len() - 1]);
                        assert(rest[j - h.len() - 1] == t[j - h.len() + k]);
                    }
                }
            }
            assert(o[0] == h[0]);
            assert(o.last() == t.last());
            lemma_trimmed_after_gap(p, o);
            lemma_trimmed_after_gap(Seq::empty(), o);
            assert(Seq::<char>::empty() + o =~= o);
            crate::text::lemma_first_white_index(o, h.len() as int);
            assert(o.take(h.len() as int) =~= h);
            assert(o.skip(h.len() as int + 1) =~= rest);
            assert(host_relative_joined(h, base) == h) by {
                if h == base + url {
                    assert(h[0] == base[0]);
                    assert(!has_prefix(h, seq!['/'])) by {
                        if has_prefix(h, seq!['/']) {
                            assert(h.subrange(0, 1)[0] == h[0]);
                        }
                    }
                }
            }
            assert(srcset_candidate_rewritten(p + o, base) == srcset_candidate_rewritten(o, base));
        },
        None => {
            let h = host_relative_joined(t, base);
            assert(o == h);
            assert forall|j: int| 0 <= j < h.len() implies !is_white(#[trigger] h[j]) && h[j]
                != ',' && h[j] != '"' by {
                if h == base + t {
                    if j >= base.len() {
                        assert(h[j] == t[j - base.len()]);
                    } else {
                        assert(h[j] == base[j]);
                    }
                } else {
                    assert(h[j] == t[j]);
                }
            }
            lemma_trimmed_after_gap(p, o);
            lemma_trimmed_after_gap(Seq::empty(), o);
            assert(Seq::<char>::empty() + o =~= o);
            crate::text::lemma_first_white_index(o, o.len() as int);
            assert(host_relative_joined(h, base) == h) by {
                if h == base + t {
                    assert(h[0] == base[0]);
                    assert(!has_prefix(h, seq!['/'])) by {
                        if has_prefix(h, seq!['/']) {
                            assert(h.subrange(0, 1)[0] == h[0]);
                        }
                    }
                }
            }
            assert(srcset_candidate_rewritten(p + o, base) == srcset_candidate_rewritten(o, base));
        },
    }
}

/// A rewritten `srcset` value has no `"`, and rewriting it again (after a
/// gap) gives it back.
proof fn lemma_srcset_value_stable(v: Seq<char>, p: Seq<char>, base: Seq<char>)
    requires
        plain_base(base),
        candidate_gap(p),
        forall|j: int| 0 <= j < v.len() ==> #[trigger] v[j] != '"',
    ensures
        forall|j: int|
            0 <= j < srcset_value_rewritten(v, base).len() ==> #[trigger] srcset_value_rewritten(
                v,
                base,
            )[j] != '"',
        srcset_value_rewritten(p + srcset_value_rewritten(v, base), base)
            == srcset_value_rewritten(v, base),
    decreases v.len(),
{
    let r = srcset_value_rewritten(v, base);
    crate::text::lemma_first_index_of_facts(v, ',');
    match first_index_of(v, ',') {
        Some(i) => {
            let c0 = v.take(i);
            let v1 = v.skip(i + 1);
            assert(no_comma_or_quote(c0)) by {
                assert forall|j: int| 0 <= j < c0.len() implies #[trigger] c0[j] != ',' && c0[j]
                    != '"' by {
                    assert(c0[j] == v[j]);
                }
            }
            assert forall|j: int| 0 <= j < v1.len() implies #[trigger] v1[j] != '"' by {
                assert(v1[j] == v[j + i + 1]);
            }
            lemma_candidate_stable(c0, p, base);
            lemma_srcset_value_stable(v1, seq![' '], base);
            let o0 = srcset_candidate_rewritten(c0, base);
            let rr = srcset_value_rewritten(v1, base);
            assert(r == o0 + seq![',', ' '] + rr);
            assert forall|j: int| 0 <= j < r.len() implies #[trigger] r[j] != '"' by {
                if j < o0.len() {
                    assert(r[j] == o0[j]);
                } else if j >= o0.len() + 2 {
                    assert(r[j] == rr[j - o0.len() - 2]);
                }
            }
            let w = p + r;
            let n: int = (p.len() + o0.len()) as int;
            assert forall|j: int| 0 <= j < n implies #[trigger] w[j] != ',' by {
                if j >= p.len() {
                    assert(w[j] == o0[j - p.len()]);
                }
            }
            assert(w[n] == ',');
            crate::text::lemma_first_index_of(w, ',', n);
            assert(w.take(n) =~= p + o0);
            assert(w.skip(n + 1) =~= seq![' '] + rr);
        },
        None => {
            assert(no_comma_or_quote(v));
            lemma_candidate_stable(v, p, base);
            let w = p + r;
            assert forall|j: int| 0 <= j < w.len() implies #[trigger] w[j] != ',' by {
                if j >= p.len() {
                    assert(w[j] == r[j - p.len()]);
                }
            }
            crate::text::lemma_first_index_of(w, ',', w.len() as int);
        },
    }
}

proof fn lemma_srcset_short(s: Seq<char>, base: Seq<char>)
    requires
        s.len() < 8,
    ensures
        srcset_rewritten(s, base) == s,
    decreases s.len(),
{
    if s.len() > 0 {
        lemma_srcset_short(s.skip(1), base);
        assert(seq![s[0]] + s.skip(1) =~= s);
    }
}

/// The `srcset` pass leaves the first eight characters as they are.
proof fn lemma_srcset_keeps_prefix(s: Seq<char>, base: Seq<char>, n: int)
    requires
        0 <= n <= 8,
        n <= s.len(),
    ensures
        srcset_rewritten(s, base).len() >= n,
        srcset_rewritten(s, base).take(n) == s.take(n),
    decreases s.len(),
{
    let r = srcset_rewritten(s, base);
    if n == 0 {
        assert(r.take(0) =~= s.take(0));
    } else if has_prefix(s, lit_srcset()) {
        assert(s.subrange(0, 8) == lit_srcset());
        if r != s {
            assert forall|j: int| 0 <= j < n implies r[j] == s[j] by {
                assert(s[j] == s.subrange(0, 8)[j]);
            }
        }
        assert(r.take(n) =~= s.take(n));
    } else {
        lemma_srcset_keeps_prefix(s.skip(1), base, n - 1);
        let y = srcset_rewritten(s.skip(1), base);
        assert(r == seq![s[0]] + y);
        assert forall|j: int| 0 <= j < n implies r[j] == s[j] by {
            if j > 0 {
                assert(r[j] == y[j - 1]);
                assert(y[j - 1] == y.take(n - 1)[j - 1]);
                assert(s[j] == s.skip(1).take(n - 1)[j - 1]);
            }
        }
        assert(r.take(n) =~= s.take(n));
    }
}

proof fn lemma_srcset_idempotent(s: Seq<char>, base: Seq<char>)
    requires
        plain_base(base),
    ensures
        srcset_rewritten(srcset_rewritten(s, base), base) == srcset_rewritten(s, base),
    decreases s.len(),
{
    let l8 = lit_srcset();
    if s.len() == 0 {
    } else if has_prefix(s, l8) {
        let after = s.skip(8);
        crate::text::lemma_first_index_of_facts(after, '"');
        match first_index_of(after, '"') {
            Some(e) => {
                let v = after.take(e);
                let rest = after.skip(e + 1);
                assert forall|j: int| 0 <= j < v.len() implies #[trigger] v[j] != '"' by {
                    assert(v[j] == after[j]);
                }
                lemma_srcset_value_stable(v, Seq::empty(), base);
                assert(Seq::<char>::empty() + srcset_value_rewritten(v, base)
                    =~= srcset_value_rewritten(v, base));
                let o = srcset_value_rewritten(v, base);
                let y = srcset_rewritten(rest, base);
                let t = l8 + o + seq!['"'] + y;
                assert(srcset_rewritten(s, base) == t);
                assert(t.subrange(0, 8) =~= l8);
                let after2 = t.skip(8);
                assert(after2 =~= o + seq!['"'] + y);
                assert forall|j: int| 0 <= j < o.len() implies #[trigger] after2[j] != '"' by {
                    assert(after2[j] == o[j]);
                }
                assert(after2[o.len() as int] == '"');
                crate::text::lemma_first_index_of(after2, '"', o.len() as int);
                assert(after2.take(o.len() as int) =~= o);
                assert(after2.skip(o.len() as int + 1) =~= y);
                lemma_srcset_idempotent(rest, base);
            },
            None => {},
        }
    } else {
        let s1 = s.skip(1);
        let y = srcset_rewritten(s1, base);
        let t = seq![s[0]] + y;
        assert(srcset_rewritten(s, base) == t);
        if s.len() < 8 {
            lemma_srcset_short(s, base);
            lemma_srcset_short(s1, base);
            assert(t =~= s);
        } else {
            lemma_srcset_keeps_prefix(s1, base, 7);
            assert(t.subrange(0, 8) =~= s.subrange(0, 8)) by {
                assert forall|j: int| 0 <= j < 8 implies t[j] == s[j] by {
                    if j > 0 {
                        assert(t[j] == y[j - 1]);
                        assert(y[j - 1] == y.take(7)[j - 1]);
                        assert(s[j] == s1.take(7)[j - 1]);
                    }
                }
            }
            assert(!has_prefix(t, l8));
            assert(t.skip(1) =~= y);
            lemma_srcset_idempotent(s1, base);
        }
    }
}

/// The `srcset` rewriting is idempotent, for a base (the endpoint without
/// its trailing slashes) that is not empty, does not begin with `/` and has
/// no `"`, `,` or white space.
pub proof fn law_srcset_rewrite_idempotent(html: Seq<char>, base: Seq<char>)
    requires
        plain_base(base),
    ensures
        srcset_rewritten(srcset_rewritten(html, base), base) == srcset_rewritten(html, base),
{
    lemma_srcset_idempotent(html, base);
}

/// Rewriting image paths twice is rewriting them once, for an endpoint whose
/// base (without trailing slashes) is not empty, does not begin with `/`
/// and has no `"`, `,` or white space, and for HTML whose rewritten form
/// holds no new `src="/...` to rewrite. That last case does arise: trimming
/// a `srcset` candidate can leave `src=` right before the attribute's
/// closing quote, and a `/` after that quote then forms a new `src="/`.
pub proof fn law_img_paths_idempotent(html: Seq<char>, endpoint: Seq<char>)
    requires
        plain_base(without_trailing_slashes(endpoint)),
        img_src_rewritten(img_paths_absolutized(html, endpoint), without_trailing_slashes(endpoint))
            == img_paths_absolutized(html, endpoint),
    ensures
        img_paths_absolutized(img_paths_absolutized(html, endpoint), endpoint)
            == img_paths_absolutized(html, endpoint),
{
    let base = without_trailing_slashes(endpoint);
    lemma_srcset_idempotent(img_src_rewritten(html, base), base);
}

/// Every complete `srcset="..."` attribute is rewritten, not only the
/// first: rewriting HTML that begins with such an attribute is rewriting
/// the attribute, followed by rewriting the rest.
pub proof fn law_srcset_rewrites_each_attribute(v: Seq<char>, rest: Seq<char>, base: Seq<char>)
    requires
        forall|j: int| 0 <= j < v.len() ==> #[trigger] v[j] != '"',
    ensures
        srcset_rewritten(lit_srcset() + v + seq!['"'] + rest, base) == srcset_rewritten(
            lit_srcset() + v + seq!['"'],
            base,
        ) + srcset_rewritten(rest, base),
{
    let a = lit_srcset() + v + seq!['"'];
    let s = a + rest;
    assert(lit_srcset() + v + seq!['"'] + rest =~= s);
    assert(s.subrange(0, 8) =~= lit_srcset());
    assert(a.subrange(0, 8) =~= lit_srcset());
    let after = s.skip(8);
    assert(after =~= v + seq!['"'] + rest);
    assert(a.skip(8) =~= v + seq!['"']);
    crate::text::lemma_first_index_of(after, '"', v.len() as int);
    crate::text::lemma_first_index_of(a.skip(8), '"', v.len() as int);
    assert(after.take(v.len() as int) =~= v);
    assert(a.skip(8).take(v.len() as int) =~= v);
    assert(after.skip(v.len() as int + 1) =~= rest);
    assert(a.skip(8).skip(v.len() as int + 1) =~= Seq::<char>::empty());
    assert(srcset_rewritten(Seq::<char>::empty(), base) == Seq::<char>::empty());
    assert(srcset_rewritten(a, base) =~= lit_srcset() + srcset_value_rewritten(v, base) + seq![
        '"',
    ]);
}

/// The candidates of a `srcset` value are rewritten one by one: a value
/// that begins with a candidate `c` and a comma is the rewritten candidate,
/// `", "`, and the rest of the value rewritten.
pub proof fn law_srcset_value_each_candidate(c: Seq<char>, v: Seq<char>, base: Seq<char>)
    requires
        forall|j: int| 0 <= j < c.len() ==> #[trigger] c[j] != ',',
    ensures
        srcset_value_rewritten(c + seq![','] + v, base) == srcset_value_rewritten(c, base) + seq![
            ',',
            ' ',
        ] + srcset_value_rewritten(v, base),
{
    let w = c + seq![','] + v;
    crate::text::lemma_first_index_of(w, ',', c.len() as int);
    crate::text::lemma_first_index_of(c, ',', c.len() as int);
    assert(w.take(c.len() as int) =~= c);
    assert(w.skip(c.len() as int + 1) =~= v);
}

/// A host-relative candidate (one slash, then no `,`, `"` or white space)
/// is joined to the base.
pub proof fn law_srcset_host_relative_joined(u: Seq<char>, base: Seq<char>)
    requires
        u.len() >= 1,
        u[0] == '/',
        u.len() == 1 || u[1] != '/',
        forall|j: int| 0 <= j < u.len() ==> #[trigger] u[j] != ',' && u[j] != '"' && !is_white(u[j]),
    ensures
        srcset_value_rewritten(u, base) == base + u,
        srcset_rewritten(lit_srcset() + u + seq!['"'], base) == lit_srcset() + base + u + seq!['"'],
{
    crate::text::lemma_first_index_of(u, ',', u.len() as int);
    lemma_trimmed_of_unpadded(u);
    crate::text::lemma_first_white_index(u, u.len() as int);
    assert(has_prefix(u, seq!['/'])) by {
        assert(u.subrange(0, 1) =~= seq!['/']);
    }
    assert(!has_prefix(u, lit_two_slashes())) by {
        if has_prefix(u, lit_two_slashes()) {
            assert(u.subrange(0, 2)[1] == u[1]);
        }
    }
    law_srcset_rewrites_each_attribute(u, Seq::empty(), base);
    assert(lit_srcset() + u + seq!['"'] + Seq::<char>::empty() =~= lit_srcset() + u + seq!['"']);
    let a = lit_srcset() + u + seq!['"'];
    assert(a.subrange(0, 8) =~= lit_srcset());
    assert(a.skip(8) =~= u + seq!['"']);
    crate::text::lemma_first_index_of(a.skip(8), '"', u.len() as int);
    assert(a.skip(8).take(u.len() as int) =~= u);
    assert(a.skip(8).skip(u.len() as int + 1) =~= Seq::<char>::empty());
    assert(srcset_rewritten(Seq::<char>::empty(), base) == Seq::<char>::empty());
    assert(srcset_rewritten(a, base) =~= lit_srcset() + base + u + seq!['"']);
}

} // verus!
