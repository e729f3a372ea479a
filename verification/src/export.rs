//! Markdown export: the file name derived from an article's title and the
//! document written for each article.
use vstd::prelude::*;

use crate::medium::{lowercased, to_lowercase};
use crate::render::{html_to_markdown, markdown_text};
use crate::search::{alphanumeric, is_alphanumeric};
use crate::text::{
    append_chars, append_str, chars_of, is_white, join_words, joined_with, string_of, word_if_any,
    words_from,
};
use vstd::utf8::{decode_utf8, encode_utf8, is_char_boundary};

verus! {

/// A title character as it may stand in a file name: alphanumerics,
/// spaces and hyphens are kept, anything else becomes `_`.
pub open spec fn file_name_char(c: char) -> char {
    if alphanumeric(c) || c == ' ' || c == '-' {
        c
    } else {
        '_'
    }
}

/// The title's words (after the character mapping), joined with `-`.
pub open spec fn dashed_title(title: Seq<char>) -> Seq<char> {
    joined_with(words_from(title.map_values(|c: char| file_name_char(c)), Seq::empty()), seq!['-'])
}

/// The lower-cased dashed title, in full when its UTF-8 encoding has at
/// most 50 bytes, else its first 50 bytes; `None` when byte 50 falls inside
/// a character (where slicing the string would panic).
pub open spec fn export_stem(title: Seq<char>) -> Option<Seq<char>> {
    let lower = lowercased(dashed_title(title));
    let bytes = encode_utf8(lower);
    if bytes.len() <= 50 {
        Some(lower)
    } else if is_char_boundary(bytes, 50) {
        Some(decode_utf8(bytes.subrange(0, 50)))
    } else {
        None
    }
}

/// The Markdown file name for an article title (`<stem>.md`), or `None`
/// when the title's stem cannot be cut at 50 bytes.
pub fn export_file_name(title: &str) -> (r: Option<String>)
    ensures
        match export_stem(title@) {
            Some(stem) => r matches Some(name) && name@ == stem + ".md"@,
            None => r is None,
        },
{
    let tv = chars_of(title);
    let mut mapped: Vec<char> = Vec::new();
    let mut i: usize = 0;
    while i < tv.len()
        invariant
            i <= tv@.len(),
            mapped@ == tv@.take(i as int).map_values(|c: char| file_name_char(c)),
        decreases tv@.len() - i,
    {
        let c = tv[i];
        let m = if is_alphanumeric(c) || c == ' ' || c == '-' {
            c
        } else {
            '_'
        };
        mapped.push(m);
        assert(tv@.take(i + 1).map_values(|c: char| file_name_char(c)) =~= tv@.take(
            i as int,
        ).map_values(|c: char| file_name_char(c)).push(file_name_char(c)));
        i = i + 1;
    }
    assert(mapped@ =~= title@.map_values(|c: char| file_name_char(c)));
    let dash = vec!['-'];
    assert(dash@ =~= seq!['-']);
    let dashed = join_words(&mapped, &dash);
    let dashed_s = string_of(&dashed);
    let lower = to_lowercase(dashed_s.as_str());
    let l = lower.as_str();
    let byte_len = l.as_bytes().len();
    let stem: String = if byte_len <= 50 {
        l.to_string()
    } else if l.is_char_boundary(50) {
        let (head, _) = l.split_at(50);
        proof {
            vstd::utf8::encode_utf8_decode_utf8(head@);
        }
        head.to_string()
    } else {
        return None;
    };
    let mut name = chars_of(stem.as_str());
    append_str(&mut name, ".md");
    Some(string_of(&name))
}

/// The exported Markdown document of an article.
pub open spec fn markdown_document(
    title: Seq<char>,
    author: Seq<char>,
    url: Seq<char>,
    saved: Seq<char>,
    content_html: Seq<char>,
) -> Seq<char> {
    "# "@ + title + "\n\nBy: "@ + author + "\nURL: "@ + url + "\nSaved: "@ + saved
        + "\n\n---\n\n"@ + markdown_text(content_html)
}

/// The Markdown document written for an article: title, author, URL, the
/// time it was saved (already formatted), a rule, and the body rendered by
/// [`html_to_markdown`].
pub fn export_markdown(title: &str, author: &str, url: &str, saved: &str, content_html: &str) -> (r:
    String)
    ensures
        r@ == markdown_document(title@, author@, url@, saved@, content_html@),
{
    let mut out: Vec<char> = Vec::new();
    append_str(&mut out, "# ");
    append_str(&mut out, title);
    append_str(&mut out, "\n\nBy: ");
    append_str(&mut out, author);
    append_str(&mut out, "\nURL: ");
    append_str(&mut out, url);
    append_str(&mut out, "\nSaved: ");
    append_str(&mut out, saved);
    append_str(&mut out, "\n\n---\n\n");
    let body = html_to_markdown(content_html);
    append_str(&mut out, body.as_str());
    string_of(&out)
}

/// A title character outside white space as it stands in a file name:
/// alphanumeric characters and `-` are kept, anything else becomes `_`.
pub open spec fn kept_or_underscore(c: char) -> char {
    if alphanumeric(c) || c == '-' {
        c
    } else {
        '_'
    }
}

proof fn lemma_words_of_word(a: Seq<char>, word: Seq<char>, r: Seq<char>, spaced: bool)
    requires
        forall|j: int| 0 <= j < a.len() ==> !is_white(#[trigger] a[j]),
        spaced ==> r.len() > 0 && is_white(r[0]),
        !spaced ==> r.len() == 0,
    ensures
        words_from(a + r, word) == if spaced {
            word_if_any(word + a) + words_from(r.skip(1), Seq::empty())
        } else {
            word_if_any(word + a)
        },
    decreases a.len(),
{
    if a.len() == 0 {
        assert(a + r =~= r);
        assert(word + a =~= word);
    } else {
        assert((a + r)[0] == a[0]);
        assert((a + r).skip(1) =~= a.skip(1) + r);
        assert forall|j: int| 0 <= j < a.skip(1).len() implies !is_white(#[trigger] a.skip(1)[j]) by {
            assert(a.skip(1)[j] == a[j + 1]);
        }
        lemma_words_of_word(a.skip(1), word.push(a[0]), r, spaced);
        assert(word.push(a[0]) + a.skip(1) =~= word + a);
    }
}

proof fn lemma_words_nonempty(s: Seq<char>, word: Seq<char>)
    ensures
        forall|k: int|
            0 <= k < words_from(s, word).len() ==> #[trigger] words_from(s, word)[k].len() > 0,
    decreases s.len(),
{
    let a = word_if_any(word);
    assert(forall|k: int| 0 <= k < a.len() ==> #[trigger] a[k].len() > 0) by {
        if word.len() > 0 {
            assert(a =~= seq![word]);
        } else {
            assert(a =~= Seq::<Seq<char>>::empty());
        }
    }
    if s.len() == 0 {
        assert(words_from(s, word) == a);
    } else if is_white(s[0]) {
        lemma_words_nonempty(s.skip(1), Seq::empty());
        let b = words_from(s.skip(1), Seq::empty());
        assert(words_from(s, word) == a + b);
        assert forall|k: int| 0 <= k < (a + b).len() implies #[trigger] (a + b)[k].len() > 0 by {
            if k >= a.len() {
                assert((a + b)[k] == b[k - a.len()]);
            } else {
                assert((a + b)[k] == a[k]);
            }
        }
    } else {
        lemma_words_nonempty(s.skip(1), word.push(s[0]));
        assert(words_from(s, word) == words_from(s.skip(1), word.push(s[0])));
    }
}

proof fn lemma_joined_empty(ts: Seq<Seq<char>>, sep: Seq<char>)
    requires
        forall|k: int| 0 <= k < ts.len() ==> #[trigger] ts[k].len() > 0,
    ensures
        joined_with(ts, sep).len() == 0 <==> ts.len() == 0,
{
    if ts.len() > 1 {
        assert(ts[0].len() > 0);
    } else if ts.len() == 1 {
        assert(ts[0].len() > 0);
    }
}

/// A title word (no white space) becomes, in the file name, the word with
/// each character kept when it is alphanumeric (digits included) or `-`,
/// and `_` in place of any other.
pub proof fn law_file_name_word(w: Seq<char>)
    requires
        forall|j: int| 0 <= j < w.len() ==> !is_white(#[trigger] w[j]),
    ensures
        dashed_title(w) == w.map_values(|c: char| kept_or_underscore(c)),
{
    let m = w.map_values(|c: char| file_name_char(c));
    assert forall|j: int| 0 <= j < m.len() implies !is_white(#[trigger] m[j]) by {}
    lemma_words_of_word(m, Seq::empty(), Seq::empty(), false);
    assert(m + Seq::<char>::empty() =~= m);
    assert(Seq::<char>::empty() + m =~= m);
    assert(m =~= w.map_values(|c: char| kept_or_underscore(c)));
}

/// The words of a title, separated by a space, are joined with `-` in the
/// file name: a first word, a space and the rest give the first word's form
/// (see [`law_file_name_word`]), then `-` and the rest's form, unless the
/// rest has no word.
pub proof fn law_file_name_words_dashed(w: Seq<char>, rest: Seq<char>)
    requires
        w.len() > 0,
        forall|j: int| 0 <= j < w.len() ==> !is_white(#[trigger] w[j]),
    ensures
        dashed_title(w + seq![' '] + rest) == ({
            let m = w.map_values(|c: char| kept_or_underscore(c));
            let d = dashed_title(rest);
            if d.len() == 0 {
                m
            } else {
                m + seq!['-'] + d
            }
        }),
{
    let f = |c: char| file_name_char(c);
    let t = w + seq![' '] + rest;
    let mw = w.map_values(f);
    let mr = rest.map_values(f);
    let r = seq![' '] + mr;
    assert(t.map_values(f) =~= mw + r);
    assert forall|j: int| 0 <= j < mw.len() implies !is_white(#[trigger] mw[j]) by {}
    lemma_words_of_word(mw, Seq::empty(), r, true);
    assert(r.skip(1) =~= mr);
    assert(Seq::<char>::empty() + mw =~= mw);
    assert(mw =~= w.map_values(|c: char| kept_or_underscore(c)));
    let ws = words_from(mr, Seq::empty());
    lemma_words_nonempty(mr, Seq::empty());
    lemma_joined_empty(ws, seq!['-']);
    let all = seq![mw] + ws;
    assert(word_if_any(mw) + ws =~= all);
    if ws.len() == 0 {
        assert(all =~= seq![mw]);
    } else {
        assert(all[0] == mw);
        assert(all.skip(1) =~= ws);
    }
}

} // verus!
