//! The full-text search query handed to SQLite FTS5: each word of the
//! user's query, stripped of every character FTS5 could read as syntax,
//! quoted and given a prefix wildcard.
use vstd::prelude::*;

use crate::text::{chars_of, is_white, is_whitespace_char, joined_with, lemma_joined_with_push, string_of};

verus! {

/// What `char::is_alphanumeric` gives for a character.
pub uninterp spec fn alphanumeric(c: char) -> bool;

/// std: `char::is_alphanumeric`. The contract claims only that the result
/// is `alphanumeric` of the argument.
#[verifier::external_body]
pub(crate) fn is_alphanumeric(c: char) -> (b: bool)
    ensures
        b == alphanumeric(c),
{
    c.is_alphanumeric()
}

/// A character kept in a search word: alphanumeric, `_` or `'`.
pub open spec fn kept_in_search_word(c: char) -> bool {
    alphanumeric(c) || c == '_' || c == '\''
}

/// `"word"*`: a quoted word with FTS5's prefix wildcard.
pub open spec fn prefix_term(w: Seq<char>) -> Seq<char> {
    seq!['"'] + w + seq!['"', '*']
}

/// The term for a sanitized word, or none for an empty one.
pub open spec fn term_if_any(w: Seq<char>) -> Seq<Seq<char>> {
    if w.len() == 0 {
        Seq::empty()
    } else {
        seq![prefix_term(w)]
    }
}

/// The terms of `s` (split at white space), `word` being the kept
/// characters of the word read so far.
pub open spec fn search_terms(s: Seq<char>, word: Seq<char>) -> Seq<Seq<char>>
    decreases s.len(),
{
    if s.len() == 0 {
        term_if_any(word)
    } else if is_white(s[0]) {
        term_if_any(word) + search_terms(s.skip(1), Seq::empty())
    } else if kept_in_search_word(s[0]) {
        search_terms(s.skip(1), word.push(s[0]))
    } else {
        search_terms(s.skip(1), word)
    }
}

/// The FTS5 query for what the user typed.
pub open spec fn fts_query(query: Seq<char>) -> Seq<char> {
    joined_with(search_terms(query, Seq::empty()), seq![' '])
}

/// Build the FTS5 query for a search: each whitespace-separated word keeps
/// only its alphanumeric characters, `_` and `'`; words left empty are
/// dropped; each remaining word becomes `"word"*`; the terms are joined with
/// single spaces. An empty result means there is nothing to search for.
pub fn fts_match_query(query: &str) -> (r: String)
    ensures
        r@ == fts_query(query@),
{
    let s = chars_of(query);
    let mut out: Vec<char> = Vec::new();
    let mut terms: Ghost<Seq<Seq<char>>> = Ghost(Seq::empty());
    let mut word: Vec<char> = Vec::new();
    let mut i: usize = 0;
    assert(s@.skip(0) =~= s@);
    while i < s.len()
        invariant
            i <= s@.len(),
            out@ == joined_with(terms@, seq![' ']),
            out@.len() > 0 <==> terms@.len() > 0,
            terms@ + search_terms(s@.skip(i as int), word@) == search_terms(s@, Seq::empty()),
        decreases s.len() - i,
    {
        let c = s[i];
        let ghost rest = s@.skip(i as int);
        assert(rest.skip(1) =~= s@.skip(i + 1));
        if is_whitespace_char(c) {
            if word.len() > 0 {
                let ghost term = prefix_term(word@);
                proof {
                    lemma_joined_with_push(terms@, seq![' '], term);
                }
                if out.len() > 0 {
                    out.push(' ');
                }
                out.push('"');
                crate::text::append_chars(&mut out, &word);
                out.push('"');
                out.push('*');
                assert(out@ =~= joined_with(terms@.push(term), seq![' ']));
                assert(term_if_any(word@) =~= seq![term]);
                assert(terms@ + search_terms(rest, word@) =~= terms@.push(term) + search_terms(
                    s@.skip(i + 1),
                    Seq::empty(),
                ));
                proof {
                    terms@ = terms@.push(term);
                }
                word = Vec::new();
            } else {
                assert(term_if_any(word@) =~= Seq::<Seq<char>>::empty());
                assert(terms@ + search_terms(rest, word@) =~= terms@ + search_terms(
                    s@.skip(i + 1),
                    Seq::empty(),
                ));
                word = Vec::new();
            }
        } else if is_alphanumeric(c) || c == '_' || c == '\'' {
            word.push(c);
        }
        i = i + 1;
    }
    assert(s@.skip(i as int) =~= Seq::<char>::empty());
    if word.len() > 0 {
        let ghost term = prefix_term(word@);
        proof {
            lemma_joined_with_push(terms@, seq![' '], term);
        }
        if out.len() > 0 {
            out.push(' ');
        }
        out.push('"');
        crate::text::append_chars(&mut out, &word);
        out.push('"');
        out.push('*');
        assert(out@ =~= joined_with(terms@.push(term), seq![' ']));
        assert(term_if_any(word@) =~= seq![term]);
        proof {
            terms@ = terms@.push(term);
        }
    } else {
        assert(term_if_any(word@) =~= Seq::<Seq<char>>::empty());
    }
    assert(terms@ =~= search_terms(s@, Seq::empty()));
    string_of(&out)
}

/// A term `"w"*` whose word `w` is not empty and holds only kept characters.
pub open spec fn is_quoted_word(t: Seq<char>) -> bool {
    &&& t.len() >= 4
    &&& t[0] == '"'
    &&& t[t.len() - 2] == '"'
    &&& t[t.len() - 1] == '*'
    &&& forall|j: int| 1 <= j < t.len() - 2 ==> kept_in_search_word(#[trigger] t[j])
}

proof fn lemma_term_if_any_quoted(word: Seq<char>)
    requires
        forall|j: int| 0 <= j < word.len() ==> kept_in_search_word(#[trigger] word[j]),
    ensures
        forall|i: int| 0 <= i < term_if_any(word).len() ==> is_quoted_word(#[trigger] term_if_any(word)[i]),
{
    if word.len() > 0 {
        let t = prefix_term(word);
        assert forall|j: int| 1 <= j < t.len() - 2 implies kept_in_search_word(#[trigger] t[j]) by {
            assert(t[j] == word[j - 1]);
        }
        assert(t[0] == '"');
        assert(t[t.len() - 2] == '"');
        assert(t[t.len() - 1] == '*');
        assert(is_quoted_word(t));
        assert(term_if_any(word) =~= seq![t]);
    }
}

proof fn lemma_search_terms_quoted(s: Seq<char>, word: Seq<char>)
    requires
        forall|j: int| 0 <= j < word.len() ==> kept_in_search_word(#[trigger] word[j]),
    ensures
        forall|i: int|
            0 <= i < search_terms(s, word).len() ==> is_quoted_word(
                #[trigger] search_terms(s, word)[i],
            ),
    decreases s.len(),
{
    lemma_term_if_any_quoted(word);
    if s.len() > 0 {
        if is_white(s[0]) {
            lemma_search_terms_quoted(s.skip(1), Seq::empty());
            let a = term_if_any(word);
            let b = search_terms(s.skip(1), Seq::empty());
            assert(search_terms(s, word) == a + b);
            assert forall|i: int| 0 <= i < (a + b).len() implies is_quoted_word(#[trigger] (a
                + b)[i]) by {
                if i >= a.len() {
                    assert((a + b)[i] == b[i - a.len()]);
                } else {
                    assert((a + b)[i] == a[i]);
                }
            }
        } else if kept_in_search_word(s[0]) {
            let w2 = word.push(s[0]);
            assert forall|j: int| 0 <= j < w2.len() implies kept_in_search_word(#[trigger] w2[j]) by {
                if j < word.len() {
                    assert(w2[j] == word[j]);
                }
            }
            lemma_search_terms_quoted(s.skip(1), w2);
            assert(search_terms(s, word) == search_terms(s.skip(1), w2));
        } else {
            lemma_search_terms_quoted(s.skip(1), word);
            assert(search_terms(s, word) == search_terms(s.skip(1), word));
        }
    } else {
        assert(search_terms(s, word) == term_if_any(word));
    }
}

/// The search query is a space-separated list of terms `"w"*`, each word
/// non-empty and made only of alphanumeric characters, `_` and `'`: no
/// FTS5 operator or special character stands outside quotes.
pub proof fn law_search_query_is_quoted_terms(query: Seq<char>)
    ensures
        fts_query(query) == joined_with(search_terms(query, Seq::empty()), seq![' ']),
        forall|i: int|
            0 <= i < search_terms(query, Seq::empty()).len() ==> is_quoted_word(
                #[trigger] search_terms(query, Seq::empty())[i],
            ),
{
    lemma_search_terms_quoted(query, Seq::empty());
}

proof fn lemma_joined_nonempty(ts: Seq<Seq<char>>, sep: Seq<char>)
    requires
        ts.len() > 0,
        ts[0].len() > 0,
    ensures
        joined_with(ts, sep).len() > 0,
{
    if ts.len() > 1 {
        assert(joined_with(ts, sep) == ts[0] + sep + joined_with(ts.skip(1), sep));
    }
}

/// The search query is empty exactly when no word of what the user typed
/// keeps a character: only then is there nothing to search for.
pub proof fn law_search_query_empty_without_terms(query: Seq<char>)
    ensures
        fts_query(query).len() == 0 <==> search_terms(query, Seq::empty()).len() == 0,
{
    let ts = search_terms(query, Seq::empty());
    lemma_search_terms_quoted(query, Seq::empty());
    if ts.len() > 0 {
        assert(is_quoted_word(ts[0]));
        lemma_joined_nonempty(ts, seq![' ']);
    }
}

/// A character a search word keeps (`char::is_alphanumeric`, `_` or `'`).
pub open spec fn search_char(c: char) -> bool {
    alphanumeric(c) || c == '_' || c == '\''
}

/// A text with no white space in it.
pub open spec fn no_white(w: Seq<char>) -> bool {
    forall|j: int| 0 <= j < w.len() ==> !is_white(#[trigger] w[j])
}

proof fn lemma_filter_front(w: Seq<char>)
    requires
        w.len() > 0,
    ensures
        w.filter(|c: char| search_char(c)) == (if search_char(w[0]) {
            seq![w[0]]
        } else {
            Seq::empty()
        }) + w.skip(1).filter(|c: char| search_char(c)),
{
    let p = |c: char| search_char(c);
    assert(w =~= seq![w[0]] + w.skip(1));
    Seq::filter_distributes_over_add(seq![w[0]], w.skip(1), p);
    reveal_with_fuel(Seq::filter, 2);
    assert(seq![w[0]].drop_last() =~= Seq::<char>::empty());
}

proof fn lemma_terms_of_word(w: Seq<char>, word: Seq<char>, r: Seq<char>, spaced: bool)
    requires
        no_white(w),
        spaced ==> r.len() > 0 && r[0] == ' ',
        !spaced ==> r.len() == 0,
    ensures
        search_terms(w + r, word) == if spaced {
            term_if_any(word + w.filter(|c: char| search_char(c))) + search_terms(
                r.skip(1),
                Seq::empty(),
            )
        } else {
            term_if_any(word + w.filter(|c: char| search_char(c)))
        },
    decreases w.len(),
{
    let p = |c: char| search_char(c);
    if w.len() == 0 {
        assert(w + r =~= r);
        assert(word + w.filter(p) =~= word);
    } else {
        assert((w + r)[0] == w[0]);
        assert((w + r).skip(1) =~= w.skip(1) + r);
        assert forall|j: int| 0 <= j < w.skip(1).len() implies !is_white(#[trigger] w.skip(1)[j]) by {
            assert(w.skip(1)[j] == w[j + 1]);
        }
        lemma_filter_front(w);
        if search_char(w[0]) {
            lemma_terms_of_word(w.skip(1), word.push(w[0]), r, spaced);
            assert(word.push(w[0]) + w.skip(1).filter(p) =~= word + w.filter(p));
        } else {
            lemma_terms_of_word(w.skip(1), word, r, spaced);
            assert(w.filter(p) =~= w.skip(1).filter(p));
        }
    }
}

/// One word of a search: its kept characters (alphanumeric, `_`, `'`),
/// every one of them and in order, quoted with a prefix wildcard; nothing
/// when it keeps none.
pub proof fn law_search_word_keeps_its_characters(w: Seq<char>)
    requires
        no_white(w),
    ensures
        fts_query(w) == ({
            let f = w.filter(|c: char| search_char(c));
            if f.len() == 0 {
                Seq::empty()
            } else {
                seq!['"'] + f + seq!['"', '*']
            }
        }),
{
    lemma_terms_of_word(w, Seq::empty(), Seq::empty(), false);
    assert(w + Seq::<char>::empty() =~= w);
    let f = w.filter(|c: char| search_char(c));
    assert(Seq::<char>::empty() + f =~= f);
}

/// The words of a search come out in order, one term each, separated by a
/// single space: a first word, a space, and the rest give the first word's
/// term followed by the rest's query.
pub proof fn law_search_words_in_order(w: Seq<char>, rest: Seq<char>)
    requires
        no_white(w),
    ensures
        fts_query(w + seq![' '] + rest) == ({
            let f = w.filter(|c: char| search_char(c));
            let q = fts_query(rest);
            if f.len() == 0 {
                q
            } else if q.len() == 0 {
                seq!['"'] + f + seq!['"', '*']
            } else {
                seq!['"'] + f + seq!['"', '*', ' '] + q
            }
        }),
{
    let r = seq![' '] + rest;
    assert(w + seq![' '] + rest =~= w + r);
    assert(r.skip(1) =~= rest);
    lemma_terms_of_word(w, Seq::empty(), r, true);
    let f = w.filter(|c: char| search_char(c));
    assert(Seq::<char>::empty() + f =~= f);
    let ts = search_terms(rest, Seq::empty());
    law_search_query_empty_without_terms(rest);
    if f.len() == 0 {
        assert(term_if_any(f) + ts =~= ts);
    } else {
        let t = seq!['"'] + f + seq!['"', '*'];
        let all = term_if_any(f) + ts;
        assert(all =~= seq![t] + ts);
        if ts.len() == 0 {
            assert(all =~= seq![t]);
        } else {
            assert(all[0] == t);
            assert(all.skip(1) =~= ts);
            assert(seq!['"'] + f + seq!['"', '*', ' '] + fts_query(rest) =~= t + seq![' ']
                + joined_with(ts, seq![' ']));
        }
    }
}

} // verus!
