//! The tag grammars of `render` and the article-id rule of `medium` against
//! the regular expressions they stand for, run by the `regex` crate.

use regex::Regex;
use wallflower::medium::accepts_medium_host_or_path;
use wallflower::render::{html_to_markdown, html_to_plain_text};

struct Patterns {
    script: Regex,
    style: Regex,
    block: Regex,
    tag: Regex,
    white: Regex,
}

fn patterns() -> Patterns {
    Patterns {
        script: Regex::new(r"(?is)<script[^>]*>.*?</script>").unwrap(),
        style: Regex::new(r"(?is)<style[^>]*>.*?</style>").unwrap(),
        block: Regex::new(r"(?i)</?(p|div|br|h[1-6]|li|tr|blockquote)[^>]*>").unwrap(),
        tag: Regex::new(r"<[^>]+>").unwrap(),
        white: Regex::new(r"\s+").unwrap(),
    }
}

fn decode_entities(text: &str) -> String {
    text.replace("&nbsp;", " ")
        .replace("&amp;", "&")
        .replace("&lt;", "<")
        .replace("&gt;", ">")
        .replace("&quot;", "\"")
        .replace("&#39;", "'")
        .replace("&mdash;", "—")
        .replace("&ndash;", "–")
}

fn plain_text_by_regex(p: &Patterns, html: &str) -> String {
    let text = p.script.replace_all(html, "");
    let text = p.style.replace_all(&text, "");
    let text = p.block.replace_all(&text, "\n");
    let text = p.tag.replace_all(&text, "");
    let text = decode_entities(&text);
    p.white.replace_all(&text, " ").trim().to_string()
}

fn markdown_by_regex(p: &Patterns, html: &str) -> String {
    let pairs: [(&str, &str); 36] = [
        ("<h1>", "\n# "), ("</h1>", "\n"), ("<h2>", "\n## "), ("</h2>", "\n"),
        ("<h3>", "\n### "), ("</h3>", "\n"), ("<h4>", "\n#### "), ("</h4>", "\n"),
        ("<p>", "\n"), ("</p>", "\n"), ("<br>", "\n"), ("<br/>", "\n"), ("<br />", "\n"),
        ("<strong>", "**"), ("</strong>", "**"), ("<b>", "**"), ("</b>", "**"),
        ("<em>", "*"), ("</em>", "*"), ("<i>", "*"), ("</i>", "*"),
        ("<ul>", "\n"), ("</ul>", "\n"), ("<ol>", "\n"), ("</ol>", "\n"),
        ("<li>", "- "), ("</li>", "\n"), ("<blockquote>", "\n> "), ("</blockquote>", "\n"),
        ("<code>", "`"), ("</code>", "`"), ("<pre>", "\n```\n"), ("</pre>", "\n```\n"),
        ("<hr>", "\n---\n"), ("<hr/>", "\n---\n"), ("<hr />", "\n---\n"),
    ];
    let mut text = html.to_string();
    for (from, to) in pairs {
        text = text.replace(from, to);
    }
    let text = p.tag.replace_all(&text, "");
    decode_entities(&text).lines().map(|l| l.trim()).collect::<Vec<_>>().join("\n")
}

/// A small deterministic generator.
struct Lcg(u64);

impl Lcg {
    fn next(&mut self, n: usize) -> usize {
        self.0 = self.0.wrapping_mul(6364136223846793005).wrapping_add(1442695040888963407);
        ((self.0 >> 33) as usize) % n
    }
}

const FRAGMENTS: [&str; 44] = [
    "<", ">", "/", "script", "SCRIPT", "ScRiPt", "style", "STYLE", "p", "div", "br", "h1",
    "h7", "li", "tr", "blockquote", "pre", " ", "\n", "\t", "&amp;", "&lt;", "&gt;", "&nbsp;",
    "&quot;", "&#39;", "&mdash;", "&ndash;", "a", "x", "=", "\"", "<p>", "</p>", "<br/>",
    "<hr />", "<strong>", "</em>", "<code>", "\u{a0}", "\u{17f}", "\u{212a}", "\r", "</script>",
];

fn generated(rng: &mut Lcg) -> String {
    let n = rng.next(30);
    (0..n).map(|_| FRAGMENTS[rng.next(FRAGMENTS.len())]).collect()
}

#[test]
fn plain_text_agrees_with_the_regular_expressions() {
    let p = patterns();
    let mut rng = Lcg(7);
    for _ in 0..4000 {
        let html = generated(&mut rng);
        assert_eq!(html_to_plain_text(&html), plain_text_by_regex(&p, &html), "{:?}", html);
    }
}

#[test]
fn markdown_agrees_with_the_regular_expressions() {
    let p = patterns();
    let mut rng = Lcg(11);
    for _ in 0..4000 {
        let html = generated(&mut rng);
        assert_eq!(html_to_markdown(&html), markdown_by_regex(&p, &html), "{:?}", html);
    }
}

/// Case-insensitive tag names, one character replaced by each character of
/// several scripts (ASCII, Latin, Greek, Cyrillic, letterlike symbols,
/// full-width forms, Deseret).
#[test]
fn tag_name_case_folding_agrees_with_the_regular_expressions() {
    let p = patterns();
    let names = ["script", "style", "p", "div", "br", "h1", "li", "tr", "blockquote"];
    let ranges = [
        (0x20u32, 0x250u32),
        (0x370, 0x530),
        (0x1e00, 0x1f00),
        (0x2100, 0x2200),
        (0xff00, 0xff60),
        (0x10400, 0x10450),
    ];
    for (lo, hi) in ranges {
        for u in lo..hi {
            let c = match char::from_u32(u) {
                Some(c) => c,
                None => continue,
            };
            for name in names {
                for i in 0..name.len() {
                    let mut varied: String = name[..i].to_string();
                    varied.push(c);
                    varied.push_str(&name[i + 1..]);
                    for html in [
                        format!("a<{varied} x>b</{name}>c"),
                        format!("a<{name}>b</{varied}>c</{name}>d"),
                    ] {
                        assert_eq!(
                            html_to_plain_text(&html),
                            plain_text_by_regex(&p, &html),
                            "{:?}",
                            html
                        );
                    }
                }
            }
        }
    }
}

#[test]
fn article_id_rule_agrees_with_the_regular_expression() {
    let id = Regex::new(r"-[a-f0-9]{10,12}$").unwrap();
    let parts = ["-", "a", "f", "0", "9", "g", "A", "/", "x", "abcdef0123"];
    let mut rng = Lcg(3);
    for _ in 0..5000 {
        let n = rng.next(12);
        let path: String = (0..n).map(|_| parts[rng.next(parts.len())]).collect();
        assert_eq!(
            accepts_medium_host_or_path("example.org", &path),
            id.is_match(&path),
            "{:?}",
            path
        );
    }
}
