use wallflower::render::{html_to_markdown, html_to_plain_text};

#[test]
fn test_html_to_plain_text_basic() {
    let html = "<p>Hello <strong>world</strong>!</p>";
    let text = html_to_plain_text(html);
    assert_eq!(text, "Hello world!");
}

#[test]
fn test_html_to_plain_text_strips_scripts() {
    let html = "<p>Before</p><script>alert('xss')</script><p>After</p>";
    let text = html_to_plain_text(html);
    assert!(!text.contains("alert"));
    assert!(text.contains("Before"));
    assert!(text.contains("After"));
}

#[test]
fn test_html_to_plain_text_decodes_entities() {
    let html = "<p>Tom &amp; Jerry &mdash; classic</p>";
    let text = html_to_plain_text(html);
    assert!(text.contains("Tom & Jerry"));
    assert!(text.contains("—"));
}

#[test]
fn test_html_to_plain_text_collapses_whitespace() {
    let html = "<p>Hello</p>\n\n\n<p>World</p>";
    let text = html_to_plain_text(html);
    // Should not have excessive whitespace
    assert!(!text.contains("  "));
}

#[test]
fn plain_text_exact_renderings() {
    assert_eq!(html_to_plain_text("<p>Hello</p>\n\n\n<p>World</p>"), "Hello World");
    // Case-insensitive script and style removal, including attributes.
    assert_eq!(
        html_to_plain_text("a<SCRIPT type=\"x\">1<2</ScRiPt>b<style>p{}</STYLE>c"),
        "abc"
    );
    // An unclosed script element is not a script element; its tags go.
    assert_eq!(html_to_plain_text("a<script>b"), "ab");
    // Block-level tags break words apart; inline ones do not.
    assert_eq!(html_to_plain_text("x<br>y<b>z</b><li>w"), "x yz w");
    assert_eq!(html_to_plain_text("<h2>T</h2><h7>u</h7>"), "T u");
    assert_eq!(html_to_plain_text("&lt;b&gt; &quot;q&quot; &#39;s&#39; a&nbsp;b &ndash;"), "<b> \"q\" 's' a b –");
    assert_eq!(html_to_plain_text("<>x</>"), "<>x");
    assert_eq!(html_to_plain_text("   "), "");
}

#[test]
fn plain_text_never_doubles_white_space() {
    for html in ["a \t\n b", "<p> x </p>\u{a0}\u{a0}<div>y</div>", "  lead and trail \n"] {
        let t = html_to_plain_text(html);
        assert!(!t.starts_with(char::is_whitespace) && !t.ends_with(char::is_whitespace));
        let chars: Vec<char> = t.chars().collect();
        assert!(chars.windows(2).all(|w| !(w[0].is_whitespace() && w[1].is_whitespace())), "{:?}", t);
    }
}

#[test]
fn markdown_renderings() {
    assert_eq!(
        html_to_markdown("<h1>Title</h1><p>Some <strong>bold</strong> and <em>it</em></p>"),
        "\n# Title\n\nSome **bold** and *it*"
    );
    assert_eq!(html_to_markdown("<ul><li>a</li><li>b</li></ul>"), "\n- a\n- b\n");
    assert_eq!(
        html_to_markdown("<pre><code>x &lt; y</code></pre><hr/>"),
        "\n```\n`x < y`\n```\n\n---"
    );
    assert_eq!(html_to_markdown("<span class=\"c\">  padded  </span>\r\nnext"), "padded\nnext");
    assert_eq!(html_to_markdown(""), "");
}

#[test]
fn markdown_lines_are_trimmed() {
    let md = html_to_markdown("<p>  a  </p>\t<blockquote> q </blockquote>   \n  b\t");
    for line in md.split('\n') {
        assert_eq!(line, line.trim());
    }
}
