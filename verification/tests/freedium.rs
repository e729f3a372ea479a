use wallflower::freedium::{
    absolutize_img_paths, absolutize_url, clean_content, data_json_lines, parse_data_json_body,
    remove_fragments, rewrite_srcset, FetchError,
};
use wallflower::json::{devalue_resolve, JsonValue};
use wallflower::workflow::data_json_url;

fn json_of(v: &serde_json::Value) -> JsonValue {
    match v {
        serde_json::Value::Null => JsonValue::Null,
        serde_json::Value::Bool(b) => JsonValue::Bool(*b),
        serde_json::Value::Number(n) => match n.as_i64() {
            Some(i) => JsonValue::Int(i),
            None => JsonValue::OtherNumber(n.to_string()),
        },
        serde_json::Value::String(s) => JsonValue::Str(s.clone()),
        serde_json::Value::Array(items) => JsonValue::Array(items.iter().map(json_of).collect()),
        serde_json::Value::Object(map) => {
            JsonValue::Object(map.iter().map(|(k, v)| (k.clone(), json_of(v))).collect())
        }
    }
}


fn str_member<'a>(v: &'a JsonValue, key: &str) -> &'a JsonValue {
    match v {
        JsonValue::Object(entries) => &entries.iter().find(|(k, _)| k == key).expect("member").1,
        _ => panic!("not an object"),
    }
}

#[test]
fn test_url_encoding() {
    let medium_url = "https://medium.com/@user/article-title-abc123";
    let url = data_json_url("https://freedium-mirror.cfd/", medium_url);
    assert!(url.contains("%3A%2F%2F"));
    assert_eq!(
        url,
        "https://freedium-mirror.cfd/https%3A%2F%2Fmedium.com%2F%40user%2Farticle-title-abc123/__data.json"
    );
}

#[test]
fn test_parse_data_json_extracts_article() {
    // Minimal reproduction of SvelteKit's __data.json devalue format: a
    // "chunk" line whose `data` array references its values by index.
    // index: 0=root 1=html 2=markdown 3=article 4=cacheStatus 5=renderTimeMs
    //        6=error 7=title 8=subtitle 9=author 10=name 11=avatar 12=postImage
    let body: String = [
        "{\"type\":\"data\",\"nodes\":[null,{\"type\":\"data\",\"data\":[{\"slug\":1},\"https://medium.com/@x/y\"]}]}\n",
        "{\"type\":\"chunk\",\"id\":1,\"data\":[",
        "{\"html\":1,\"markdown\":2,\"article\":3,\"cacheStatus\":4,\"renderTimeMs\":5,\"error\":6},",
        "\"<h3>Heading</h3><p>Hello world</p><img src=\\\"/img/4000/pic.png\\\" srcset=\\\"/img/700/pic.png 700w, /img/4000/pic.png 4000w\\\"><script>bad()</script>\",",
        "\"# Heading\",",
        "{\"title\":7,\"subtitle\":8,\"author\":9,\"postImage\":12},",
        "\"hit\",",
        "13,",
        "null,",
        "\"My Title\",",
        "\"A subtitle\",",
        "{\"name\":10,\"avatar\":11},",
        "\"Jane Doe\",",
        "\"/img/avatar.png\",",
        "\"/img/700/hero.jpg\"",
        "]}",
    ]
    .concat();
    let article = parse_data_json_body(
        &body,
        "https://medium.com/@x/y",
        "https://freedium-mirror.cfd/",
    )
    .expect("should parse the chunk");

    assert_eq!(article.title, "My Title");
    assert_eq!(article.author, "Jane Doe");
    assert!(article.content_html.contains("Hello world"));
    // clean_content must strip the <script> tag.
    assert!(!article.content_html.contains("bad()"));
    assert_eq!(article.fetched_from, "https://freedium-mirror.cfd/");
    // Header image comes from `postImage` and is absolutized.
    assert_eq!(
        article.header_image_url.as_deref(),
        Some("https://freedium-mirror.cfd/img/700/hero.jpg")
    );
    // Inline image src + srcset are absolutized against the endpoint host.
    assert!(article
        .content_html
        .contains("src=\"https://freedium-mirror.cfd/img/4000/pic.png\""));
    assert!(article
        .content_html
        .contains("https://freedium-mirror.cfd/img/700/pic.png 700w"));
    assert!(article
        .content_html
        .contains("https://freedium-mirror.cfd/img/4000/pic.png 4000w"));
}

#[test]
fn test_absolutize_url() {
    let ep = "https://freedium-mirror.cfd/";
    assert_eq!(
        absolutize_url("/img/700/x.jpg", ep),
        "https://freedium-mirror.cfd/img/700/x.jpg"
    );
    // Already-absolute URLs are untouched.
    assert_eq!(
        absolutize_url("https://miro.medium.com/x.png", ep),
        "https://miro.medium.com/x.png"
    );
    assert_eq!(absolutize_url("//cdn.example/x.png", ep), "//cdn.example/x.png");
    assert_eq!(
        absolutize_url("data:image/png;base64,AAA", ep),
        "data:image/png;base64,AAA"
    );
}

#[test]
fn test_absolutize_img_paths_leaves_links_and_absolute() {
    let ep = "https://freedium-mirror.cfd/";
    let html = "<a href=\"/about\">x</a><img src=\"/img/1.png\"><img src=\"https://miro.medium.com/2.png\">";
    let out = absolutize_img_paths(html, ep);
    // Anchor href is NOT rewritten, only image src.
    assert!(out.contains("href=\"/about\""));
    assert!(out.contains("src=\"https://freedium-mirror.cfd/img/1.png\""));
    assert!(out.contains("src=\"https://miro.medium.com/2.png\""));
}

#[test]
fn test_parse_data_json_errors_on_empty_render() {
    // A chunk whose html resolves to an empty string is a failed render.
    let body = "{\"type\":\"chunk\",\"id\":1,\"data\":[{\"html\":1},\"\"]}";
    assert!(parse_data_json_body(body, "u", "e").is_err());
}

#[test]
fn test_devalue_resolve_nested() {
    let arr: Vec<serde_json::Value> =
        serde_json::from_str("[{\"a\":1,\"b\":2},\"x\",{\"c\":3},\"y\"]").unwrap();
    let arr: Vec<JsonValue> = arr.iter().map(json_of).collect();
    let resolved = devalue_resolve(&arr, 0, 0);
    assert!(matches!(str_member(&resolved, "a"), JsonValue::Str(s) if s == "x"));
    assert!(matches!(str_member(str_member(&resolved, "b"), "c"), JsonValue::Str(s) if s == "y"));
}

#[test]
fn devalue_guards_against_bad_indices_and_cycles() {
    // A node that refers to itself is cut off once the depth passes 64.
    let arr = vec![JsonValue::Array(vec![JsonValue::Int(0)])];
    let mut v = devalue_resolve(&arr, 0, 0);
    let mut depth = 0;
    loop {
        match v {
            JsonValue::Array(mut items) => {
                depth += 1;
                v = items.pop().unwrap();
            }
            JsonValue::Null => break,
            other => panic!("unexpected {:?}", other),
        }
    }
    assert_eq!(depth, 65);
    assert!(matches!(devalue_resolve(&arr, -1, 0), JsonValue::Null));
    assert!(matches!(devalue_resolve(&arr, 5, 0), JsonValue::Null));
    assert!(matches!(devalue_resolve(&arr, 0, 65), JsonValue::Null));
    let lit = vec![JsonValue::OtherNumber("1.5".to_string()), JsonValue::Bool(true)];
    assert!(matches!(devalue_resolve(&lit, 0, 0), JsonValue::OtherNumber(t) if t == "1.5"));
    assert!(matches!(devalue_resolve(&lit, 1, 0), JsonValue::Bool(true)));
}

#[test]
fn parse_data_json_errors_without_chunk() {
    let body = "not json\n{\"type\":\"data\"}\n{\"type\":\"chunk\",\"data\":5}\n";
    match parse_data_json_body(body, "u", "e") {
        Err(FetchError::ParseError(m)) => assert_eq!(m, "No article chunk found in __data.json"),
        other => panic!("unexpected {:?}", other),
    }
    match parse_data_json_body("{\"type\":\"chunk\",\"data\":[{\"html\":1},\"  \\n \"]}", "u", "e") {
        Err(FetchError::ParseError(m)) => {
            assert_eq!(m, "Freedium returned no rendered article content")
        }
        other => panic!("unexpected {:?}", other),
    }
}

#[test]
fn parse_data_json_defaults_missing_metadata() {
    let body = "\n  {\"type\":\"chunk\",\"data\":[{\"html\":1,\"article\":2},\"<p>x</p>\",{\"title\":3,\"author\":4},\"   \",{\"name\":5},\"\"]}  \n";
    let article = parse_data_json_body(body, "https://medium.com/a", "https://e/").unwrap();
    assert_eq!(article.title, "Untitled Article");
    assert_eq!(article.author, "Unknown Author");
    assert_eq!(article.header_image_url, None);
    assert_eq!(article.author_url, None);
    assert_eq!(article.original_url, "https://medium.com/a");
    assert_eq!(article.content_html, "<p>x</p>");
}

#[test]
fn data_json_lines_trims_and_skips_blank_lines() {
    assert_eq!(data_json_lines(" a \r\n\n\t\nb"), vec!["a".to_string(), "b".to_string()]);
    assert!(data_json_lines("").is_empty());
}

#[test]
fn srcset_candidates_are_rewritten_one_by_one() {
    assert_eq!(
        rewrite_srcset("<img srcset=\" /a.png 1x,//cdn/b.png 2x, c.png\">", "https://e"),
        "<img srcset=\"https://e/a.png 1x, //cdn/b.png 2x, c.png\">"
    );
    // An unterminated srcset is left as it is.
    assert_eq!(rewrite_srcset("x srcset=\"/a.png", "https://e"), "x srcset=\"/a.png");
}

#[test]
fn img_src_rewrite_keeps_protocol_relative() {
    assert_eq!(
        absolutize_img_paths("<img src=\"//cdn/x.png\"><img src=\"/y.png\">", "https://e///"),
        "<img src=\"//cdn/x.png\"><img src=\"https://e/y.png\">"
    );
    assert_eq!(absolutize_url("  /z  ", "https://e//"), "https://e/z");
}

#[test]
fn cleaning_removes_script_style_noscript() {
    let html = "<p>a</p><script>x()</script><style>p{}</style><noscript>n</noscript><p>b</p>";
    assert_eq!(clean_content(html), "<p>a</p><p>b</p>");
    assert_eq!(
        remove_fragments("abcabc", &vec!["b".to_string(), "".to_string(), "ca".to_string()]),
        "ac"
    );
}

#[test]
fn parse_data_json_reads_sveltekit_nodes() {
    // No chunk: the page payload is the last node's devalue data.
    let body = concat_lines(&[
        "{\"type\":\"data\",\"nodes\":[null,{\"type\":\"data\",\"data\":[{\"slug\":1},\"x\"]},",
        "{\"type\":\"data\",\"data\":[{\"html\":1,\"article\":2},\"<p>Hi</p><img src=\\\"/i.png\\\"><script>x()</script>\",",
        "{\"title\":3,\"author\":4,\"postImage\":6},\"T\",{\"name\":5},\"A\",\"/h.jpg\"]},{\"type\":\"skip\"}]}",
    ]);
    let a = parse_data_json_body(&body, "https://medium.com/a", "https://e/").unwrap();
    assert_eq!(a.title, "T");
    assert_eq!(a.author, "A");
    assert_eq!(a.content_html, "<p>Hi</p><img src=\"https://e/i.png\">");
    assert_eq!(a.header_image_url.as_deref(), Some("https://e/h.jpg"));
    assert_eq!(a.fetched_from, "https://e/");
    assert_eq!(a.original_url, "https://medium.com/a");
}

#[test]
fn parse_data_json_reads_eager_payload() {
    let body = "{\"type\":\"data\",\"nodes\":[{\"type\":\"data\",\"data\":[{\"eager\":1},{\"html\":2,\"article\":3},\"<p>E</p>\",{\"title\":4},\"ET\"]}]}";
    let a = parse_data_json_body(body, "u", "https://e").unwrap();
    assert_eq!(a.title, "ET");
    assert_eq!(a.author, "Unknown Author");
    assert_eq!(a.content_html, "<p>E</p>");
}

#[test]
fn chunk_still_comes_first_and_nodes_need_html() {
    let body = "{\"type\":\"data\",\"nodes\":[{\"type\":\"data\",\"data\":[{\"html\":1},\"<p>N</p>\"]}]}\n{\"type\":\"chunk\",\"data\":[{\"html\":1},\"<p>C</p>\"]}";
    let a = parse_data_json_body(body, "u", "e").unwrap();
    assert_eq!(a.content_html, "<p>C</p>");

    let no_html = "{\"type\":\"data\",\"nodes\":[{\"type\":\"data\",\"data\":[{\"slug\":1},\"s\"]}]}";
    match parse_data_json_body(no_html, "u", "e") {
        Err(FetchError::ParseError(m)) => assert_eq!(m, "No article chunk found in __data.json"),
        other => panic!("unexpected {:?}", other),
    }
    let blank = "{\"type\":\"data\",\"nodes\":[{\"type\":\"data\",\"data\":[{\"html\":1},\" \"]}]}";
    match parse_data_json_body(blank, "u", "e") {
        Err(FetchError::ParseError(m)) => {
            assert_eq!(m, "Freedium returned no rendered article content")
        }
        other => panic!("unexpected {:?}", other),
    }
}

fn concat_lines(parts: &[&str]) -> String {
    parts.concat()
}

#[test]
fn image_rewriting_twice_is_rewriting_once() {
    let e = "https://freedium-mirror.cfd/";
    for html in [
        "<img src=\"/img/1.png\" srcset=\"/a.png 1x, //cdn/b.png 2x,  /c.png\"><a href=\"/x\">x</a>",
        "<img src=\"//cdn/x.png\"><img srcset=\" /only.png \">",
        "<p>no images</p>",
        "<img srcset=\"unterminated",
    ] {
        let once = absolutize_img_paths(html, e);
        assert_eq!(absolutize_img_paths(&once, e), once, "{}", html);
    }
}
