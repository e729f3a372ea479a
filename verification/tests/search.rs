use wallflower::search::fts_match_query;

#[test]
fn test_fts_query_sanitization() {
    // Test that special FTS5 characters don't cause issues
    let special_queries = vec![
        "hello*world",   // asterisk
        "test OR other", // FTS operator
        "foo AND bar",   // FTS operator
        "NOT this",      // FTS operator
        "\"quoted\"",    // quotes
        "test-case",     // hyphen
        "(parentheses)", // parens
        "***",           // only special chars
        "",              // empty
        "   ",           // whitespace only
    ];

    for query in special_queries {
        let sanitized = fts_match_query(query);
        // Should not contain raw special chars outside quotes
        assert!(!sanitized.contains("OR ") || sanitized.contains("\"OR\""));
        assert!(!sanitized.contains("AND ") || sanitized.contains("\"AND\""));
    }
}

#[test]
fn fts_query_exact_forms() {
    assert_eq!(fts_match_query("hello*world"), "\"helloworld\"*");
    assert_eq!(fts_match_query("test OR other"), "\"test\"* \"OR\"* \"other\"*");
    assert_eq!(fts_match_query("  don't  my_var \t(x) "), "\"don't\"* \"my_var\"* \"x\"*");
    assert_eq!(fts_match_query("*** -- \"\""), "");
    assert_eq!(fts_match_query(""), "");
    assert_eq!(fts_match_query("café 東京"), "\"café\"* \"東京\"*");
}

#[test]
fn fts_query_empty_only_without_searchable_words() {
    for q in ["", "   ", "*** -- ()", "\"\" ^ :"] {
        assert_eq!(fts_match_query(q), "");
    }
    assert_eq!(fts_match_query("*** a"), "\"a\"*");
    assert_eq!(fts_match_query("(x)"), "\"x\"*");
}
