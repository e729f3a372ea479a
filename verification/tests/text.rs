use wallflower::text::is_whitespace_char;

#[test]
fn white_space_table_matches_std() {
    for u in 0u32..=0x10FFFF {
        if let Some(c) = char::from_u32(u) {
            assert_eq!(is_whitespace_char(c), c.is_whitespace(), "{:?}", c);
        }
    }
}
