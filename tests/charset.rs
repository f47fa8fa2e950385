use cart_rules::charset::contains_chinese_characters;

#[test]
fn test_contains_chinese_characters() {
    assert!(contains_chinese_characters("你好"));
    assert!(contains_chinese_characters("Hello你好"));
    assert!(!contains_chinese_characters("Hello"));
    assert!(!contains_chinese_characters("123"));
}

#[test]
fn chinese_characters_at_block_edges() {
    assert!(contains_chinese_characters("\u{4E00}"));
    assert!(contains_chinese_characters("a\u{9FFF}"));
    assert!(contains_chinese_characters("\u{3400}b"));
    assert!(contains_chinese_characters("\u{2A6DF}"));
    assert!(!contains_chinese_characters("\u{4DC0}\u{A000}\u{2A6E0}"));
    assert!(!contains_chinese_characters(""));
}
