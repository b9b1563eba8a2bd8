use aleph_alpha_tokenizer::text::too_long_word;

#[test]
fn a_word_is_too_long_from_a_hundred_characters() {
    let short = "a".repeat(99);
    let long = "a".repeat(100);
    assert!(!too_long_word(&short));
    assert!(too_long_word(&long));
    assert!(too_long_word(&"a".repeat(101)));
    assert!(!too_long_word(""));
    assert!(!too_long_word("   "));
    assert!(!too_long_word(&format!("{} {}", short, short)));
    assert!(!too_long_word(&format!("{}\t{}\n{}", short, short, short)));
    assert!(too_long_word(&format!("{} {} x", short, long)));
    assert!(too_long_word(&format!("  {}", long)));
}

#[test]
fn characters_are_counted_not_bytes() {
    assert!(!too_long_word(&"ä".repeat(99)));
    assert!(too_long_word(&"ä".repeat(100)));
    assert!(!too_long_word(&"日本語".repeat(33)));
    assert!(too_long_word(&"日本語".repeat(34)));
    let parted = format!("{}\u{3000}{}", "語".repeat(60), "語".repeat(60));
    assert!(!too_long_word(&parted));
}
