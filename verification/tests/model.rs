use aleph_alpha_tokenizer::model::{vocab_file_name, Token};
use aleph_alpha_tokenizer::tokenizer::AlephAlphaTokenizer;

fn vocab() -> Vec<String> {
    ["[PAD]", "[UNK]", "[CLS]", "[SEP]", "un", "##able", "##aff", "aff", "größ", "##er", "[unused1]"]
        .iter()
        .map(|s| s.to_string())
        .collect()
}

fn words(text: &str) -> Vec<(String, (usize, usize))> {
    let mut words = Vec::new();
    let mut o = 0;
    for word in text.split(' ') {
        words.push((word.to_string(), (o, o + word.len())));
        o += word.len() + 1;
    }
    words
}

fn fields(tokens: &[Token]) -> Vec<(u32, &str, (usize, usize), u32)> {
    tokens.iter().map(|t| (t.id, t.value.as_str(), t.offsets, t.word)).collect()
}

#[test]
fn the_model_cuts_each_word_it_is_given() {
    let tokenizer = AlephAlphaTokenizer::from_vocab(vocab()).unwrap();
    let tokens = tokenizer.tokenize(words("unaffable aff xyz größer"));
    assert_eq!(
        fields(&tokens),
        vec![
            (4, "un", (0, 2), 0),
            (6, "##aff", (2, 5), 0),
            (5, "##able", (5, 9), 0),
            (7, "aff", (10, 13), 1),
            (1, "[UNK]", (14, 17), 2),
            (8, "größ", (18, 24), 3),
            (9, "##er", (24, 26), 3),
        ]
    );
}

#[test]
fn the_model_counts_from_the_offsets_given() {
    let tokenizer = AlephAlphaTokenizer::from_vocab(vocab()).unwrap();
    let tokens = tokenizer.tokenize(vec![
        ("unable".to_string(), (100, 106)),
        ("unx".to_string(), (7, 20)),
        ("".to_string(), (30, 30)),
        ("aff".to_string(), (0, 3)),
    ]);
    assert_eq!(
        fields(&tokens),
        vec![
            (4, "un", (100, 102), 0),
            (5, "##able", (102, 106), 0),
            (1, "[UNK]", (7, 20), 1),
            (7, "aff", (0, 3), 3),
        ]
    );
    assert!(tokenizer.tokenize(Vec::new()).is_empty());
}

#[test]
fn the_model_knows_ids_and_texts() {
    let tokenizer = AlephAlphaTokenizer::from_vocab(vocab()).unwrap();
    assert_eq!(tokenizer.token_to_id("un"), Some(4));
    assert_eq!(tokenizer.token_to_id("##able"), Some(5));
    assert_eq!(tokenizer.token_to_id("able"), None);
    assert_eq!(tokenizer.token_to_id("##un"), None);
    assert_eq!(tokenizer.token_to_id("[UNK]"), Some(1));
    assert_eq!(tokenizer.token_to_id("[unused1]"), None);
    assert_eq!(tokenizer.token_to_id(""), None);
    assert_eq!(tokenizer.token_to_id("##"), None);
    assert_eq!(tokenizer.token_to_id("größ"), Some(8));
    assert_eq!(tokenizer.id_to_token(0), Some("[PAD]".to_string()));
    assert_eq!(tokenizer.id_to_token(9), Some("##er".to_string()));
    assert_eq!(tokenizer.id_to_token(10), Some("[unused1]".to_string()));
    assert_eq!(tokenizer.id_to_token(11), None);
    assert_eq!(tokenizer.id_to_token(u32::MAX), None);
    assert_eq!(tokenizer.get_vocab_size(), 11);
}

#[test]
fn the_vocabulary_file_is_named_after_the_model() {
    assert_eq!(vocab_file_name(None), "vocab.txt");
    assert_eq!(vocab_file_name(Some("german")), "german-vocab.txt");
    assert_eq!(vocab_file_name(Some("")), "-vocab.txt");
}
