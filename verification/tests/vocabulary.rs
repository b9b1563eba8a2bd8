use aleph_alpha_tokenizer::tokenizer::{AlephAlphaTokenizer, LoadError};
use std::ops::Range;

fn lines(items: &[&str]) -> Vec<String> {
    items.iter().map(|s| s.to_string()).collect()
}

fn ids_of(tokenizer: &AlephAlphaTokenizer, text: &str) -> Vec<u64> {
    let mut ids: Vec<u64> = Vec::new();
    let mut ranges: Vec<Range<usize>> = Vec::new();
    tokenizer.tokens_into(text, &mut ids, &mut ranges, None);
    ids
}

#[test]
fn loading_needs_the_unknown_token() {
    let result = AlephAlphaTokenizer::from_vocab(lines(&["[PAD]", "[CLS]", "[SEP]", "a", "##b"]));
    assert!(matches!(result, Err(LoadError::MissingUnk)));
    let result = AlephAlphaTokenizer::from_vocab(Vec::new());
    assert!(matches!(result, Err(LoadError::MissingUnk)));
    // the literal counts, not a line that holds it
    let result = AlephAlphaTokenizer::from_vocab(lines(&["[UNK] ", "##[UNK]", "[unk]"]));
    assert!(matches!(result, Err(LoadError::MissingUnk)));
}

#[test]
fn loading_refuses_a_token_twice() {
    let result = AlephAlphaTokenizer::from_vocab(lines(&["[UNK]", "a", "b", "a"]));
    assert!(matches!(result, Err(LoadError::DuplicateToken)));
    let result = AlephAlphaTokenizer::from_vocab(lines(&["[UNK]", "##a", "b", "##a"]));
    assert!(matches!(result, Err(LoadError::DuplicateToken)));
    let result = AlephAlphaTokenizer::from_vocab(lines(&["[UNK]", "[UNK]"]));
    assert!(matches!(result, Err(LoadError::DuplicateToken)));
    // a token twice is told before a missing unknown token
    let result = AlephAlphaTokenizer::from_vocab(lines(&["a", "a"]));
    assert!(matches!(result, Err(LoadError::DuplicateToken)));
}

#[test]
fn a_starter_and_a_follower_may_read_the_same() {
    let tokenizer = AlephAlphaTokenizer::from_vocab(lines(&["[UNK]", "a", "##a"])).unwrap();
    assert_eq!(ids_of(&tokenizer, "a aa aaa"), vec![1, 1, 2, 1, 2, 2]);
}

#[test]
fn unused_lines_keep_their_id_and_match_nothing() {
    let tokenizer = AlephAlphaTokenizer::from_vocab(lines(&[
        "[UNK]",
        "[unused1]",
        "[unused1]",
        "[unusedopen",
        "x",
    ]))
    .unwrap();
    assert_eq!(tokenizer.get_vocab_size(), 5);
    assert_eq!(ids_of(&tokenizer, "[unused1] [unusedopen x"), vec![0, 0, 4]);
    assert!(!tokenizer.is_special(1u64));
    assert!(!tokenizer.is_special(2u64));
    assert!(!tokenizer.is_special(3u64));
    assert_eq!(tokenizer.text_of(1u64), "[unused1]");
    assert_eq!(tokenizer.text_of(3u64), "[unusedopen");
}

#[test]
fn special_tokens_are_in_brackets() {
    let tokenizer = AlephAlphaTokenizer::from_vocab(lines(&[
        "[PAD]", "[unused0]", "[UNK]", "[CLS]", "[SEP]", "[MASK]", "[", "]", "[]", "[x", "x]",
        "##[x]", "word",
    ]))
    .unwrap();
    let special: Vec<u64> = (0..14u64).filter(|id| tokenizer.is_special(*id)).collect();
    assert_eq!(special, vec![0, 2, 3, 4, 5, 8]);
    assert!(tokenizer.is_special(0i32));
    assert!(tokenizer.is_special(3i32));
    assert!(tokenizer.is_special(4i64));
    assert!(!tokenizer.is_special(12i32));
    assert!(!tokenizer.is_special(42i32));
    assert!(!tokenizer.is_special(-1i32));
}

#[test]
fn special_tokens_are_starters_too() {
    let tokenizer =
        AlephAlphaTokenizer::from_vocab(lines(&["[PAD]", "[UNK]", "[MASK]", "a"])).unwrap();
    assert_eq!(ids_of(&tokenizer, "[MASK] a [PAD] [UNK] [NONE]"), vec![2, 3, 0, 1, 1]);
}

#[test]
fn prefix_and_suffix_come_from_their_literals() {
    let tokenizer =
        AlephAlphaTokenizer::from_vocab(lines(&["[SEP]", "a", "[UNK]", "[CLS]"])).unwrap();
    assert_eq!(ids_of(&tokenizer, "a"), vec![3, 1, 0]);
    let tokenizer = AlephAlphaTokenizer::from_vocab(lines(&["[UNK]", "a", "[CLS]"])).unwrap();
    assert_eq!(ids_of(&tokenizer, "a"), vec![2, 1]);
    let tokenizer = AlephAlphaTokenizer::from_vocab(lines(&["[UNK]", "a", "[SEP]"])).unwrap();
    assert_eq!(ids_of(&tokenizer, "a"), vec![1, 2]);
    let tokenizer = AlephAlphaTokenizer::from_vocab(lines(&["[UNK]", "a"])).unwrap();
    assert_eq!(ids_of(&tokenizer, "a"), vec![1]);
}

#[test]
fn texts_come_back_by_id() {
    let tokenizer = AlephAlphaTokenizer::from_vocab(lines(&[
        "[PAD]", "[UNK]", "[unused7]", "[CLS]", "[SEP]", "Super", "##mann", "größer",
    ]))
    .unwrap();
    assert_eq!("[PAD]", tokenizer.text_of(0));
    assert_eq!("##mann", tokenizer.text_of(6u64));
    assert_eq!("größer", tokenizer.text_of(7i64));
    assert_eq!(vec!["[CLS]", "Super", "[SEP]"], tokenizer.texts_of(&[3, 5, 4]));
    assert_eq!(vec!["[unused7]", "[UNK]"], tokenizer.texts_of(&[2u64, 1]));
    assert!(tokenizer.texts_of::<i32>(&[]).is_empty());
    assert_eq!(tokenizer.get_vocab_size(), 8);
}

#[test]
fn the_vocabulary_is_saved_line_by_line() {
    let table = ["[PAD]", "[UNK]", "[unused7]", "Super", "##mann", "größer", ""];
    let tokenizer = AlephAlphaTokenizer::from_vocab(lines(&table)).unwrap();
    let saved = tokenizer.save_vocab();
    assert_eq!(saved, "[PAD]\n[UNK]\n[unused7]\nSuper\n##mann\ngrößer\n\n".as_bytes().to_vec());
    let text = String::from_utf8(saved).unwrap();
    let again: Vec<String> = text.lines().map(|l| l.to_string()).collect();
    assert_eq!(again, lines(&table));
    let reloaded = AlephAlphaTokenizer::from_vocab(again).unwrap();
    assert_eq!(ids_of(&reloaded, "Supermann größer"), ids_of(&tokenizer, "Supermann größer"));
    assert_eq!(ids_of(&reloaded, "Supermann größer"), vec![3, 4, 5]);
}
