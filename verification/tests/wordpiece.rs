use aleph_alpha_tokenizer::text::too_long_word;
use aleph_alpha_tokenizer::tokenizer::AlephAlphaTokenizer;
use std::ops::Range;
use tokenizers::models::wordpiece::WordPiece;
use tokenizers::Model;

const VOCAB: &[&str] = &[
    "[PAD]", "[unused1]", "[UNK]", "[MASK]", "a", "b", "ab", "abc", "##a", "##b", "##ab", "##ba",
    "##c", "##cab", "c", "ca", "ä", "##ä", "##äb", "bä", "日", "##本", "##本a", "日本", "[", "##]",
    "#", "##u", "u", "[u", "##nused", "##unused", "ba", "##bb", "bab", "]", "##[",
];

const LETTERS: &[&str] = &["a", "b", "c", "ä", "日", "本", "[", "]", "u", "x", "#", "nused"];

fn lines() -> Vec<String> {
    VOCAB.iter().map(|s| s.to_string()).collect()
}

fn word_piece() -> WordPiece {
    let vocab = WordPiece::read_bytes(VOCAB.join("\n").as_bytes()).unwrap();
    WordPiece::builder().vocab(vocab).unk_token("[UNK]".to_string()).build().unwrap()
}

fn comparable(word: &str) -> bool {
    !word.contains("##") && !word.contains("[unused") && !too_long_word(word)
}

fn some_words() -> Vec<String> {
    let mut words = Vec::new();
    let mut state: u64 = 0x2545_f491_4f6c_dd1d;
    while words.len() < 4000 {
        let mut word = String::new();
        state = state.wrapping_mul(6364136223846793005).wrapping_add(1442695040888963407);
        let len = 1 + (state >> 33) % 7;
        for _ in 0..len {
            state = state.wrapping_mul(6364136223846793005).wrapping_add(1442695040888963407);
            word.push_str(LETTERS[((state >> 33) % LETTERS.len() as u64) as usize]);
        }
        if comparable(&word) {
            words.push(word);
        }
    }
    words
}

#[test]
fn words_are_cut_as_word_piece_cuts_them() {
    let ours = AlephAlphaTokenizer::from_vocab(lines()).unwrap();
    let theirs = word_piece();
    let mut cut = 0;
    let mut unknown = 0;
    for word in some_words() {
        let expected = theirs.tokenize(&word).unwrap();
        let got = ours.tokenize(vec![(word.clone(), (0, word.len()))]);
        assert_eq!(got.len(), expected.len(), "{}", word);
        for (g, e) in got.iter().zip(expected.iter()) {
            assert_eq!((g.id, g.value.as_str(), g.offsets), (e.id, e.value.as_str(), e.offsets));
            assert_eq!(g.word, 0);
        }
        let mut ids: Vec<u64> = Vec::new();
        let mut ranges: Vec<Range<usize>> = Vec::new();
        ours.tokens_into(&word, &mut ids, &mut ranges, None);
        let expected_ids: Vec<u64> = expected.iter().map(|t| u64::from(t.id)).collect();
        let expected_ranges: Vec<Range<usize>> =
            expected.iter().map(|t| t.offsets.0..t.offsets.1).collect();
        assert_eq!(ids, expected_ids, "{}", word);
        assert_eq!(ranges, expected_ranges, "{}", word);
        if expected.len() == 1 && expected[0].id == 2 {
            unknown += 1;
        } else {
            cut += 1;
        }
    }
    assert!(cut > 200);
    assert!(unknown > 200);
}

#[test]
fn a_text_is_cut_word_by_word_as_word_piece_cuts_it() {
    let ours = AlephAlphaTokenizer::from_vocab(lines()).unwrap();
    let theirs = word_piece();
    let words = some_words();
    for chunk in words.chunks(9) {
        let text = chunk.join(" ");
        let mut ids: Vec<u64> = Vec::new();
        let mut ranges: Vec<Range<usize>> = Vec::new();
        ours.tokens_into(&text, &mut ids, &mut ranges, None);
        let mut expected_ids: Vec<u64> = Vec::new();
        let mut expected_ranges: Vec<Range<usize>> = Vec::new();
        let mut at = 0;
        for word in chunk {
            for token in theirs.tokenize(word).unwrap() {
                expected_ids.push(u64::from(token.id));
                expected_ranges.push(at + token.offsets.0..at + token.offsets.1);
            }
            at += word.len() + 1;
        }
        assert_eq!(ids, expected_ids);
        assert_eq!(ranges, expected_ranges);
    }
}

#[test]
fn word_piece_differs_where_a_word_holds_the_marker() {
    let ours = AlephAlphaTokenizer::from_vocab(lines()).unwrap();
    let theirs = word_piece();
    // a word that begins with the marker is a follower to word piece
    let expected = theirs.tokenize("##ab").unwrap();
    assert_eq!(expected.len(), 1);
    assert_eq!(expected[0].id, 10);
    let got = ours.tokenize(vec![("##ab".to_string(), (0, 4))]);
    assert_eq!(got.len(), 1);
    assert_eq!(got[0].id, 2);
}
