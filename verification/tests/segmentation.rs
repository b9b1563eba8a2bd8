use aleph_alpha_tokenizer::tokenizer::AlephAlphaTokenizer;
use std::ops::Range;

fn vocab() -> Vec<String> {
    [
        "[PAD]", "[UNK]", "[CLS]", "[SEP]", "un", "##able", "##aff", "##affable", "aff", "able",
        "##un", "u", "##n", "größ", "##er", "##e", "日本", "##語", "a", "##b", "##bc", "ab",
    ]
    .iter()
    .map(|s| s.to_string())
    .collect()
}

fn plain_vocab() -> Vec<String> {
    ["[PAD]", "[UNK]", "a", "##b", "##bc", "ab", "b", "abc", "##d"]
        .iter()
        .map(|s| s.to_string())
        .collect()
}

fn run<T: aleph_alpha_tokenizer::token_id::TokenID>(
    tokenizer: &AlephAlphaTokenizer,
    text: &str,
) -> (Vec<T>, Vec<Range<usize>>, Vec<Range<usize>>) {
    let mut ids: Vec<T> = Vec::new();
    let mut ranges: Vec<Range<usize>> = Vec::new();
    let mut words: Vec<Range<usize>> = Vec::new();
    tokenizer.tokens_into(text, &mut ids, &mut ranges, Some(&mut words));
    (ids, ranges, words)
}

#[test]
fn words_are_cut_into_the_longest_pieces() {
    let tokenizer = AlephAlphaTokenizer::from_vocab(vocab()).unwrap();
    let (ids, ranges, words) = run::<u64>(&tokenizer, "unaffable");
    assert_eq!(ids, vec![2, 4, 7, 3]);
    assert_eq!(ranges, vec![0..0, 0..2, 2..9, 9..9]);
    assert_eq!(words, vec![1..3]);
    let (ids, ranges, _) = run::<u64>(&tokenizer, "unaffun");
    assert_eq!(ids, vec![2, 4, 6, 10, 3]);
    assert_eq!(ranges, vec![0..0, 0..2, 2..5, 5..7, 7..7]);
}

#[test]
fn matching_is_greedy_and_does_not_go_back() {
    let tokenizer = AlephAlphaTokenizer::from_vocab(plain_vocab()).unwrap();
    // "ab" is taken first although "a" + "##bc" would cover the word
    let (ids, ranges, _) = run::<u64>(&tokenizer, "abcd");
    assert_eq!(ids, vec![7, 8]);
    assert_eq!(ranges, vec![0..3, 3..4]);
    let (ids, ranges, _) = run::<u64>(&tokenizer, "abbc");
    assert_eq!(ids, vec![5, 4]);
    assert_eq!(ranges, vec![0..2, 2..4]);
    // "abc" has no follower "##c": the longest starter "ab" decides
    let (ids, ranges, _) = run::<u64>(&tokenizer, "abx");
    assert_eq!(ids, vec![1]);
    assert_eq!(ranges, vec![0..3]);
}

#[test]
fn an_unmatched_word_is_one_unknown_token() {
    let tokenizer = AlephAlphaTokenizer::from_vocab(vocab()).unwrap();
    // no starter
    let (ids, ranges, words) = run::<u64>(&tokenizer, "xyz");
    assert_eq!(ids, vec![2, 1, 3]);
    assert_eq!(ranges, vec![0..0, 0..3, 3..3]);
    assert_eq!(words, vec![1..2]);
    // a starter and a follower fit, then nothing does
    let (ids, ranges, words) = run::<u64>(&tokenizer, "unaffx");
    assert_eq!(ids, vec![2, 1, 3]);
    assert_eq!(ranges, vec![0..0, 0..6, 6..6]);
    assert_eq!(words, vec![1..2]);
    // what came before and after stays
    let (ids, ranges, words) = run::<u64>(&tokenizer, "unable unaffx able");
    assert_eq!(ids, vec![2, 4, 5, 1, 9, 3]);
    assert_eq!(ranges, vec![0..0, 0..2, 2..6, 7..13, 14..18, 18..18]);
    assert_eq!(words, vec![1..3, 3..4, 4..5]);
}

#[test]
fn followers_do_not_begin_a_word() {
    let tokenizer = AlephAlphaTokenizer::from_vocab(vocab()).unwrap();
    let (ids, _, _) = run::<u64>(&tokenizer, "affable er ##er");
    assert_eq!(ids, vec![2, 8, 5, 1, 1, 3]);
}

#[test]
fn white_space_of_any_kind_and_length_parts_words() {
    let tokenizer = AlephAlphaTokenizer::from_vocab(plain_vocab()).unwrap();
    let text = "  a \t\n ab\r\nabc   ";
    let (ids, ranges, words) = run::<u64>(&tokenizer, text);
    assert_eq!(ids, vec![2, 5, 7]);
    assert_eq!(ranges, vec![2..3, 7..9, 11..14]);
    assert_eq!(words, vec![0..1, 1..2, 2..3]);
    // white space that takes more than one byte
    let text = "a\u{a0}ab\u{3000}\u{2003}abc\u{85}a";
    let (ids, ranges, words) = run::<u64>(&tokenizer, text);
    assert_eq!(ids, vec![2, 5, 7, 2]);
    assert_eq!(ranges, vec![0..1, 3..5, 11..14, 16..17]);
    assert_eq!(words, vec![0..1, 1..2, 2..3, 3..4]);
    for (range, word) in ranges.iter().zip(["a", "ab", "abc", "a"].iter()) {
        assert_eq!(&text[range.clone()], *word);
    }
}

#[test]
fn words_of_many_bytes_keep_their_byte_ranges() {
    let tokenizer = AlephAlphaTokenizer::from_vocab(vocab()).unwrap();
    let text = "größer 日本語 größe";
    let (ids, ranges, words) = run::<u64>(&tokenizer, text);
    assert_eq!(ids, vec![2, 13, 14, 16, 17, 13, 15, 3]);
    assert_eq!(ranges, vec![0..0, 0..6, 6..8, 9..15, 15..18, 19..25, 25..26, 26..26]);
    assert_eq!(words, vec![1..3, 3..5, 5..7]);
    assert_eq!(&text[ranges[3].clone()], "日本");
    assert_eq!(&text[ranges[4].clone()], "語");
    // a character of which only the first bytes would fit
    let (ids, ranges, _) = run::<u64>(&tokenizer, "日");
    assert_eq!(ids, vec![2, 1, 3]);
    assert_eq!(ranges, vec![0..0, 0..3, 3..3]);
}

#[test]
fn no_text_gives_only_prefix_and_suffix() {
    let tokenizer = AlephAlphaTokenizer::from_vocab(vocab()).unwrap();
    for text in ["", " ", "   \t\n", "\u{a0}\u{3000}"] {
        let (ids, ranges, words) = run::<u64>(&tokenizer, text);
        assert_eq!(ids, vec![2, 3]);
        assert_eq!(ranges, vec![0..0, 0..0]);
        assert!(words.is_empty());
    }
    let tokenizer = AlephAlphaTokenizer::from_vocab(plain_vocab()).unwrap();
    for text in ["", " ", "   \t\n"] {
        let (ids, ranges, words) = run::<u64>(&tokenizer, text);
        assert!(ids.is_empty());
        assert!(ranges.is_empty());
        assert!(words.is_empty());
    }
}

#[test]
fn the_suffix_stands_where_the_last_token_ends() {
    let tokenizer = AlephAlphaTokenizer::from_vocab(vocab()).unwrap();
    let (_, ranges, _) = run::<u64>(&tokenizer, "un   ");
    assert_eq!(ranges, vec![0..0, 0..2, 2..2]);
    let (_, ranges, _) = run::<u64>(&tokenizer, "  xyz ");
    assert_eq!(ranges, vec![0..0, 2..5, 5..5]);
}

#[test]
fn buffers_are_cleared_before_they_are_filled() {
    let tokenizer = AlephAlphaTokenizer::from_vocab(vocab()).unwrap();
    let mut ids: Vec<i32> = vec![77; 40];
    let mut ranges: Vec<Range<usize>> = vec![5..6; 3];
    let mut words: Vec<Range<usize>> = vec![1..2; 9];
    tokenizer.tokens_into("unaffable able xyz", &mut ids, &mut ranges, Some(&mut words));
    assert_eq!(ids, vec![2, 4, 7, 9, 1, 3]);
    assert_eq!(ranges, vec![0..0, 0..2, 2..9, 10..14, 15..18, 18..18]);
    assert_eq!(words, vec![1..3, 3..4, 4..5]);
    tokenizer.tokens_into("un", &mut ids, &mut ranges, Some(&mut words));
    assert_eq!(ids, vec![2, 4, 3]);
    assert_eq!(ranges, vec![0..0, 0..2, 2..2]);
    assert_eq!(words, vec![1..2]);
    tokenizer.tokens_into("", &mut ids, &mut ranges, None);
    assert_eq!(ids, vec![2, 3]);
    assert_eq!(ranges, vec![0..0, 0..0]);
    // a buffer that is not handed in is not touched
    assert_eq!(words, vec![1..2]);
}

#[test]
fn the_same_text_gives_the_same_tokens() {
    let tokenizer = AlephAlphaTokenizer::from_vocab(vocab()).unwrap();
    let text = "unaffable größer xyz 日本語  un";
    let first = run::<u64>(&tokenizer, text);
    let second = run::<u64>(&tokenizer, text);
    assert_eq!(first, second);
    let other = AlephAlphaTokenizer::from_vocab(vocab()).unwrap();
    assert_eq!(run::<u64>(&other, text), first);
}

#[test]
fn ids_and_ranges_go_together() {
    let tokenizer = AlephAlphaTokenizer::from_vocab(vocab()).unwrap();
    let text = " unaffable  xyz größer\t日本語 u n un\n";
    let (ids, ranges, words) = run::<u64>(&tokenizer, text);
    assert_eq!(ids.len(), ranges.len());
    for (i, range) in ranges.iter().enumerate() {
        assert!(range.start <= range.end && range.end <= text.len());
        if i != 0 && i != ranges.len() - 1 {
            assert!(range.start < range.end);
        }
        if i > 0 {
            assert!(ranges[i - 1].end <= range.start);
        }
    }
    assert_eq!(words.first().unwrap().start, 1);
    assert_eq!(words.last().unwrap().end, ids.len() - 1);
    for pair in words.windows(2) {
        assert_eq!(pair[0].end, pair[1].start);
    }
    assert_eq!(words.len(), 7);
}

#[test]
fn ids_are_written_in_the_type_asked_for() {
    let tokenizer = AlephAlphaTokenizer::from_vocab(vocab()).unwrap();
    let (ids, _, _) = run::<u64>(&tokenizer, "unable xyz");
    assert_eq!(ids, vec![2u64, 4, 5, 1, 3]);
    let (ids, _, _) = run::<i64>(&tokenizer, "unable xyz");
    assert_eq!(ids, vec![2i64, 4, 5, 1, 3]);
    let (ids, _, _) = run::<i32>(&tokenizer, "unable xyz");
    assert_eq!(ids, vec![2i32, 4, 5, 1, 3]);
}
