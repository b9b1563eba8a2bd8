use aleph_alpha_tokenizer::tokenizer::AlephAlphaTokenizer;
use std::ops::Range;

fn german_vocab() -> Vec<String> {
    let mut lines: Vec<String> = Vec::new();
    for i in 0..26890usize {
        lines.push(format!("[unused{}]", i));
    }
    lines[0] = "[PAD]".to_string();
    lines[2] = "[UNK]".to_string();
    lines[3] = "[CLS]".to_string();
    lines[4] = "[SEP]".to_string();
    lines[198] = "Ein".to_string();
    lines[19168] = "interessantes".to_string();
    lines[26889] = "Beispiel".to_string();
    lines
}

#[test]
fn tokenizes_the_german_example() {
    let tokenizer = AlephAlphaTokenizer::from_vocab(german_vocab()).unwrap();
    let text = "Ein interessantes Beispiel";
    let mut ids: Vec<i64> = Vec::new();
    let mut ranges: Vec<Range<usize>> = Vec::new();
    tokenizer.tokens_into(text, &mut ids, &mut ranges, None);
    assert_eq!(ids, vec![3, 198, 19168, 26889, 4]);
    assert_eq!(ranges, vec![0..0, 0..3, 4..17, 18..26, 26..26]);
    assert_eq!(&text[ranges[1].clone()], "Ein");
    assert_eq!(&text[ranges[2].clone()], "interessantes");
    assert_eq!(&text[ranges[3].clone()], "Beispiel");
}
