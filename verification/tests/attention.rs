use aleph_alpha_tokenizer::token_id::TokenID;
use aleph_alpha_tokenizer::tokenizer::AlephAlphaTokenizer;

#[test]
fn attention_is_none_for_padding() {
    let pad_attention: i64 = AlephAlphaTokenizer::attention(0u64);
    let token_attention: i32 = AlephAlphaTokenizer::attention(99i32);
    assert_eq!(pad_attention, 0);
    assert_eq!(token_attention, 1);
    let negative: u64 = AlephAlphaTokenizer::attention(-5i64);
    assert_eq!(negative, 1);
    let large: i32 = AlephAlphaTokenizer::attention(u64::MAX);
    assert_eq!(large, 1);
}

#[test]
fn attentions_follow_the_ids() {
    let mut attns: Vec<i32> = Vec::new();
    AlephAlphaTokenizer::attentions_into(&[3, 4285, 4, 0, 0], &mut attns);
    assert_eq!(&attns[..], &[1, 1, 1, 0, 0]);
    let mut attns: Vec<u64> = vec![9, 9, 9, 9, 9, 9, 9];
    AlephAlphaTokenizer::attentions_into(&[0i64, -1, 0, 7], &mut attns);
    assert_eq!(attns, vec![0, 1, 0, 1]);
    AlephAlphaTokenizer::attentions_into::<u64, u64>(&[], &mut attns);
    assert!(attns.is_empty());
}

#[test]
fn token_ids_convert_there_and_back() {
    assert_eq!(<u64 as TokenID>::zero(), 0);
    assert_eq!(<i64 as TokenID>::zero(), 0);
    assert_eq!(<i32 as TokenID>::zero(), 0);
    assert_eq!(<u64 as TokenID>::coerce(26889), 26889u64);
    assert_eq!(<i64 as TokenID>::coerce(26889), 26889i64);
    assert_eq!(<i32 as TokenID>::coerce(26889), 26889i32);
    assert_eq!(26889u64.restore(), 26889);
    assert_eq!(26889i64.restore(), 26889);
    assert_eq!(26889i32.restore(), 26889);
    assert_eq!(<u64 as TokenID>::coerce(u64::MAX).restore(), u64::MAX);
    assert_eq!(<i64 as TokenID>::coerce(u64::MAX), -1);
    assert_eq!(<i64 as TokenID>::coerce(u64::MAX).restore(), u64::MAX);
    assert_eq!(<i32 as TokenID>::coerce(0x7fff_ffff).restore(), 0x7fff_ffff);
    assert_eq!(<i32 as TokenID>::coerce(0x1_0000_0005), 5);
    assert_eq!(<i32 as TokenID>::coerce(0x8000_0000), i32::MIN);
    assert_eq!((-1i32).restore(), u64::MAX);
}
