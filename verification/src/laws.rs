//! What holds of every segmentation.

use crate::automaton::{lemma_longest_match_bounds, longest_match};
use crate::segment::{
    follow, ids_of, is_chain, is_entry, lemma_cut_entries, lemma_word_chain, lemma_words_ordered,
    prefix_pieces, ranges_of, segment_text, segment_word, segment_words, suffix_pieces, unknown,
    Lexicon, Piece,
};
use crate::token_id::TokenID;
use crate::attention::attention_of;
use std::ops::Range;
use vstd::prelude::*;
use vstd::utf8::encode_utf8;

verus! {

/// Whether `ids` and `ranges` are what a text yields with a lexicon.
pub open spec fn is_output<T: TokenID>(
    lex: Lexicon,
    text: Seq<char>,
    ids: Seq<T>,
    ranges: Seq<Range<usize>>,
) -> bool {
    ids == ids_of::<T>(segment_text(lex, text)) && ranges == ranges_of(segment_text(lex, text))
}

/// The same text yields the same ids and ranges with the same lexicon,
/// whenever it is asked for and whatever the buffers held before.
pub proof fn lemma_output_determined<T: TokenID>(
    lex: Lexicon,
    text: Seq<char>,
    ids: Seq<T>,
    ranges: Seq<Range<usize>>,
    ids_again: Seq<T>,
    ranges_again: Seq<Range<usize>>,
)
    requires
        is_output(lex, text, ids, ranges),
        is_output(lex, text, ids_again, ranges_again),
    ensures
        ids == ids_again,
        ranges == ranges_again,
{
}

/// Whether piece `i` of the tokens of a text is the prefix token or the
/// suffix token.
pub open spec fn is_boundary(lex: Lexicon, text: Seq<char>, i: int) -> bool {
    ||| i == 0 && lex.prefix is Some
    ||| i == segment_text(lex, text).len() - 1 && lex.suffix is Some
}

/// There are as many ids as ranges. Every range lies within the text and
/// is empty only for the prefix and the suffix token, and each ends before
/// the next begins. The ranges of the output are those of the pieces, as
/// the bytes of a text can be counted in `usize`.
pub proof fn lemma_output_structure<T: TokenID>(lex: Lexicon, text: Seq<char>)
    ensures
        ids_of::<T>(segment_text(lex, text)).len() == ranges_of(segment_text(lex, text)).len(),
        forall|i: int|
            0 <= i < segment_text(lex, text).len() ==> 0 <= (#[trigger] segment_text(
                lex,
                text,
            )[i]).start <= segment_text(lex, text)[i].end <= encode_utf8(text).len(),
        forall|i: int|
            0 <= i < segment_text(lex, text).len() && !is_boundary(lex, text, i) ==> (
            #[trigger] segment_text(lex, text)[i]).start < segment_text(lex, text)[i].end,
        forall|i: int, j: int|
            0 <= i < j < segment_text(lex, text).len() ==> (#[trigger] segment_text(
                lex,
                text,
            )[i]).end <= (#[trigger] segment_text(lex, text)[j]).start,
        encode_utf8(text).len() <= usize::MAX ==> forall|i: int|
            0 <= i < segment_text(lex, text).len() ==> (#[trigger] ranges_of(
                segment_text(lex, text),
            )[i]).start == segment_text(lex, text)[i].start && ranges_of(
                segment_text(lex, text),
            )[i].end == segment_text(lex, text)[i].end,
{
    let total = encode_utf8(text).len() as int;
    let pre = prefix_pieces(lex);
    let words = segment_words(lex, text, 0);
    let body = pre + words;
    let post = suffix_pieces(lex, body);
    let out = segment_text(lex, text);
    lemma_words_ordered(lex, text, 0);
    assert(text.take(0) =~= Seq::<char>::empty());
    assert(out == body + post);
    assert forall|i: int| 0 <= i < out.len() implies 0 <= (#[trigger] out[i]).start <= out[i].end
        <= total by {
        if i < pre.len() {
            assert(out[i] == pre[i]);
        } else if i < body.len() {
            assert(out[i] == words[i - pre.len()]);
        } else {
            assert(out[i] == post[i - body.len()]);
            if body.len() > 0 {
                if words.len() > 0 {
                    assert(body.last() == words.last());
                } else {
                    assert(body.last() == pre.last());
                }
            }
        }
    }
    assert forall|i: int| 0 <= i < out.len() && !is_boundary(lex, text, i) implies (
    #[trigger] out[i]).start < out[i].end by {
        if i < pre.len() {
        } else if i < body.len() {
            assert(out[i] == words[i - pre.len()]);
        } else {
        }
    }
    assert forall|i: int, j: int| 0 <= i < j < out.len() implies (#[trigger] out[i]).end <= (
    #[trigger] out[j]).start by {
        if i < pre.len() {
            assert(out[i] == pre[i]);
        } else if i < body.len() {
            assert(out[i] == words[i - pre.len()]);
        }
        if j < body.len() {
            assert(out[j] == words[j - pre.len()]);
        } else {
            assert(out[j] == post[j - body.len()]);
            if words.len() > 0 {
                assert(body.last() == words.last());
            } else {
                assert(body.last() == pre.last());
            }
        }
    }
}

/// Whether cutting a word greedily into followers from byte `pos` on comes
/// to a place before its end where no follower fits.
pub open spec fn stalls(followers: Map<Seq<u8>, u64>, word: Seq<u8>, pos: int) -> bool
    recommends
        0 <= pos <= word.len(),
    decreases word.len() - pos,
    when 0 <= pos
    via stalls_decreases
{
    if pos >= word.len() {
        false
    } else {
        let rest = word.skip(pos);
        let n = longest_match(followers, rest, rest.len() as int);
        n <= 0 || stalls(followers, word, pos + n)
    }
}

#[via_fn]
proof fn stalls_decreases(followers: Map<Seq<u8>, u64>, word: Seq<u8>, pos: int) {
    if 0 <= pos < word.len() {
        let rest = word.skip(pos);
        lemma_longest_match_bounds(followers, rest, rest.len() as int);
    }
}

/// Whether a word cannot be cut: no starter fits at its beginning, or
/// behind the longest one the followers stall.
pub open spec fn is_unmatched(lex: Lexicon, word: Seq<u8>) -> bool {
    let n = longest_match(lex.starters, word, word.len() as int);
    n <= 0 || stalls(lex.followers, word, n)
}

proof fn lemma_stalls(followers: Map<Seq<u8>, u64>, word: Seq<u8>, pos: int, base: int)
    requires
        0 <= pos <= word.len(),
    ensures
        stalls(followers, word, pos) <==> follow(followers, word, pos, base) is None,
    decreases word.len() - pos,
{
    if pos < word.len() {
        let rest = word.skip(pos);
        let n = longest_match(followers, rest, rest.len() as int);
        lemma_longest_match_bounds(followers, rest, rest.len() as int);
        if n > 0 {
            lemma_stalls(followers, word, pos + n, base);
        }
    }
}

/// A word that is unmatched at any place that cutting comes to yields the
/// unknown token once, over the whole word, and nothing else. Any other
/// word yields a starter and followers that cover it without a gap.
pub proof fn lemma_unknown_is_whole(lex: Lexicon, word: Seq<u8>, base: int)
    requires
        word.len() > 0,
    ensures
        is_unmatched(lex, word) ==> segment_word(lex, word, base) == seq![
            Piece { id: lex.unk, start: base, end: base + word.len() },
        ],
        !is_unmatched(lex, word) ==> {
            let pieces = segment_word(lex, word, base);
            &&& is_chain(pieces, base, base + word.len())
            &&& is_entry(lex.starters, word, base, pieces[0])
            &&& forall|i: int|
                0 < i < pieces.len() ==> is_entry(lex.followers, word, base, #[trigger] pieces[i])
        },
{
    let n = longest_match(lex.starters, word, word.len() as int);
    lemma_longest_match_bounds(lex.starters, word, word.len() as int);
    if n > 0 {
        lemma_stalls(lex.followers, word, n, base);
    }
    lemma_cut_entries(lex, word, base);
    lemma_word_chain(lex, word, base);
}

/// There are as many attentions as ids, and an attention is zero exactly
/// where the id is.
pub proof fn lemma_attention_mirrors<T: TokenID, U: TokenID>(ids: Seq<T>)
    ensures
        Seq::new(ids.len(), |i: int| attention_of::<T, U>(ids[i])).len() == ids.len(),
        forall|i: int|
            0 <= i < ids.len() ==> (#[trigger] attention_of::<T, U>(ids[i]) == U::zero_value()
                <==> ids[i] == T::zero_value()),
{
    U::one_is_not_zero();
}

} // verus!
