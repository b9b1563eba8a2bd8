//! Cutting words and texts into tokens.

use crate::automaton::lemma_longest_match_bounds;
use crate::segment::{
    bounds_of, cut_pieces, cut_word, follow, ids_of, lemma_ids_of_concat, lemma_words_ordered,
    prefix_pieces, ranges_of, segment_text, segment_word, segment_words, suffix_pieces,
    text_word_bounds, unknown, word_bounds, Lexicon, Piece,
};
use crate::text::{
    is_run, is_space, lemma_offset_order, lemma_offset_step, lemma_span_bytes, lemma_word_end,
    offset,
};
use crate::token_id::TokenID;
use crate::tokenizer::AlephAlphaTokenizer;
use crate::vocab::lexicon;
use std::ops::Range;
use vstd::prelude::*;
use vstd::slice::slice_subrange;
use vstd::std_specs::iter::IteratorSpec;
use vstd::utf8::encode_utf8;

verus! {

/// The pieces of the word that takes the characters from `from` to `to`.
spec fn word_at(lex: Lexicon, text: Seq<char>, from: int, to: int) -> Seq<Piece> {
    segment_word(lex, encode_utf8(text.subrange(from, to)), offset(text, from))
}

/// The places in the output that the tokens of that word take, where
/// `done` are the pieces of the words before it.
spec fn bound_at(lex: Lexicon, text: Seq<char>, from: int, to: int, done: Seq<Piece>) -> (int, int) {
    let at = (prefix_pieces(lex).len() + done.len()) as int;
    (at, at + word_at(lex, text, from, to).len())
}

/// What holds when the word from `from` to `to` has been cut, where `done`
/// and `bounds` stood for the words before it: with its pieces and its
/// places put behind them, they stand for the words before `to`.
proof fn lemma_word_done<T: TokenID>(
    lex: Lexicon,
    text: Seq<char>,
    from: int,
    to: int,
    done: Seq<Piece>,
    bounds: Seq<(int, int)>,
)
    requires
        0 <= from < to <= text.len(),
        is_run(text, from, to - from),
        to == text.len() || is_space(text[to]),
        done + segment_words(lex, text, from) == segment_words(lex, text, 0),
        bounds + word_bounds(lex, text, from, (prefix_pieces(lex).len() + done.len()) as int)
            == text_word_bounds(lex, text),
    ensures
        ({
            let pre = prefix_pieces(lex);
            let w = word_at(lex, text, from, to);
            let b = bound_at(lex, text, from, to, done);
            &&& ids_of::<T>(pre + (done + w)) == ids_of::<T>(pre + done) + ids_of::<T>(w)
            &&& ranges_of(pre + (done + w)) == ranges_of(pre + done) + ranges_of(w)
            &&& (done + w) + segment_words(lex, text, to) == segment_words(lex, text, 0)
            &&& bounds.push(b) + word_bounds(lex, text, to, b.1) == text_word_bounds(lex, text)
            &&& b.0 == pre.len() + done.len()
            &&& b.1 == pre.len() + (done + w).len()
            &&& bounds_of(bounds.push(b)) == bounds_of(bounds).push(
                Range { start: b.0 as usize, end: b.1 as usize },
            )
        }),
{
    let pre = prefix_pieces(lex);
    let w = word_at(lex, text, from, to);
    let b = bound_at(lex, text, from, to, done);
    lemma_word_end(text, from, to);
    assert(!is_space(text[from]));
    lemma_ids_of_concat::<T>(pre + done, w);
    assert(pre + done + w =~= pre + (done + w));
    assert(done + (w + segment_words(lex, text, to)) =~= (done + w) + segment_words(lex, text, to));
    assert(bounds + (seq![b] + word_bounds(lex, text, to, b.1)) =~= bounds.push(b) + word_bounds(
        lex,
        text,
        to,
        b.1,
    ));
    assert(bounds_of(bounds.push(b)) =~= bounds_of(bounds).push(
        Range { start: b.0 as usize, end: b.1 as usize },
    ));
}

impl AlephAlphaTokenizer {
    #[inline]
    fn add_prefix<T: TokenID>(&self, token_ids: &mut Vec<T>, token_ranges: &mut Vec<Range<usize>>)
        ensures
            final(token_ids)@ == old(token_ids)@ + ids_of::<T>(prefix_pieces(lexicon(self@))),
            final(token_ranges)@ == old(token_ranges)@ + ranges_of(
                prefix_pieces(lexicon(self@)),
            ),
    {
        if let Some(id) = self.prefix_id() {
            token_ids.push(T::coerce(id));
            token_ranges.push(0..0);
        }
        proof {
            let pieces = prefix_pieces(lexicon(self@));
            assert(token_ids@ =~= old(token_ids)@ + ids_of::<T>(pieces));
            assert(token_ranges@ =~= old(token_ranges)@ + ranges_of(pieces));
        }
    }

    #[inline]
    fn add_suffix<T: TokenID>(
        &self,
        token_ids: &mut Vec<T>,
        token_ranges: &mut Vec<Range<usize>>,
        Ghost(before): Ghost<Seq<Piece>>,
    )
        requires
            old(token_ranges)@ == ranges_of(before),
            before.len() > 0 ==> 0 <= before.last().end <= usize::MAX,
        ensures
            final(token_ids)@ == old(token_ids)@ + ids_of::<T>(
                suffix_pieces(lexicon(self@), before),
            ),
            final(token_ranges)@ == old(token_ranges)@ + ranges_of(
                suffix_pieces(lexicon(self@), before),
            ),
    {
        if let Some(id) = self.suffix_id() {
            let n = token_ranges.len();
            let pos = if n > 0 {
                token_ranges[n - 1].end
            } else {
                0
            };
            token_ids.push(T::coerce(id));
            token_ranges.push(pos..pos);
        }
        proof {
            let pieces = suffix_pieces(lexicon(self@), before);
            assert(token_ids@ =~= old(token_ids)@ + ids_of::<T>(pieces));
            assert(token_ranges@ =~= old(token_ranges)@ + ranges_of(pieces));
        }
    }

    /// Appends the pieces of the word that takes the bytes from `start` to
    /// `end` of `text`, if it can be cut into entries, and tells whether it
    /// could. The buffers are left as they were where it could not.
    pub(crate) fn cut_into<T: TokenID>(
        &self,
        text: &[u8],
        start: usize,
        end: usize,
        token_ids: &mut Vec<T>,
        token_ranges: &mut Vec<Range<usize>>,
    ) -> (whole: bool)
        requires
            start <= end <= text.len(),
            old(token_ids).len() == old(token_ranges).len(),
        ensures
            whole == cut_word(
                lexicon(self@),
                text@.subrange(start as int, end as int),
                start as int,
            ) is Some,
            final(token_ids)@ == old(token_ids)@ + ids_of::<T>(
                cut_pieces(lexicon(self@), text@.subrange(start as int, end as int), start as int),
            ),
            final(token_ranges)@ == old(token_ranges)@ + ranges_of(
                cut_pieces(lexicon(self@), text@.subrange(start as int, end as int), start as int),
            ),
    {
        let ghost lex = lexicon(self@);
        let ghost word = text@.subrange(start as int, end as int);
        let ghost ids0 = token_ids@;
        let ghost ranges0 = token_ranges@;
        let word_index = token_ids.len();
        proof {
            assert(ids0 + ids_of::<T>(Seq::empty()) =~= ids0);
            assert(ranges0 + ranges_of(Seq::empty()) =~= ranges0);
        }
        if let Some((len, id)) = self.longest_starter(slice_subrange(text, start, end)) {
            proof {
                lemma_longest_match_bounds(lex.starters, word, word.len() as int);
            }
            let mut last_index = start + len;
            token_ids.push(T::coerce(id));
            token_ranges.push(start..last_index);
            let ghost first = Piece { id, start: start as int, end: last_index as int };
            let ghost mut done: Seq<Piece> = Seq::empty();
            proof {
                assert(token_ids@ =~= ids0 + ids_of::<T>(seq![first] + done));
                assert(token_ranges@ =~= ranges0 + ranges_of(seq![first] + done));
                assert(done + follow(lex.followers, word, len as int, start as int).unwrap()
                    =~= follow(lex.followers, word, len as int, start as int).unwrap());
            }
            while last_index < end
                invariant
                    start < last_index <= end <= text.len(),
                    start + len <= last_index,
                    word == text@.subrange(start as int, end as int),
                    lex == lexicon(self@),
                    token_ids@ == ids0 + ids_of::<T>(seq![first] + done),
                    token_ranges@ == ranges0 + ranges_of(seq![first] + done),
                    follow(lex.followers, word, len as int, start as int) == (match follow(
                        lex.followers,
                        word,
                        last_index - start,
                        start as int,
                    ) {
                        Some(more) => Some(done + more),
                        None => None,
                    }),
                ensures
                    last_index < end ==> follow(lex.followers, word, len as int, start as int)
                        is None,
                    last_index >= end ==> follow(lex.followers, word, len as int, start as int)
                        == Some(done),
                decreases end - last_index,
            {
                let ghost pos = last_index - start;
                let ghost rest = word.skip(pos);
                proof {
                    assert(rest =~= text@.subrange(last_index as int, end as int));
                    lemma_longest_match_bounds(lex.followers, rest, rest.len() as int);
                }
                if let Some((len, id)) = self.longest_follower(
                    slice_subrange(text, last_index, end),
                ) {
                    let next_index = last_index + len;
                    let ghost piece = Piece { id, start: last_index as int, end: next_index as int };
                    token_ids.push(T::coerce(id));
                    token_ranges.push(last_index..next_index);
                    proof {
                        let more = follow(lex.followers, word, pos + len, start as int);
                        if more is Some {
                            assert(done + (seq![piece] + more.unwrap()) =~= done.push(piece)
                                + more.unwrap());
                        }
                        assert(token_ids@ =~= ids0 + ids_of::<T>(seq![first] + done.push(piece)));
                        assert(token_ranges@ =~= ranges0 + ranges_of(
                            seq![first] + done.push(piece),
                        ));
                        done = done.push(piece);
                    }
                    last_index = next_index;
                } else {
                    break ;
                }
            }
            if last_index < end {
                token_ids.truncate(word_index);
                token_ranges.truncate(word_index);
                proof {
                    assert(token_ids@ =~= ids0);
                    assert(token_ranges@ =~= ranges0);
                }
                false
            } else {
                true
            }
        } else {
            false
        }
    }

    /// Appends the tokens of the word that takes the bytes from `start` to
    /// `end` of `text`: its pieces or, where it cannot be cut into entries,
    /// the unknown token over the whole of it.
    fn tokenize_word<T: TokenID>(
        &self,
        text: &[u8],
        start: usize,
        end: usize,
        token_ids: &mut Vec<T>,
        token_ranges: &mut Vec<Range<usize>>,
    )
        requires
            start < end <= text.len(),
            old(token_ids).len() == old(token_ranges).len(),
        ensures
            final(token_ids)@ == old(token_ids)@ + ids_of::<T>(
                segment_word(lexicon(self@), text@.subrange(start as int, end as int), start as int),
            ),
            final(token_ranges)@ == old(token_ranges)@ + ranges_of(
                segment_word(lexicon(self@), text@.subrange(start as int, end as int), start as int),
            ),
    {
        if !self.cut_into(text, start, end, token_ids, token_ranges) {
            token_ids.push(T::coerce(self.unknown_id()));
            token_ranges.push(start..end);
            proof {
                let pieces = unknown(lexicon(self@), start as int, end as int);
                assert(token_ids@ =~= old(token_ids)@ + ids_of::<T>(pieces));
                assert(token_ranges@ =~= old(token_ranges)@ + ranges_of(pieces));
            }
        }
    }

    /// Appends the tokens of one word and, where `track` is set, the places
    /// in the output that they take.
    fn push_word<T: TokenID>(
        &self,
        text: &[u8],
        start: usize,
        end: usize,
        token_ids: &mut Vec<T>,
        token_ranges: &mut Vec<Range<usize>>,
        words: &mut Vec<Range<usize>>,
        track: bool,
    )
        requires
            start < end <= text.len(),
            old(token_ids).len() == old(token_ranges).len(),
        ensures
            final(token_ids)@ == old(token_ids)@ + ids_of::<T>(
                segment_word(lexicon(self@), text@.subrange(start as int, end as int), start as int),
            ),
            final(token_ranges)@ == old(token_ranges)@ + ranges_of(
                segment_word(lexicon(self@), text@.subrange(start as int, end as int), start as int),
            ),
            final(words)@ == if track {
                old(words)@.push(
                    Range { start: old(token_ids).len(), end: final(token_ids).len() },
                )
            } else {
                old(words)@
            },
    {
        let last_token = token_ids.len();
        self.tokenize_word(text, start, end, token_ids, token_ranges);
        if track {
            words.push(last_token..token_ids.len());
        }
    }

    /// Clears the three buffers and fills them with the tokens of `text`;
    /// `words` only where `track` is set.
    fn segment_into<T: TokenID>(
        &self,
        text: &str,
        token_ids: &mut Vec<T>,
        token_ranges: &mut Vec<Range<usize>>,
        words: &mut Vec<Range<usize>>,
        track: bool,
    )
        ensures
            final(token_ids)@ == ids_of::<T>(segment_text(lexicon(self@), text@)),
            final(token_ranges)@ == ranges_of(segment_text(lexicon(self@), text@)),
            final(words)@ == if track {
                bounds_of(text_word_bounds(lexicon(self@), text@))
            } else {
                Seq::empty()
            },
    {
        broadcast use vstd::string::group_string_axioms;

        let ghost lex = lexicon(self@);
        let ghost chars = text@;
        let ghost pre = prefix_pieces(lex);
        let bytes = text.as_bytes();
        let ghost total = bytes.len();
        token_ids.clear();
        token_ranges.clear();
        words.clear();
        self.add_prefix(token_ids, token_ranges);
        let mut it = text.chars();
        let mut offs: usize = 0;
        let mut in_word = false;
        let mut word_start: usize = 0;
        let ghost mut k: int = 0;
        let ghost mut from: int = 0;
        let ghost mut done: Seq<Piece> = Seq::empty();
        let ghost mut bounds: Seq<(int, int)> = Seq::empty();
        proof {
            assert(pre + done =~= pre);
            assert(done + segment_words(lex, chars, 0) =~= segment_words(lex, chars, 0));
            assert(bounds + word_bounds(lex, chars, 0, pre.len() as int) =~= text_word_bounds(
                lex,
                chars,
            ));
            assert(chars.take(0) =~= Seq::<char>::empty());
            assert(bounds_of(bounds) =~= Seq::<Range<usize>>::empty());
        }
        loop
            invariant
                lex == lexicon(self@),
                chars == text@,
                pre == prefix_pieces(lex),
                bytes@ == encode_utf8(chars),
                bytes@.len() == total,
                0 <= from <= k <= chars.len(),
                it.remaining() == chars.skip(k),
                offs == offset(chars, k),
                in_word ==> word_start == offset(chars, from),
                in_word <==> from < k,
                is_run(chars, from, k - from),
                token_ids@ == ids_of::<T>(pre + done),
                token_ranges@ == ranges_of(pre + done),
                words@ == if track {
                    bounds_of(bounds)
                } else {
                    Seq::empty()
                },
                done + segment_words(lex, chars, from) == segment_words(lex, chars, 0),
                bounds + word_bounds(lex, chars, from, (pre.len() + done.len()) as int)
                    == text_word_bounds(lex, chars),
            ensures
                k == chars.len(),
            decreases chars.len() - k,
        {
            match it.next() {
                Some(c) => {
                    assert(c == chars[k]);
                    let n = c.len_utf8();
                    proof {
                        lemma_offset_step(chars, k);
                        assert(offs + n <= total);
                    }
                    if c.is_whitespace() {
                        if in_word {
                            proof {
                                lemma_offset_order(chars, from, k);
                                lemma_span_bytes(chars, from, k);
                            }
                            self.push_word(
                                bytes,
                                word_start,
                                offs,
                                token_ids,
                                token_ranges,
                                words,
                                track,
                            );
                            proof {
                                lemma_word_done::<T>(lex, chars, from, k, done, bounds);
                                let w = word_at(lex, chars, from, k);
                                bounds = bounds.push(bound_at(lex, chars, from, k, done));
                                done = done + w;
                            }
                            in_word = false;
                        }
                        proof {
                            from = k + 1;
                        }
                    } else {
                        if !in_word {
                            word_start = offs;
                            in_word = true;
                        }
                    }
                    offs = offs + n;
                    proof {
                        k = k + 1;
                    }
                },
                None => {
                    break ;
                },
            }
        }
        if in_word {
            proof {
                lemma_offset_order(chars, from, k);
                lemma_span_bytes(chars, from, k);
                assert(chars.take(k) =~= chars);
            }
            self.push_word(bytes, word_start, offs, token_ids, token_ranges, words, track);
            proof {
                lemma_word_done::<T>(lex, chars, from, k, done, bounds);
                let w = word_at(lex, chars, from, k);
                bounds = bounds.push(bound_at(lex, chars, from, k, done));
                done = done + w;
                from = k;
            }
        }
        proof {
            assert(done + segment_words(lex, chars, k) =~= done);
            assert(bounds + word_bounds(lex, chars, k, (pre.len() + done.len()) as int) =~= bounds);
            lemma_words_ordered(lex, chars, 0);
            assert(chars.take(0) =~= Seq::<char>::empty());
            if (pre + done).len() > 0 {
                if done.len() > 0 {
                    assert((pre + done).last() == done.last());
                } else {
                    assert((pre + done).last() == pre.last());
                }
            }
            assert(segment_text(lex, chars) == pre + done + suffix_pieces(lex, pre + done));
        }
        self.add_suffix(token_ids, token_ranges, Ghost(pre + done));
        proof {
            lemma_ids_of_concat::<T>(pre + done, suffix_pieces(lex, pre + done));
        }
    }

    /// tokenize the given text into a `&mut Vec<u64>` for ids and
    /// `&mut Vec<Range<usize>>` for source ranges respectively, optionally
    /// filling a `words` `&mut Vec<Range>` with ranges into the tokens array
    /// with the words' token indices.
    ///
    /// This works by first splitting by whitespace, then gathering the longest
    /// prefix in our token tree (first the starters, then the followers) until
    /// the word is complete, or inserting a `[UNK]` token if the word couldn't
    /// fully be tokenized. This is what wordpiece does, too.
    ///
    /// Note: The output `Vec`s will be cleared before appending tokens.
    pub fn tokens_into<T: TokenID>(
        &self,
        text: &str,
        token_ids: &mut Vec<T>,
        token_ranges: &mut Vec<Range<usize>>,
        words: Option<&mut Vec<Range<usize>>>,
    )
        ensures
            final(token_ids)@ == ids_of::<T>(segment_text(lexicon(self@), text@)),
            final(token_ranges)@ == ranges_of(segment_text(lexicon(self@), text@)),
            final(token_ids)@.len() == final(token_ranges)@.len(),
            match words {
                Some(w) => final(w)@ == bounds_of(text_word_bounds(lexicon(self@), text@)),
                None => true,
            },
    {
        match words {
            Some(w) => {
                self.segment_into(text, token_ids, token_ranges, w, true);
            },
            None => {
                let mut unused: Vec<Range<usize>> = Vec::new();
                self.segment_into(text, token_ids, token_ranges, &mut unused, false);
            },
        }
    }
}

} // verus!
