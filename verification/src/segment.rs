//! What segmentation yields, stated over the two key sets of a vocabulary.

use crate::automaton::{lemma_longest_match_bounds, longest_match};
use crate::text::{
    is_space, lemma_offset_order, lemma_span_bytes, lemma_word_end_bounds, offset, word_end,
};
use crate::token_id::TokenID;
use std::ops::Range;
use vstd::prelude::*;
use vstd::utf8::encode_utf8;

verus! {

/// What segmentation consults: the entries that may begin a word and those
/// that may continue one, each with its id, and the ids with a role.
pub struct Lexicon {
    /// Entries that may begin a word.
    pub starters: Map<Seq<u8>, u64>,
    /// Entries that may continue a word, without their marker.
    pub followers: Map<Seq<u8>, u64>,
    /// The id given to a word that cannot be cut into entries.
    pub unk: u64,
    /// The id put before the first word, if any.
    pub prefix: Option<u64>,
    /// The id put after the last word, if any.
    pub suffix: Option<u64>,
}

/// One token of the output: an id and the bytes of the text it stands for.
pub struct Piece {
    pub id: u64,
    pub start: int,
    pub end: int,
}

/// The pieces that continue a word from byte `pos` of it to its end, each
/// the longest follower at its place; `None` where at some place no
/// follower fits. `base` is the offset of the word in the text.
pub open spec fn follow(followers: Map<Seq<u8>, u64>, word: Seq<u8>, pos: int, base: int) -> Option<
    Seq<Piece>,
>
    recommends
        0 <= pos <= word.len(),
    decreases word.len() - pos,
    when 0 <= pos
    via follow_decreases
{
    if pos >= word.len() {
        Some(Seq::empty())
    } else {
        let rest = word.skip(pos);
        let n = longest_match(followers, rest, rest.len() as int);
        if n <= 0 {
            None
        } else {
            match follow(followers, word, pos + n, base) {
                Some(more) => Some(
                    seq![Piece { id: followers[rest.take(n)], start: base + pos, end: base + pos + n }]
                        + more,
                ),
                None => None,
            }
        }
    }
}

#[via_fn]
proof fn follow_decreases(followers: Map<Seq<u8>, u64>, word: Seq<u8>, pos: int, base: int) {
    if 0 <= pos < word.len() {
        let rest = word.skip(pos);
        lemma_longest_match_bounds(followers, rest, rest.len() as int);
    }
}

/// The pieces of a word that can be cut into entries: the longest starter
/// at its beginning, then followers to its end. `None` where no starter
/// fits or the followers do not reach the end.
pub open spec fn cut_word(lex: Lexicon, word: Seq<u8>, base: int) -> Option<Seq<Piece>> {
    let n = longest_match(lex.starters, word, word.len() as int);
    if n <= 0 {
        None
    } else {
        match follow(lex.followers, word, n, base) {
            Some(more) => Some(
                seq![Piece { id: lex.starters[word.take(n)], start: base, end: base + n }] + more,
            ),
            None => None,
        }
    }
}

/// The pieces of a word that can be cut into entries, and nothing for one
/// that cannot.
pub open spec fn cut_pieces(lex: Lexicon, word: Seq<u8>, base: int) -> Seq<Piece> {
    match cut_word(lex, word, base) {
        Some(pieces) => pieces,
        None => Seq::empty(),
    }
}

/// The unknown token over a whole word.
pub open spec fn unknown(lex: Lexicon, start: int, end: int) -> Seq<Piece> {
    seq![Piece { id: lex.unk, start, end }]
}

/// The pieces of one word: its cut into entries, or else the unknown token
/// over the whole of it.
pub open spec fn segment_word(lex: Lexicon, word: Seq<u8>, base: int) -> Seq<Piece> {
    match cut_word(lex, word, base) {
        Some(pieces) => pieces,
        None => unknown(lex, base, base + word.len()),
    }
}

/// The pieces of the words of `text` that begin at character `i` or later.
pub open spec fn segment_words(lex: Lexicon, text: Seq<char>, i: int) -> Seq<Piece>
    decreases text.len() - i,
    via segment_words_decreases
{
    if i < 0 || i >= text.len() {
        Seq::empty()
    } else if is_space(text[i]) {
        segment_words(lex, text, i + 1)
    } else {
        let j = word_end(text, i);
        segment_word(lex, encode_utf8(text.subrange(i, j)), offset(text, i)) + segment_words(
            lex,
            text,
            j,
        )
    }
}

#[via_fn]
proof fn segment_words_decreases(lex: Lexicon, text: Seq<char>, i: int) {
    if 0 <= i < text.len() {
        lemma_word_end_bounds(text, i);
    }
}

/// For each word of `text` that begins at character `i` or later, the
/// places its tokens take in the output, where the first of them takes
/// place `at`.
pub open spec fn word_bounds(lex: Lexicon, text: Seq<char>, i: int, at: int) -> Seq<(int, int)>
    decreases text.len() - i,
    via word_bounds_decreases
{
    if i < 0 || i >= text.len() {
        Seq::empty()
    } else if is_space(text[i]) {
        word_bounds(lex, text, i + 1, at)
    } else {
        let j = word_end(text, i);
        let to = at + segment_word(lex, encode_utf8(text.subrange(i, j)), offset(text, i)).len();
        seq![(at, to)] + word_bounds(lex, text, j, to)
    }
}

#[via_fn]
proof fn word_bounds_decreases(lex: Lexicon, text: Seq<char>, i: int, at: int) {
    if 0 <= i < text.len() {
        lemma_word_end_bounds(text, i);
    }
}

/// The prefix token, where the vocabulary has one: at the very beginning,
/// over no bytes.
pub open spec fn prefix_pieces(lex: Lexicon) -> Seq<Piece> {
    match lex.prefix {
        Some(id) => seq![Piece { id, start: 0, end: 0 }],
        None => Seq::empty(),
    }
}

/// The suffix token, where the vocabulary has one: over no bytes, where the
/// last token before it ends.
pub open spec fn suffix_pieces(lex: Lexicon, before: Seq<Piece>) -> Seq<Piece> {
    match lex.suffix {
        Some(id) => {
            let pos = if before.len() == 0 {
                0
            } else {
                before.last().end
            };
            seq![Piece { id, start: pos, end: pos }]
        },
        None => Seq::empty(),
    }
}

/// The tokens of a text: the prefix token, the pieces of each word in turn,
/// the suffix token.
pub open spec fn segment_text(lex: Lexicon, text: Seq<char>) -> Seq<Piece> {
    let body = prefix_pieces(lex) + segment_words(lex, text, 0);
    body + suffix_pieces(lex, body)
}

/// The places in the output that the tokens of each word of a text take.
pub open spec fn text_word_bounds(lex: Lexicon, text: Seq<char>) -> Seq<(int, int)> {
    word_bounds(lex, text, 0, prefix_pieces(lex).len() as int)
}

/// The ids of some pieces, written in `T`.
pub open spec fn ids_of<T: TokenID>(pieces: Seq<Piece>) -> Seq<T> {
    Seq::new(pieces.len(), |i: int| T::coerced(pieces[i].id))
}

/// The byte ranges of some pieces.
pub open spec fn ranges_of(pieces: Seq<Piece>) -> Seq<Range<usize>> {
    Seq::new(pieces.len(), |i: int| (Range { start: pieces[i].start as usize, end: pieces[i].end as usize }))
}

/// Pairs of places as ranges.
pub open spec fn bounds_of(bounds: Seq<(int, int)>) -> Seq<Range<usize>> {
    Seq::new(bounds.len(), |i: int| (Range { start: bounds[i].0 as usize, end: bounds[i].1 as usize }))
}

/// Whether the pieces lie one behind the other from `a` to `b`, none of
/// them empty and with nothing between them.
pub open spec fn is_chain(pieces: Seq<Piece>, a: int, b: int) -> bool {
    &&& forall|i: int| 0 <= i < pieces.len() ==> (#[trigger] pieces[i]).start < pieces[i].end
    &&& forall|i: int| 0 < i < pieces.len() ==> pieces[i - 1].end == (#[trigger] pieces[i]).start
    &&& if pieces.len() == 0 {
        a == b
    } else {
        pieces[0].start == a && pieces.last().end == b
    }
}

/// Whether the pieces lie between `lo` and `hi`, none of them empty, and
/// each ends before the next begins.
pub open spec fn is_ordered(pieces: Seq<Piece>, lo: int, hi: int) -> bool {
    &&& forall|i: int|
        0 <= i < pieces.len() ==> lo <= (#[trigger] pieces[i]).start < pieces[i].end <= hi
    &&& forall|i: int, j: int|
        0 <= i < j < pieces.len() ==> (#[trigger] pieces[i]).end <= (#[trigger] pieces[j]).start
}

/// A chain is ordered.
pub proof fn lemma_chain_ordered(pieces: Seq<Piece>, a: int, b: int)
    requires
        is_chain(pieces, a, b),
    ensures
        is_ordered(pieces, a, b),
        a <= b,
    decreases pieces.len(),
{
    if pieces.len() > 1 {
        let front = pieces.drop_last();
        let mid = pieces.last().start;
        assert(front.last() == pieces[pieces.len() - 2]);
        assert forall|i: int| 0 < i < front.len() implies front[i - 1].end == (
        #[trigger] front[i]).start by {
            assert(front[i] == pieces[i]);
            assert(front[i - 1] == pieces[i - 1]);
        }
        lemma_chain_ordered(front, a, mid);
        assert forall|i: int| 0 <= i < pieces.len() implies a <= (#[trigger] pieces[i]).start
            < pieces[i].end <= b by {
            if i < front.len() {
                assert(front[i] == pieces[i]);
            }
        }
        assert forall|i: int, j: int| 0 <= i < j < pieces.len() implies (#[trigger] pieces[i]).end
            <= (#[trigger] pieces[j]).start by {
            assert(front[i] == pieces[i]);
            if j < front.len() {
                assert(front[j] == pieces[j]);
            }
        }
    }
}

/// Ordered pieces followed by ordered pieces that begin no earlier are
/// ordered.
pub proof fn lemma_ordered_concat(a: Seq<Piece>, b: Seq<Piece>, lo: int, mid: int, hi: int)
    requires
        is_ordered(a, lo, mid),
        is_ordered(b, mid, hi),
        lo <= mid <= hi,
    ensures
        is_ordered(a + b, lo, hi),
{
    let c = a + b;
    assert forall|i: int| 0 <= i < c.len() implies lo <= (#[trigger] c[i]).start < c[i].end
        <= hi by {
        if i < a.len() {
            assert(c[i] == a[i]);
        } else {
            assert(c[i] == b[i - a.len()]);
        }
    }
    assert forall|i: int, j: int| 0 <= i < j < c.len() implies (#[trigger] c[i]).end <= (
    #[trigger] c[j]).start by {
        if i < a.len() {
            assert(c[i] == a[i]);
        } else {
            assert(c[i] == b[i - a.len()]);
        }
        if j < a.len() {
            assert(c[j] == a[j]);
        } else {
            assert(c[j] == b[j - a.len()]);
        }
    }
}

/// Where followers reach the end of a word, they form a chain to it.
pub proof fn lemma_follow_chain(followers: Map<Seq<u8>, u64>, word: Seq<u8>, pos: int, base: int)
    requires
        0 <= pos <= word.len(),
    ensures
        follow(followers, word, pos, base) matches Some(more) ==> is_chain(
            more,
            base + pos,
            base + word.len(),
        ),
    decreases word.len() - pos,
{
    if pos < word.len() {
        let rest = word.skip(pos);
        let n = longest_match(followers, rest, rest.len() as int);
        lemma_longest_match_bounds(followers, rest, rest.len() as int);
        if n > 0 {
            lemma_follow_chain(followers, word, pos + n, base);
            if let Some(more) = follow(followers, word, pos + n, base) {
                let piece = Piece {
                    id: followers[rest.take(n)],
                    start: base + pos,
                    end: base + pos + n,
                };
                let all = seq![piece] + more;
                assert(all[0] == piece);
                assert forall|i: int| 0 < i < all.len() implies all[i - 1].end == (
                #[trigger] all[i]).start by {
                    assert(all[i] == more[i - 1]);
                    if i > 1 {
                        assert(all[i - 1] == more[i - 2]);
                    }
                }
                assert forall|i: int| 0 <= i < all.len() implies (#[trigger] all[i]).start
                    < all[i].end by {
                    if i > 0 {
                        assert(all[i] == more[i - 1]);
                    }
                }
                if more.len() > 0 {
                    assert(all.last() == more.last());
                }
            }
        }
    }
}

/// The pieces of a word form a chain over the whole of it.
pub proof fn lemma_word_chain(lex: Lexicon, word: Seq<u8>, base: int)
    requires
        word.len() > 0,
    ensures
        is_chain(segment_word(lex, word, base), base, base + word.len()),
        segment_word(lex, word, base).len() > 0,
{
    let n = longest_match(lex.starters, word, word.len() as int);
    lemma_longest_match_bounds(lex.starters, word, word.len() as int);
    if n > 0 {
        lemma_follow_chain(lex.followers, word, n, base);
        if let Some(more) = follow(lex.followers, word, n, base) {
            let piece = Piece { id: lex.starters[word.take(n)], start: base, end: base + n };
            let all = seq![piece] + more;
            assert(all[0] == piece);
            assert forall|i: int| 0 < i < all.len() implies all[i - 1].end == (
            #[trigger] all[i]).start by {
                assert(all[i] == more[i - 1]);
                if i > 1 {
                    assert(all[i - 1] == more[i - 2]);
                }
            }
            assert forall|i: int| 0 <= i < all.len() implies (#[trigger] all[i]).start
                < all[i].end by {
                if i > 0 {
                    assert(all[i] == more[i - 1]);
                }
            }
            if more.len() > 0 {
                assert(all.last() == more.last());
            }
        }
    }
}

/// The pieces of the words from character `i` on are ordered and lie
/// between the offset of `i` and the end of the text.
pub proof fn lemma_words_ordered(lex: Lexicon, text: Seq<char>, i: int)
    requires
        0 <= i <= text.len(),
    ensures
        is_ordered(segment_words(lex, text, i), offset(text, i), encode_utf8(text).len() as int),
    decreases text.len() - i,
{
    let total = encode_utf8(text).len() as int;
    if i < text.len() {
        if is_space(text[i]) {
            lemma_words_ordered(lex, text, i + 1);
            lemma_offset_order(text, i, i + 1);
        } else {
            let j = word_end(text, i);
            lemma_word_end_bounds(text, i);
            lemma_offset_order(text, i, j);
            lemma_span_bytes(text, i, j);
            let word = encode_utf8(text.subrange(i, j));
            lemma_word_chain(lex, word, offset(text, i));
            lemma_chain_ordered(segment_word(lex, word, offset(text, i)), offset(text, i), offset(text, j));
            lemma_words_ordered(lex, text, j);
            lemma_ordered_concat(
                segment_word(lex, word, offset(text, i)),
                segment_words(lex, text, j),
                offset(text, i),
                offset(text, j),
                total,
            );
        }
    }
}

/// The pieces moved by `by` bytes.
pub open spec fn shifted(pieces: Seq<Piece>, by: int) -> Seq<Piece> {
    Seq::new(
        pieces.len(),
        |i: int| Piece { id: pieces[i].id, start: pieces[i].start + by, end: pieces[i].end + by },
    )
}

/// Where a word stands in the text only moves its pieces.
pub proof fn lemma_follow_shift(
    followers: Map<Seq<u8>, u64>,
    word: Seq<u8>,
    pos: int,
    base: int,
)
    requires
        0 <= pos <= word.len(),
    ensures
        follow(followers, word, pos, base) == match follow(followers, word, pos, 0) {
            Some(more) => Some(shifted(more, base)),
            None => None,
        },
    decreases word.len() - pos,
{
    if pos < word.len() {
        let rest = word.skip(pos);
        let n = longest_match(followers, rest, rest.len() as int);
        lemma_longest_match_bounds(followers, rest, rest.len() as int);
        if n > 0 {
            lemma_follow_shift(followers, word, pos + n, base);
            if let Some(more) = follow(followers, word, pos + n, 0) {
                let id = followers[rest.take(n)];
                let here = seq![Piece { id, start: pos, end: pos + n }] + more;
                let there = seq![Piece { id, start: base + pos, end: base + pos + n }] + shifted(
                    more,
                    base,
                );
                assert(shifted(here, base) =~= there);
            }
        }
    } else {
        assert(shifted(Seq::<Piece>::empty(), base) =~= Seq::<Piece>::empty());
    }
}

/// Where a word stands in the text only moves the pieces of its cut.
pub proof fn lemma_cut_shift(lex: Lexicon, word: Seq<u8>, base: int)
    ensures
        cut_word(lex, word, base) == match cut_word(lex, word, 0) {
            Some(pieces) => Some(shifted(pieces, base)),
            None => None,
        },
{
    let n = longest_match(lex.starters, word, word.len() as int);
    lemma_longest_match_bounds(lex.starters, word, word.len() as int);
    if n > 0 {
        lemma_follow_shift(lex.followers, word, n, base);
        if let Some(more) = follow(lex.followers, word, n, 0) {
            let id = lex.starters[word.take(n)];
            let here = seq![Piece { id, start: 0, end: n }] + more;
            let there = seq![Piece { id, start: base, end: base + n }] + shifted(more, base);
            assert(shifted(here, base) =~= there);
        }
    }
}

/// Whether a piece of a word is an entry of `m`: the bytes it stands for
/// are a key, and its id is the key's value.
pub open spec fn is_entry(m: Map<Seq<u8>, u64>, word: Seq<u8>, base: int, piece: Piece) -> bool {
    &&& base <= piece.start < piece.end <= base + word.len()
    &&& m.contains_key(word.subrange(piece.start - base, piece.end - base))
    &&& piece.id == m[word.subrange(piece.start - base, piece.end - base)]
}

/// Each piece that continues a word is a follower, and the longest that
/// fits at its place.
pub proof fn lemma_follow_entries(
    followers: Map<Seq<u8>, u64>,
    word: Seq<u8>,
    pos: int,
    base: int,
)
    requires
        0 <= pos <= word.len(),
    ensures
        follow(followers, word, pos, base) matches Some(more) ==> forall|i: int|
            0 <= i < more.len() ==> is_entry(followers, word, base, #[trigger] more[i]),
    decreases word.len() - pos,
{
    if pos < word.len() {
        let rest = word.skip(pos);
        let n = longest_match(followers, rest, rest.len() as int);
        lemma_longest_match_bounds(followers, rest, rest.len() as int);
        if n > 0 {
            lemma_follow_entries(followers, word, pos + n, base);
            if let Some(more) = follow(followers, word, pos + n, base) {
                let piece = Piece {
                    id: followers[rest.take(n)],
                    start: base + pos,
                    end: base + pos + n,
                };
                let all = seq![piece] + more;
                assert(rest.take(n) =~= word.subrange(pos, pos + n));
                assert forall|i: int| 0 <= i < all.len() implies is_entry(
                    followers,
                    word,
                    base,
                    #[trigger] all[i],
                ) by {
                    if i > 0 {
                        assert(all[i] == more[i - 1]);
                    }
                }
            }
        }
    }
}

/// The first piece of a cut is a starter, the others are followers.
pub proof fn lemma_cut_entries(lex: Lexicon, word: Seq<u8>, base: int)
    ensures
        cut_word(lex, word, base) matches Some(pieces) ==> {
            &&& pieces.len() > 0
            &&& is_entry(lex.starters, word, base, pieces[0])
            &&& pieces[0].start == base
            &&& forall|i: int|
                0 < i < pieces.len() ==> is_entry(lex.followers, word, base, #[trigger] pieces[i])
        },
{
    let n = longest_match(lex.starters, word, word.len() as int);
    lemma_longest_match_bounds(lex.starters, word, word.len() as int);
    if n > 0 {
        lemma_follow_entries(lex.followers, word, n, base);
        if let Some(more) = follow(lex.followers, word, n, base) {
            let piece = Piece { id: lex.starters[word.take(n)], start: base, end: base + n };
            let all = seq![piece] + more;
            assert(word.take(n) =~= word.subrange(0, n));
            assert(all[0] == piece);
            assert forall|i: int| 0 < i < all.len() implies is_entry(
                lex.followers,
                word,
                base,
                #[trigger] all[i],
            ) by {
                assert(all[i] == more[i - 1]);
            }
        }
    }
}

/// Pieces one after the other give their ids one after the other.
pub proof fn lemma_ids_of_concat<T: TokenID>(a: Seq<Piece>, b: Seq<Piece>)
    ensures
        ids_of::<T>(a + b) == ids_of::<T>(a) + ids_of::<T>(b),
        ranges_of(a + b) == ranges_of(a) + ranges_of(b),
{
    assert(ids_of::<T>(a + b) =~= ids_of::<T>(a) + ids_of::<T>(b));
    assert(ranges_of(a + b) =~= ranges_of(a) + ranges_of(b));
}

} // verus!
