//! Word piece as it is known, and as the model of that name in the
//! `tokenizers` crate does it: the greedy cut of a word into the longest
//! entries of one map that holds the whole vocabulary, followers with their
//! marker. This module states that cut and proves that the tokenizer, with
//! its two automata, cuts the same.

use crate::automaton::{lemma_longest_match_bounds, lemma_longest_match_max, longest_match};
use crate::segment::{
    follow, lemma_cut_shift, segment_word, segment_words, shifted, Piece,
};
use crate::text::{
    has_long_word, is_run, is_space, lemma_encode_concat, lemma_offset_order, lemma_span_bytes,
    lemma_word_end_bounds, offset, word_end, LONG_WORD_CHARS,
};
use crate::vocab::{
    begins_with, distinct, entry, follower_at, follower_key, followers, is_follower,
    lemma_follower_id, lemma_literals, lemma_starter_id, lexicon, loadable, starter_at, starters,
    CONTINUATION_MARKER, UNK_TOKEN, UNUSED_MARKER,
};
use vstd::prelude::*;
use vstd::string::StringSliceAdditionalSpecFns;
use vstd::utf8::{char_u32_cast, encode_scalar, encode_utf8, encode_utf8_first_scalar};

verus! {

/// Whether line `i` of the table reads `key`.
pub open spec fn line_at(table: Seq<Seq<char>>, key: Seq<u8>, i: int) -> bool {
    0 <= i < table.len() && entry(table, i) == key
}

/// Whether `i` is the last line of the table that reads `key`.
pub open spec fn last_line_at(table: Seq<Seq<char>>, key: Seq<u8>, i: int) -> bool {
    line_at(table, key, i) && forall|j: int| line_at(table, key, j) ==> j <= i
}

/// The whole vocabulary as one map: every line as it stands, with its id.
/// Where a line stands twice, the later id counts.
pub open spec fn whole_vocab(table: Seq<Seq<char>>) -> Map<Seq<u8>, u64> {
    Map::new(
        |k: Seq<u8>| exists|i: int| line_at(table, k, i),
        |k: Seq<u8>| (choose|i: int| last_line_at(table, k, i)) as u64,
    )
}

/// What is looked up for the bytes of a word between `from` and `to`: the
/// bytes as they are at the beginning of the word, and behind the marker
/// elsewhere.
pub open spec fn piece_key(word: Seq<u8>, from: int, to: int) -> Seq<u8> {
    if from > 0 {
        CONTINUATION_MARKER.spec_bytes() + word.subrange(from, to)
    } else {
        word.subrange(from, to)
    }
}

/// The key for the characters of a word between `from` and `to`.
pub open spec fn chars_key(word: Seq<char>, from: int, to: int) -> Seq<u8> {
    piece_key(encode_utf8(word), offset(word, from), offset(word, to))
}

/// Where the longest piece ends that begins at character `from` and ends
/// at `to` or before: tried from `to` down, character by character. It is
/// `from` where no piece fits.
pub open spec fn piece_end(vocab: Map<Seq<u8>, u64>, word: Seq<char>, from: int, to: int) -> int
    decreases to,
{
    if to <= from || to <= 0 {
        from
    } else if vocab.contains_key(chars_key(word, from, to)) {
        to
    } else {
        piece_end(vocab, word, from, to - 1)
    }
}

/// The pieces from character `from` to the end of the word, each the
/// longest that fits; `None` where at some place none fits.
pub open spec fn pieces_from(vocab: Map<Seq<u8>, u64>, word: Seq<char>, from: int) -> Option<
    Seq<Piece>,
>
    recommends
        0 <= from <= word.len(),
    decreases word.len() - from,
    when 0 <= from
    via pieces_from_decreases
{
    if from >= word.len() {
        Some(Seq::empty())
    } else {
        let to = piece_end(vocab, word, from, word.len() as int);
        if to <= from {
            None
        } else {
            match pieces_from(vocab, word, to) {
                Some(more) => Some(
                    seq![
                        Piece {
                            id: vocab[chars_key(word, from, to)],
                            start: offset(word, from),
                            end: offset(word, to),
                        },
                    ] + more,
                ),
                None => None,
            }
        }
    }
}

#[via_fn]
proof fn pieces_from_decreases(vocab: Map<Seq<u8>, u64>, word: Seq<char>, from: int) {
    if 0 <= from < word.len() {
        lemma_piece_end(vocab, word, from, word.len() as int);
    }
}

/// The longest piece ends within the bounds and is an entry, and no longer
/// one is.
pub proof fn lemma_piece_end(vocab: Map<Seq<u8>, u64>, word: Seq<char>, from: int, to: int)
    requires
        0 <= from <= to,
    ensures
        from <= piece_end(vocab, word, from, to) <= to,
        piece_end(vocab, word, from, to) > from ==> vocab.contains_key(
            chars_key(word, from, piece_end(vocab, word, from, to)),
        ),
        forall|j: int|
            piece_end(vocab, word, from, to) < j <= to ==> !vocab.contains_key(
                #[trigger] chars_key(word, from, j),
            ),
    decreases to,
{
    if to > from && !vocab.contains_key(chars_key(word, from, to)) {
        lemma_piece_end(vocab, word, from, to - 1);
    }
}

/// The tokens of one word as word piece cuts it over the whole vocabulary:
/// the unknown token over the whole word where it has more characters than
/// the limit or where at some place no piece fits, and else the pieces.
pub open spec fn word_piece(table: Seq<Seq<char>>, word: Seq<char>) -> Seq<Piece> {
    let vocab = whole_vocab(table);
    let whole = seq![
        Piece { id: vocab[UNK_TOKEN.spec_bytes()], start: 0, end: encode_utf8(word).len() as int },
    ];
    if word.len() > LONG_WORD_CHARS {
        whole
    } else {
        match pieces_from(vocab, word, 0) {
            Some(pieces) => pieces,
            None => whole,
        }
    }
}

/// Whether `p` stands somewhere in `t`.
pub open spec fn has_part(t: Seq<u8>, p: Seq<u8>) -> bool {
    exists|i: int| 0 <= i && i + p.len() <= t.len() && #[trigger] t.subrange(i, i + p.len()) == p
}

/// A text whose bytes begin with the bytes of another begins with that
/// other text.
pub proof fn lemma_prefix_chars(t: Seq<char>, s: Seq<char>)
    requires
        begins_with(encode_utf8(s), encode_utf8(t)),
    ensures
        t.len() <= s.len(),
        s.take(t.len() as int) == t,
    decreases t.len(),
{
    if t.len() == 0 {
        assert(s.take(0) =~= t);
    } else {
        let tb = encode_utf8(t);
        let sb = encode_utf8(s);
        let t_rest = encode_utf8(t.drop_first());
        let s_rest = encode_utf8(s.drop_first());
        let t_first = encode_scalar(t[0] as u32);
        encode_utf8_first_scalar(t);
        assert(tb.len() == t_first.len() + t_rest.len());
        assert(sb.len() > 0);
        assert(s.len() > 0);
        encode_utf8_first_scalar(s);
        let s_first = encode_scalar(s[0] as u32);
        assert(sb.len() == s_first.len() + s_rest.len());
        let w = t_first.len() as int;
        assert forall|j: int| 0 <= j < w implies sb[j] == tb[j] by {
            assert(sb.take(tb.len() as int)[j] == tb[j]);
        }
        assert(s[0] as u32 == t[0] as u32);
        char_u32_cast(s[0], s[0] as u32);
        char_u32_cast(t[0], t[0] as u32);
        assert(s[0] == t[0]);
        assert(s_rest =~= sb.skip(w));
        assert(t_rest =~= tb.skip(w));
        assert(s_rest.take(t_rest.len() as int) =~= t_rest) by {
            assert forall|j: int| 0 <= j < t_rest.len() implies s_rest[j] == t_rest[j] by {
                assert(sb.take(tb.len() as int)[w + j] == tb[w + j]);
            }
        }
        lemma_prefix_chars(t.drop_first(), s.drop_first());
        assert(s.take(t.len() as int) =~= t) by {
            assert forall|j: int| 0 <= j < t.len() implies s[j] == t[j] by {
                if j > 0 {
                    assert(s.drop_first().take(t.len() - 1)[j - 1] == t.drop_first()[j - 1]);
                }
            }
        }
    }
}

/// A starter stands in the whole vocabulary as it is, with its id.
proof fn lemma_starter_in_vocab(table: Seq<Seq<char>>, key: Seq<u8>, i: int)
    requires
        distinct(table),
        table.len() <= u64::MAX,
        starter_at(table, key, i),
    ensures
        whole_vocab(table).contains_key(key),
        whole_vocab(table)[key] == i,
        starters(table)[key] == i,
{
    lemma_starter_id(table, key, i);
    assert(line_at(table, key, i));
    assert forall|j: int| line_at(table, key, j) implies j <= i by {
        assert(starter_at(table, key, j));
    }
    assert(last_line_at(table, key, i));
    let c = choose|c: int| last_line_at(table, key, c);
    assert(starter_at(table, key, c));
}

/// A follower stands in the whole vocabulary behind the marker, with its
/// id.
proof fn lemma_follower_in_vocab(table: Seq<Seq<char>>, key: Seq<u8>, i: int)
    requires
        distinct(table),
        table.len() <= u64::MAX,
        follower_at(table, key, i),
    ensures
        whole_vocab(table).contains_key(CONTINUATION_MARKER.spec_bytes() + key),
        whole_vocab(table)[CONTINUATION_MARKER.spec_bytes() + key] == i,
        followers(table)[key] == i,
        entry(table, i) == CONTINUATION_MARKER.spec_bytes() + key,
{
    let marker = CONTINUATION_MARKER.spec_bytes();
    let line = marker + key;
    lemma_follower_id(table, key, i);
    assert(entry(table, i) =~= line) by {
        let e = entry(table, i);
        assert(e =~= e.take(marker.len() as int) + e.skip(marker.len() as int));
    }
    assert(line_at(table, line, i));
    assert forall|j: int| line_at(table, line, j) implies j <= i by {
        assert(follower_at(table, key, j));
    }
    assert(last_line_at(table, line, i));
    let c = choose|c: int| last_line_at(table, line, c);
    assert(follower_at(table, key, c));
}

/// A line that begins with the marker is a follower.
proof fn lemma_marked_is_follower(line: Seq<u8>)
    requires
        begins_with(line, CONTINUATION_MARKER.spec_bytes()),
    ensures
        is_follower(line),
{
    lemma_literals();
    let marker = CONTINUATION_MARKER.spec_bytes();
    let unused = UNUSED_MARKER.spec_bytes();
    if begins_with(line, unused) {
        assert(line.take(unused.len() as int)[0] == unused[0]);
        assert(line.take(marker.len() as int)[0] == marker[0]);
    }
}

/// The bytes of a word from a character on are the encoding of the
/// characters from there on.
proof fn lemma_rest_bytes(word: Seq<char>, k: int)
    requires
        0 <= k <= word.len(),
    ensures
        encode_utf8(word).skip(offset(word, k)) == encode_utf8(word.skip(k)),
        0 <= offset(word, k) <= encode_utf8(word).len(),
{
    lemma_span_bytes(word, k, word.len() as int);
    lemma_offset_order(word, k, word.len() as int);
    assert(word.take(word.len() as int) =~= word);
    assert(word.subrange(k, word.len() as int) =~= word.skip(k));
    assert(encode_utf8(word).skip(offset(word, k)) =~= encode_utf8(word).subrange(
        offset(word, k),
        offset(word, word.len() as int),
    ));
}

/// Where the bytes of a word from character `k` on begin with the bytes of
/// a text, that text ends at a character of the word.
proof fn lemma_key_ends_at_char(word: Seq<char>, k: int, t: Seq<char>) -> (j: int)
    requires
        0 <= k <= word.len(),
        begins_with(encode_utf8(word).skip(offset(word, k)), encode_utf8(t)),
    ensures
        k <= j <= word.len(),
        j == k + t.len(),
        offset(word, j) == offset(word, k) + encode_utf8(t).len(),
{
    lemma_rest_bytes(word, k);
    lemma_prefix_chars(t, word.skip(k));
    let j = k + t.len();
    assert(word.subrange(k, j) =~= word.skip(k).take(t.len() as int));
    lemma_span_bytes(word, k, j);
    j
}

/// Whether a word holds neither the marker of followers nor that of
/// unused lines.
pub open spec fn is_plain(word: Seq<u8>) -> bool {
    !has_part(word, CONTINUATION_MARKER.spec_bytes()) && !has_part(
        word,
        UNUSED_MARKER.spec_bytes(),
    )
}

/// The entries that are tried at character `k` of a word: starters at its
/// beginning, followers elsewhere.
pub open spec fn entries_at(table: Seq<Seq<char>>, k: int) -> Map<Seq<u8>, u64> {
    if k > 0 {
        followers(table)
    } else {
        starters(table)
    }
}

/// An entry that fits at character `k` of a word ends at a character, and
/// the whole vocabulary has it there with the same id.
proof fn lemma_entry_is_piece(table: Seq<Seq<char>>, word: Seq<char>, k: int, n: int) -> (j: int)
    requires
        distinct(table),
        table.len() <= u64::MAX,
        0 <= k < word.len(),
        1 <= n,
        offset(word, k) + n <= encode_utf8(word).len(),
        entries_at(table, k).contains_key(encode_utf8(word).skip(offset(word, k)).take(n)),
    ensures
        k < j <= word.len(),
        offset(word, j) == offset(word, k) + n,
        whole_vocab(table).contains_key(chars_key(word, k, j)),
        whole_vocab(table)[chars_key(word, k, j)] == entries_at(table, k)[encode_utf8(word).skip(
            offset(word, k),
        ).take(n)],
{
    let bytes = encode_utf8(word);
    let o = offset(word, k);
    let key = bytes.skip(o).take(n);
    lemma_offset_order(word, 0, k);
    assert(word.take(0) =~= Seq::<char>::empty());
    assert(key =~= bytes.subrange(o, o + n));
    if k > 0 {
        let i = choose|i: int| follower_at(table, key, i);
        lemma_follower_in_vocab(table, key, i);
        let marker = CONTINUATION_MARKER.spec_bytes();
        let line = table[i];
        lemma_prefix_chars(CONTINUATION_MARKER@, line);
        let t = line.skip(CONTINUATION_MARKER@.len() as int);
        assert(line =~= CONTINUATION_MARKER@ + t);
        lemma_encode_concat(CONTINUATION_MARKER@, t);
        assert(key =~= encode_utf8(t)) by {
            assert((marker + key).skip(marker.len() as int) =~= key);
            assert((marker + encode_utf8(t)).skip(marker.len() as int) =~= encode_utf8(t));
        }
        let j = lemma_key_ends_at_char(word, k, t);
        lemma_offset_order(word, k, j);
        if j == k {
            assert(false);
        }
        j
    } else {
        let i = choose|i: int| starter_at(table, key, i);
        lemma_starter_in_vocab(table, key, i);
        let j = lemma_key_ends_at_char(word, k, table[i]);
        if j == k {
            assert(false);
        }
        j
    }
}

/// A piece that the whole vocabulary has at character `k` of a plain word
/// is an entry there, with the same id.
proof fn lemma_piece_is_entry(table: Seq<Seq<char>>, word: Seq<char>, k: int, j: int)
    requires
        distinct(table),
        table.len() <= u64::MAX,
        0 <= k < j <= word.len(),
        is_plain(encode_utf8(word)),
        whole_vocab(table).contains_key(chars_key(word, k, j)),
    ensures
        offset(word, k) < offset(word, j) <= encode_utf8(word).len(),
        entries_at(table, k).contains_key(
            encode_utf8(word).skip(offset(word, k)).take(offset(word, j) - offset(word, k)),
        ),
        whole_vocab(table)[chars_key(word, k, j)] == entries_at(table, k)[encode_utf8(word).skip(
            offset(word, k),
        ).take(offset(word, j) - offset(word, k))],
{
    let bytes = encode_utf8(word);
    let o = offset(word, k);
    let p = offset(word, j);
    let line = chars_key(word, k, j);
    let part = bytes.subrange(o, p);
    lemma_offset_order(word, 0, k);
    lemma_offset_order(word, k, j);
    assert(word.take(0) =~= Seq::<char>::empty());
    assert(part =~= bytes.skip(o).take(p - o));
    let i = choose|i: int| line_at(table, line, i);
    if k > 0 {
        let marker = CONTINUATION_MARKER.spec_bytes();
        assert(line.take(marker.len() as int) =~= marker);
        lemma_marked_is_follower(line);
        assert(follower_key(line) =~= part);
        assert(follower_at(table, part, i));
        lemma_follower_in_vocab(table, part, i);
    } else {
        let marker = CONTINUATION_MARKER.spec_bytes();
        let unused = UNUSED_MARKER.spec_bytes();
        if begins_with(line, marker) {
            assert(bytes.subrange(0int, 0int + marker.len()) =~= line.take(marker.len() as int));
        }
        if begins_with(line, unused) {
            assert(bytes.subrange(0int, 0int + unused.len()) =~= line.take(unused.len() as int));
        }
        assert(starter_at(table, part, i));
        lemma_starter_in_vocab(table, part, i);
    }
}

/// At each character of a plain word the longest entry and the longest
/// piece of the whole vocabulary are the same bytes with the same id.
proof fn lemma_same_piece(table: Seq<Seq<char>>, word: Seq<char>, k: int)
    requires
        distinct(table),
        table.len() <= u64::MAX,
        0 <= k < word.len(),
        is_plain(encode_utf8(word)),
    ensures
        ({
            let o = offset(word, k);
            let rest = encode_utf8(word).skip(o);
            let n = longest_match(entries_at(table, k), rest, rest.len() as int);
            let e = piece_end(whole_vocab(table), word, k, word.len() as int);
            &&& k <= e <= word.len()
            &&& offset(word, e) == o + n
            &&& n > 0 <==> e > k
            &&& n > 0 ==> whole_vocab(table)[chars_key(word, k, e)] == entries_at(table, k)[rest.take(
                n,
            )]
        }),
{
    let bytes = encode_utf8(word);
    let vocab = whole_vocab(table);
    let m = entries_at(table, k);
    let o = offset(word, k);
    let rest = bytes.skip(o);
    let n = longest_match(m, rest, rest.len() as int);
    let e = piece_end(vocab, word, k, word.len() as int);
    lemma_rest_bytes(word, k);
    lemma_longest_match_bounds(m, rest, rest.len() as int);
    lemma_piece_end(vocab, word, k, word.len() as int);
    if e > k {
        lemma_piece_is_entry(table, word, k, e);
        let reach = offset(word, e) - o;
        if n < reach {
            lemma_longest_match_max(m, rest, rest.len() as int, reach);
        }
    }
    if n > 0 {
        let j = lemma_entry_is_piece(table, word, k, n);
        if e < j {
            assert(!vocab.contains_key(chars_key(word, k, j)));
        }
        if j < e {
            lemma_offset_order(word, j, e);
        }
        assert(j == e);
    }
}

/// Behind the beginning of a plain word the followers and the pieces of
/// the whole vocabulary are the same.
proof fn lemma_same_followers(table: Seq<Seq<char>>, word: Seq<char>, k: int)
    requires
        distinct(table),
        table.len() <= u64::MAX,
        0 < k <= word.len(),
        is_plain(encode_utf8(word)),
    ensures
        pieces_from(whole_vocab(table), word, k) == follow(
            followers(table),
            encode_utf8(word),
            offset(word, k),
            0,
        ),
    decreases word.len() - k,
{
    let bytes = encode_utf8(word);
    let o = offset(word, k);
    lemma_rest_bytes(word, k);
    lemma_offset_order(word, k, word.len() as int);
    assert(word.take(word.len() as int) =~= word);
    if k < word.len() {
        lemma_same_piece(table, word, k);
        let rest = bytes.skip(o);
        let n = longest_match(followers(table), rest, rest.len() as int);
        let e = piece_end(whole_vocab(table), word, k, word.len() as int);
        if n > 0 {
            lemma_same_followers(table, word, e);
        }
    }
}

/// The tokenizer cuts a word as word piece does over the whole vocabulary,
/// where the word is plain and has fewer characters than the limit.
pub proof fn lemma_same_as_word_piece(table: Seq<Seq<char>>, word: Seq<char>)
    requires
        loadable(table),
        table.len() <= u64::MAX,
        0 < word.len() < LONG_WORD_CHARS,
        is_plain(encode_utf8(word)),
    ensures
        segment_word(lexicon(table), encode_utf8(word), 0) == word_piece(table, word),
{
    let bytes = encode_utf8(word);
    let lex = lexicon(table);
    let vocab = whole_vocab(table);
    lemma_same_piece(table, word, 0);
    assert(word.take(0) =~= Seq::<char>::empty());
    assert(bytes.skip(0) =~= bytes);
    let n = longest_match(lex.starters, bytes, bytes.len() as int);
    let e = piece_end(vocab, word, 0, word.len() as int);
    if n > 0 {
        lemma_same_followers(table, word, e);
    }
    let unk = UNK_TOKEN.spec_bytes();
    let i = choose|i: int| starter_at(table, unk, i);
    lemma_starter_in_vocab(table, unk, i);
}

/// Where the word stands at byte `base` of a text, the tokenizer yields
/// the pieces of word piece moved there.
pub proof fn lemma_same_as_word_piece_at(table: Seq<Seq<char>>, word: Seq<char>, base: int)
    requires
        loadable(table),
        table.len() <= u64::MAX,
        0 < word.len() < LONG_WORD_CHARS,
        is_plain(encode_utf8(word)),
    ensures
        segment_word(lexicon(table), encode_utf8(word), base) == shifted(
            word_piece(table, word),
            base,
        ),
{
    let lex = lexicon(table);
    let bytes = encode_utf8(word);
    lemma_same_as_word_piece(table, word);
    lemma_cut_shift(lex, bytes, base);
    assert(segment_word(lex, bytes, base) =~= shifted(segment_word(lex, bytes, 0), base));
}

/// The pieces that word piece yields for the words of `text` that begin
/// at character `i` or later, each word cut by itself and its pieces moved
/// to where the word stands.
pub open spec fn word_piece_words(table: Seq<Seq<char>>, text: Seq<char>, i: int) -> Seq<Piece>
    decreases text.len() - i,
    via word_piece_words_decreases
{
    if i < 0 || i >= text.len() {
        Seq::empty()
    } else if is_space(text[i]) {
        word_piece_words(table, text, i + 1)
    } else {
        let j = word_end(text, i);
        shifted(word_piece(table, text.subrange(i, j)), offset(text, i)) + word_piece_words(
            table,
            text,
            j,
        )
    }
}

#[via_fn]
proof fn word_piece_words_decreases(table: Seq<Seq<char>>, text: Seq<char>, i: int) {
    if 0 <= i < text.len() {
        lemma_word_end_bounds(text, i);
    }
}

/// What stands in a part of a text stands in the text.
proof fn lemma_part_of_part(text: Seq<u8>, from: int, to: int, p: Seq<u8>)
    requires
        0 <= from <= to <= text.len(),
        has_part(text.subrange(from, to), p),
    ensures
        has_part(text, p),
{
    let word = text.subrange(from, to);
    let i = choose|i: int| 0 <= i && i + p.len() <= word.len() && #[trigger] word.subrange(
        i,
        i + p.len(),
    ) == p;
    assert(text.subrange(from + i, from + i + p.len()) =~= word.subrange(i, i + p.len()));
}

/// The tokenizer cuts the words of a text as word piece cuts them, where
/// the text holds neither marker and no word of as many characters as the
/// limit.
pub proof fn lemma_text_same_as_word_piece(table: Seq<Seq<char>>, text: Seq<char>, i: int)
    requires
        loadable(table),
        table.len() <= u64::MAX,
        is_plain(encode_utf8(text)),
        !has_long_word(text),
        0 <= i <= text.len(),
    ensures
        segment_words(lexicon(table), text, i) == word_piece_words(table, text, i),
    decreases text.len() - i,
{
    if i < text.len() {
        if is_space(text[i]) {
            lemma_text_same_as_word_piece(table, text, i + 1);
        } else {
            let j = word_end(text, i);
            let word = text.subrange(i, j);
            let bytes = encode_utf8(text);
            lemma_word_end_bounds(text, i);
            lemma_span_bytes(text, i, j);
            lemma_offset_order(text, i, j);
            if has_part(encode_utf8(word), CONTINUATION_MARKER.spec_bytes()) {
                lemma_part_of_part(
                    bytes,
                    offset(text, i),
                    offset(text, j),
                    CONTINUATION_MARKER.spec_bytes(),
                );
            }
            if has_part(encode_utf8(word), UNUSED_MARKER.spec_bytes()) {
                lemma_part_of_part(
                    bytes,
                    offset(text, i),
                    offset(text, j),
                    UNUSED_MARKER.spec_bytes(),
                );
            }
            if word.len() >= LONG_WORD_CHARS {
                assert(is_run(text, i, LONG_WORD_CHARS as int));
            }
            lemma_same_as_word_piece_at(table, word, offset(text, i));
            lemma_text_same_as_word_piece(table, text, j);
        }
    }
}

} // verus!
