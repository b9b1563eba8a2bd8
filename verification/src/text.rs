//! Text as characters and as bytes: white space, the byte offset of a
//! character, and the words between white space.

use vstd::prelude::*;
use vstd::std_specs::iter::IteratorSpec;
use vstd::utf8::{encode_scalar, encode_utf8};

verus! {

/// The number of characters from which on a word counts as too long.
pub const LONG_WORD_CHARS: usize = 100;

/// Whether a character is white space.
pub uninterp spec fn is_space(c: char) -> bool;

/// `char::is_whitespace` tells whether a character is white space; the
/// answer depends on the character alone.
pub assume_specification[ char::is_whitespace ](c: char) -> (r: bool)
    ensures
        r == is_space(c),
;

/// `char::len_utf8` gives the number of bytes of a character's UTF-8
/// encoding.
pub assume_specification[ char::len_utf8 ](c: char) -> (r: usize)
    ensures
        r == encode_scalar(c as u32).len(),
;

/// The byte offset at which character `k` of `text` begins in its UTF-8
/// encoding.
pub open spec fn offset(text: Seq<char>, k: int) -> int {
    encode_utf8(text.take(k)).len() as int
}

/// Whether none of the `n` characters from `i` on is white space.
pub open spec fn is_run(text: Seq<char>, i: int, n: int) -> bool {
    forall|j: int| i <= j < i + n ==> !is_space(#[trigger] text[j])
}

/// Where the word ends that character `i` stands in: the first place from
/// `i` on that holds white space, or the end of the text.
pub open spec fn word_end(text: Seq<char>, i: int) -> int
    decreases text.len() - i,
{
    if i < 0 || i >= text.len() || is_space(text[i]) {
        i
    } else {
        word_end(text, i + 1)
    }
}

/// Whether some `LONG_WORD_CHARS` characters in a row hold no white space.
pub open spec fn has_long_word(text: Seq<char>) -> bool {
    exists|i: int|
        0 <= i && i + LONG_WORD_CHARS <= text.len() && #[trigger] is_run(
            text,
            i,
            LONG_WORD_CHARS as int,
        )
}

/// The encoding of two texts in a row is the two encodings in a row.
pub proof fn lemma_encode_concat(a: Seq<char>, b: Seq<char>)
    ensures
        encode_utf8(a + b) == encode_utf8(a) + encode_utf8(b),
    decreases a.len(),
{
    if a.len() == 0 {
        assert(a + b =~= b);
        assert(encode_utf8(a) + encode_utf8(b) =~= encode_utf8(b));
    } else {
        lemma_encode_concat(a.drop_first(), b);
        assert((a + b).drop_first() =~= a.drop_first() + b);
        assert(encode_utf8(a + b) =~= encode_utf8(a) + encode_utf8(b));
    }
}

/// Every character takes at least one byte and at most four.
pub proof fn lemma_scalar_len(c: char)
    ensures
        1 <= encode_scalar(c as u32).len() <= 4,
{
}

/// Offsets begin at 0, end at the length of the encoding, and grow by the
/// length of each character.
pub proof fn lemma_offset_step(text: Seq<char>, k: int)
    requires
        0 <= k < text.len(),
    ensures
        offset(text, k + 1) == offset(text, k) + encode_scalar(text[k] as u32).len(),
        offset(text, k + 1) <= encode_utf8(text).len(),
        offset(text, 0) == 0,
        offset(text, text.len() as int) == encode_utf8(text).len(),
{
    let one = seq![text[k]];
    assert(text.take(k + 1) =~= text.take(k) + one);
    lemma_encode_concat(text.take(k), one);
    assert(one.drop_first() =~= Seq::<char>::empty());
    assert(encode_utf8(one) =~= encode_scalar(text[k] as u32)) by {
        reveal_with_fuel(encode_utf8, 2);
    }
    assert(text =~= text.take(k + 1) + text.skip(k + 1));
    lemma_encode_concat(text.take(k + 1), text.skip(k + 1));
    assert(text.take(0) =~= Seq::<char>::empty());
    assert(text.take(text.len() as int) =~= text);
}

/// The bytes between two offsets encode the characters between the two
/// indices.
pub proof fn lemma_span_bytes(text: Seq<char>, i: int, j: int)
    requires
        0 <= i <= j <= text.len(),
    ensures
        encode_utf8(text).subrange(offset(text, i), offset(text, j)) == encode_utf8(
            text.subrange(i, j),
        ),
        offset(text, j) - offset(text, i) == encode_utf8(text.subrange(i, j)).len(),
{
    let a = text.take(i);
    let b = text.subrange(i, j);
    let c = text.skip(j);
    assert(text.take(j) =~= a + b);
    assert(text =~= text.take(j) + c);
    lemma_encode_concat(a, b);
    lemma_encode_concat(text.take(j), c);
    assert(encode_utf8(text).subrange(offset(text, i), offset(text, j)) =~= encode_utf8(b));
}

/// Offsets grow with the index.
pub proof fn lemma_offset_order(text: Seq<char>, i: int, j: int)
    requires
        0 <= i <= j <= text.len(),
    ensures
        0 <= offset(text, i) <= offset(text, j) <= encode_utf8(text).len(),
        i < j ==> offset(text, i) < offset(text, j),
{
    lemma_span_bytes(text, i, j);
    assert(text =~= text.take(j) + text.skip(j));
    lemma_encode_concat(text.take(j), text.skip(j));
    if i < j {
        lemma_scalar_len(text.subrange(i, j)[0]);
    }
}

/// A word ends at or after each of its characters, within the text.
pub proof fn lemma_word_end_bounds(text: Seq<char>, i: int)
    requires
        0 <= i <= text.len(),
    ensures
        i <= word_end(text, i) <= text.len(),
        i < text.len() && !is_space(text[i]) ==> i < word_end(text, i),
        is_run(text, i, word_end(text, i) - i),
        word_end(text, i) == text.len() || is_space(text[word_end(text, i)]),
    decreases text.len() - i,
{
    if i < text.len() && !is_space(text[i]) {
        lemma_word_end_bounds(text, i + 1);
    }
}

/// A word ends where white space or the end of the text follows a run.
pub proof fn lemma_word_end(text: Seq<char>, i: int, j: int)
    requires
        0 <= i <= j <= text.len(),
        is_run(text, i, j - i),
        j == text.len() || is_space(text[j]),
    ensures
        word_end(text, i) == j,
    decreases j - i,
{
    if i < j {
        assert(!is_space(text[i]));
        assert forall|k: int| i + 1 <= k < i + 1 + (j - i - 1) implies !is_space(
            #[trigger] text[k],
        ) by {}
        lemma_word_end(text, i + 1, j);
    }
}

/// Tells whether the text holds a word of `LONG_WORD_CHARS` characters or
/// more, a word being what stands between white space.
pub fn too_long_word(s: &str) -> (r: bool)
    ensures
        r == has_long_word(s@),
{
    broadcast use vstd::string::group_string_axioms;

    let mut it = s.chars();
    let mut run: usize = 0;
    let ghost mut k: int = 0;
    loop
        invariant
            0 <= k <= s@.len(),
            it.remaining() == s@.skip(k),
            run <= k,
            run < LONG_WORD_CHARS,
            is_run(s@, k - run, run as int),
            run < k ==> is_space(s@[k - run - 1]),
            forall|i: int|
                0 <= i && i + LONG_WORD_CHARS <= k ==> !#[trigger] is_run(
                    s@,
                    i,
                    LONG_WORD_CHARS as int,
                ),
        decreases s@.len() - k,
    {
        match it.next() {
            Some(c) => {
                assert(c == s@[k]);
                if c.is_whitespace() {
                    run = 0;
                } else {
                    run = run + 1;
                }
                proof {
                    k = k + 1;
                    let i = k - LONG_WORD_CHARS;
                    if i >= 0 && run < LONG_WORD_CHARS {
                        assert(is_space(s@[k - run - 1]));
                        assert(!is_run(s@, i, LONG_WORD_CHARS as int));
                    }
                }
                if run >= LONG_WORD_CHARS {
                    proof {
                        assert(is_run(s@, k - LONG_WORD_CHARS, LONG_WORD_CHARS as int));
                    }
                    return true;
                }
            },
            None => {
                return false;
            },
        }
    }
}

} // verus!
