//! The tokenizer as a model for a host that splits the text into words
//! itself and asks for the tokens of each.

use crate::segment::{
    cut_word, ids_of, is_entry, lemma_cut_entries, lemma_cut_shift, ranges_of, shifted, Lexicon,
    Piece,
};
use crate::tokenizer::AlephAlphaTokenizer;
use crate::vocab::{
    begins_with, bytes_begin_with, entry, follower_key, followers, is_follower,
    lemma_ids_in_table, lexicon, starters, CONTINUATION_MARKER,
};
use std::ops::Range;
use vstd::prelude::*;
use vstd::slice::slice_subrange;
use vstd::string::{StringExecFns, StringSliceAdditionalSpecFns};
use vstd::utf8::encode_utf8;

verus! {

/// The name of the vocabulary file where none is asked for.
pub const VOCAB_FILE: &'static str = "vocab.txt";

/// What is put behind a name to make the name of its vocabulary file.
pub const VOCAB_FILE_ENDING: &'static str = "-vocab.txt";

/// A token as the host takes it.
#[derive(Debug, PartialEq, Eq)]
pub struct Token {
    /// The id of the token, cut to 32 bits.
    pub id: u32,
    /// The text of the token in the vocabulary.
    pub value: String,
    /// Where in the host's text the token stands.
    pub offsets: (usize, usize),
    /// The place of its word among the words given, cut to 32 bits.
    pub word: u32,
}

/// What a `Token` holds.
pub struct TokenView {
    pub id: u32,
    pub value: Seq<char>,
    pub offsets: (usize, usize),
    pub word: u32,
}

impl View for Token {
    type V = TokenView;

    open spec fn view(&self) -> TokenView {
        TokenView { id: self.id, value: self.value@, offsets: self.offsets, word: self.word }
    }
}

/// The token that the host gets for a piece of word `word`.
pub open spec fn token_of(table: Seq<Seq<char>>, piece: Piece, word: int) -> TokenView {
    TokenView {
        id: piece.id as u32,
        value: table[piece.id as int],
        offsets: (piece.start as usize, piece.end as usize),
        word: word as u32,
    }
}

/// The pieces of one word of the host, which stands at `offsets` in its
/// text: its cut into entries, counted from where it begins; the unknown
/// token over the offsets given where there is no such cut; nothing for a
/// word without bytes.
pub open spec fn word_pieces(lex: Lexicon, word: Seq<u8>, offsets: (usize, usize)) -> Seq<Piece> {
    match cut_word(lex, word, offsets.0 as int) {
        Some(pieces) => pieces,
        None => if word.len() > 0 {
            seq![Piece { id: lex.unk, start: offsets.0 as int, end: offsets.1 as int }]
        } else {
            Seq::empty()
        },
    }
}

/// The tokens of the first `n` words of the host.
pub open spec fn model_tokens(
    table: Seq<Seq<char>>,
    words: Seq<(Seq<char>, (usize, usize))>,
    n: int,
) -> Seq<TokenView>
    decreases n,
{
    if n <= 0 {
        Seq::empty()
    } else {
        let (text, offsets) = words[n - 1];
        let pieces = word_pieces(lexicon(table), encode_utf8(text), offsets);
        model_tokens(table, words, n - 1) + Seq::new(
            pieces.len(),
            |i: int| token_of(table, pieces[i], n - 1),
        )
    }
}

/// The id that the table has for a token text: that of the follower
/// behind the marker where the text begins with it, else that of the
/// starter.
pub open spec fn id_of_text(table: Seq<Seq<char>>, token: Seq<u8>) -> Option<u64> {
    if begins_with(token, CONTINUATION_MARKER.spec_bytes()) {
        if followers(table).contains_key(follower_key(token)) {
            Some(followers(table)[follower_key(token)])
        } else {
            None
        }
    } else {
        if starters(table).contains_key(token) {
            Some(starters(table)[token])
        } else {
            None
        }
    }
}

/// The name of the vocabulary file for a model of the given name.
pub open spec fn file_name(name: Option<Seq<char>>) -> Seq<char> {
    match name {
        Some(n) => n + VOCAB_FILE_ENDING@,
        None => VOCAB_FILE@,
    }
}

/// What the words of the host hold.
pub open spec fn words_of(tokens: Seq<(String, (usize, usize))>) -> Seq<
    (Seq<char>, (usize, usize)),
> {
    Seq::new(tokens.len(), |i: int| (tokens[i].0@, tokens[i].1))
}

/// What some tokens hold.
pub open spec fn views(tokens: Seq<Token>) -> Seq<TokenView> {
    Seq::new(tokens.len(), |i: int| tokens[i]@)
}

/// The text of each token of a cut spells the bytes that the token stands
/// for: as they are for the first, and behind the marker for the others.
pub proof fn lemma_token_texts(table: Seq<Seq<char>>, word: Seq<u8>, base: int)
    requires
        table.len() <= u64::MAX,
    ensures
        cut_word(lexicon(table), word, base) matches Some(pieces) ==> {
            &&& entry(table, pieces[0].id as int) == word.subrange(
                pieces[0].start - base,
                pieces[0].end - base,
            )
            &&& forall|i: int|
                0 < i < pieces.len() ==> is_follower(
                    entry(table, (#[trigger] pieces[i]).id as int),
                ) && follower_key(entry(table, pieces[i].id as int)) == word.subrange(
                    pieces[i].start - base,
                    pieces[i].end - base,
                )
        },
{
    let lex = lexicon(table);
    lemma_cut_entries(lex, word, base);
    if let Some(pieces) = cut_word(lex, word, base) {
        let first = pieces[0];
        lemma_ids_in_table(table, word.subrange(first.start - base, first.end - base));
        assert forall|i: int| 0 < i < pieces.len() implies is_follower(
            entry(table, (#[trigger] pieces[i]).id as int),
        ) && follower_key(entry(table, pieces[i].id as int)) == word.subrange(
            pieces[i].start - base,
            pieces[i].end - base,
        ) by {
            let p = pieces[i];
            assert(is_entry(lex.followers, word, base, p));
            lemma_ids_in_table(table, word.subrange(p.start - base, p.end - base));
        }
    }
}

/// The ids in a cut are places in the table.
proof fn lemma_cut_ids(table: Seq<Seq<char>>, word: Seq<u8>, base: int)
    requires
        table.len() <= u64::MAX,
    ensures
        cut_word(lexicon(table), word, base) matches Some(pieces) ==> forall|i: int|
            0 <= i < pieces.len() ==> (#[trigger] pieces[i]).id < table.len(),
{
    let lex = lexicon(table);
    lemma_cut_entries(lex, word, base);
    if let Some(pieces) = cut_word(lex, word, base) {
        assert forall|i: int| 0 <= i < pieces.len() implies (#[trigger] pieces[i]).id
            < table.len() by {
            let p = pieces[i];
            let key = word.subrange(p.start - base, p.end - base);
            lemma_ids_in_table(table, key);
            if i > 0 {
                assert(is_entry(lex.followers, word, base, pieces[i]));
            }
        }
    }
}

impl AlephAlphaTokenizer {
    /// Cuts each of the given words into tokens. A word comes with the
    /// offsets at which it stands in the host's text, and must end within
    /// what `usize` can address when counted from the first of them.
    pub fn tokenize(&self, tokens: Vec<(String, (usize, usize))>) -> (r: Vec<Token>)
        requires
            forall|i: int|
                0 <= i < tokens@.len() ==> (#[trigger] tokens@[i]).1.0 + encode_utf8(
                    tokens@[i].0@,
                ).len() <= usize::MAX,
        ensures
            views(r@) == model_tokens(self@, words_of(tokens@), tokens@.len() as int),
    {
        let ghost table = self@;
        let ghost lex = lexicon(table);
        let ghost words = words_of(tokens@);
        // we expect at least one token per word.
        let mut result: Vec<Token> = Vec::with_capacity(tokens.len());
        let mut ids: Vec<u64> = Vec::new();
        let mut ranges: Vec<Range<usize>> = Vec::new();
        let size = self.get_vocab_size();
        let mut index: usize = 0;
        proof {
            assert(views(result@) =~= model_tokens(table, words, 0));
        }
        while index < tokens.len()
            invariant
                index <= tokens@.len(),
                table == self@,
                lex == lexicon(table),
                words == words_of(tokens@),
                size == table.len(),
                forall|i: int|
                    0 <= i < tokens@.len() ==> (#[trigger] tokens@[i]).1.0 + encode_utf8(
                        tokens@[i].0@,
                    ).len() <= usize::MAX,
                views(result@) == model_tokens(table, words, index as int),
            decreases tokens@.len() - index,
        {
            #[verifier::truncate]
            let word = index as u32;
            let word_bytes = tokens[index].0.as_str().as_bytes();
            let offsets = tokens[index].1;
            let ghost done = views(result@);
            let ghost bytes = encode_utf8(tokens@[index as int].0@);
            let ghost pieces = word_pieces(lex, bytes, offsets);
            proof {
                assert(words[index as int] == (tokens@[index as int].0@, offsets));
                assert(word_bytes@.subrange(0, word_bytes@.len() as int) =~= bytes);
                lemma_cut_shift(lex, bytes, offsets.0 as int);
                lemma_cut_ids(table, bytes, 0);
                lemma_cut_entries(lex, bytes, 0);
                assert(tokens@[index as int].1.0 + bytes.len() <= usize::MAX);
            }
            ids.clear();
            ranges.clear();
            if self.cut_into(word_bytes, 0, word_bytes.len(), &mut ids, &mut ranges) {
                let ghost cut = cut_word(lex, bytes, 0).unwrap();
                proof {
                    assert(ids@ =~= ids_of::<u64>(cut));
                    assert(ranges@ =~= ranges_of(cut));
                    assert(pieces == shifted(cut, offsets.0 as int));
                    assert(done + Seq::new(0, |i: int| token_of(table, pieces[i], index as int))
                        =~= done);
                }
                let mut j: usize = 0;
                while j < ids.len()
                    invariant
                        j <= ids@.len(),
                        table == self@,
                        size == table.len(),
                        ids@ == ids_of::<u64>(cut),
                        ranges@ == ranges_of(cut),
                        pieces == shifted(cut, offsets.0 as int),
                        offsets.0 + bytes.len() <= usize::MAX,
                        forall|i: int| 0 <= i < cut.len() ==> (#[trigger] cut[i]).id < table.len(),
                        forall|i: int|
                            0 <= i < cut.len() ==> 0 <= (#[trigger] cut[i]).start < cut[i].end
                                <= bytes.len(),
                        word == index as u32,
                        views(result@) == done + Seq::new(
                            j as nat,
                            |i: int| token_of(table, pieces[i], index as int),
                        ),
                    decreases ids@.len() - j,
                {
                    let id = ids[j];
                    let start = ranges[j].start;
                    let end = ranges[j].end;
                    proof {
                        assert(id == cut[j as int].id);
                        assert(start == cut[j as int].start as usize);
                        assert(end == cut[j as int].end as usize);
                    }
                    let token = Token {
                        #[verifier::truncate]
                        id: id as u32,
                        value: String::from_str(self.text_of(id)),
                        offsets: (offsets.0 + start, offsets.0 + end),
                        word,
                    };
                    let ghost so_far = views(result@);
                    proof {
                        assert(token@ == token_of(table, pieces[j as int], index as int));
                    }
                    result.push(token);
                    proof {
                        assert(views(result@) =~= so_far.push(token@));
                        assert(views(result@) =~= done + Seq::new(
                            (j + 1) as nat,
                            |i: int| token_of(table, pieces[i], index as int),
                        ));
                    }
                    j = j + 1;
                }
            } else if word_bytes.len() > 0 {
                // in case we couldn't match the whole word, there is a single [UNK] token
                let unk = self.unknown_id();
                let token = Token {
                    #[verifier::truncate]
                    id: unk as u32,
                    value: String::from_str(self.text_of(unk)),
                    offsets,
                    word,
                };
                let ghost unknown = token@;
                result.push(token);
                proof {
                    assert(unknown == token_of(table, pieces[0], index as int));
                    assert(views(result@) =~= done.push(unknown));
                    assert(views(result@) =~= done + Seq::new(
                        pieces.len(),
                        |i: int| token_of(table, pieces[i], index as int),
                    ));
                }
            } else {
                proof {
                    assert(views(result@) =~= done + Seq::new(
                        pieces.len(),
                        |i: int| token_of(table, pieces[i], index as int),
                    ));
                }
            }
            index = index + 1;
        }
        result
    }

    /// The id of a token text, cut to 32 bits: that of the follower behind
    /// the marker where the text begins with it, else that of the starter.
    pub fn token_to_id(&self, token: &str) -> (r: Option<u32>)
        ensures
            r == match id_of_text(self@, token.spec_bytes()) {
                Some(id) => Some(id as u32),
                None => None::<u32>,
            },
    {
        let bytes = token.as_bytes();
        let found = if bytes_begin_with(bytes, CONTINUATION_MARKER.as_bytes()) {
            self.find_follower(slice_subrange(bytes, CONTINUATION_MARKER.len(), bytes.len()))
        } else {
            self.find_starter(bytes)
        };
        match found {
            Some(id) => Some(
                #[verifier::truncate]
                (id as u32),
            ),
            None => None,
        }
    }

    /// The text of the token with the given id, if the table has it.
    pub fn id_to_token(&self, id: u32) -> (r: Option<String>)
        ensures
            r matches Some(text) ==> id < self@.len() && text@ == self@[id as int],
            r is Some <==> id < self@.len(),
    {
        if (id as usize) < self.get_vocab_size() {
            Some(String::from_str(self.text_of(id as u64)))
        } else {
            None
        }
    }
}

/// The name of the file that the vocabulary of a model of the given name
/// is saved in.
pub fn vocab_file_name(name: Option<&str>) -> (r: String)
    ensures
        r@ == file_name(
            match name {
                Some(n) => Some(n@),
                None => None,
            },
        ),
{
    match name {
        Some(n) => String::from_str(n).concat(VOCAB_FILE_ENDING),
        None => String::from_str(VOCAB_FILE),
    }
}

} // verus!
