//! The tokenizer: a vocabulary table with the two automata made from it.

use crate::automaton::{
    build_automaton, find_longest_prefix, fst_built, fst_get, fst_map, holds_pairs,
    longest_prefix, DuplicateKey,
};
use crate::token_id::TokenID;
use crate::loading::{
    finds, lemma_finds_role, lemma_lists_line, lemma_lists_maps, lemma_push_contains,
    lists_followers, lists_starters,
};
use crate::vocab::{
    bytes_begin_with, bytes_end_with, bytes_equal, distinct, entry, file_bytes, followers,
    is_special_line, lemma_ids_in_table, lexicon, loadable, role, special_ids, starters,
    CONTINUATION_MARKER, LINE_END, PREFIX_TOKEN, SPECIAL_CLOSE, SPECIAL_OPEN, SUFFIX_TOKEN,
    UNK_TOKEN, UNUSED_MARKER,
};
use fst::raw::Fst;
use vstd::prelude::*;
use vstd::slice::{slice_subrange, slice_to_vec};
use vstd::string::StringSliceAdditionalSpecFns;

verus! {

/// The Tokenizer. Use [`AlephAlphaTokenizer::from_vocab`] to create an
/// instance.
pub struct AlephAlphaTokenizer {
    tokens: Vec<String>,
    starters: Fst<Vec<u8>>,
    followers: Fst<Vec<u8>>,
    special_tokens: Vec<u64>,
    unk_id: u64,
    prefix: Option<u64>,
    suffix: Option<u64>,
}

impl View for AlephAlphaTokenizer {
    type V = Seq<Seq<char>>;

    /// The vocabulary table: the token strings in the order of their ids.
    closed spec fn view(&self) -> Seq<Seq<char>> {
        self.tokens.deep_view()
    }
}

/// Why a vocabulary cannot be loaded.
#[derive(Debug, Clone, Copy, PartialEq, Eq, Structural)]
pub enum LoadError {
    /// Two starters read the same, or two followers.
    DuplicateToken,
    /// No line reads `[UNK]`.
    MissingUnk,
}

impl AlephAlphaTokenizer {
    #[verifier::type_invariant]
    spec fn well_formed(self) -> bool {
        let table = self@;
        &&& loadable(table)
        &&& fst_built(self.starters)
        &&& fst_built(self.followers)
        &&& fst_map(self.starters) == starters(table)
        &&& fst_map(self.followers) == followers(table)
        &&& forall|id: u64| self.special_tokens@.contains(id) <==> special_ids(table).contains(id)
        &&& Some(self.unk_id) == role(table, UNK_TOKEN.spec_bytes())
        &&& self.prefix == role(table, PREFIX_TOKEN.spec_bytes())
        &&& self.suffix == role(table, SUFFIX_TOKEN.spec_bytes())
    }

    /// Creates a tokenizer from the lines of a vocabulary, line `i` being
    /// the token with id `i`.
    ///
    /// For now, we assume the following tokens / IDs:
    ///
    /// * `[CLS]` is classification (and if present is used as prefix)
    /// * `[SEP]` is separator (and if present is used as suffix)
    /// * `[PAD]` is padding and is in position `0`
    /// * `[UNK]` is the *unknown* token specifier
    pub fn from_vocab(tokens: Vec<String>) -> (r: Result<Self, LoadError>)
        ensures
            match r {
                Ok(t) => t@ == tokens.deep_view() && loadable(t@),
                Err(LoadError::DuplicateToken) => !distinct(tokens.deep_view()),
                Err(LoadError::MissingUnk) => distinct(tokens.deep_view()) && role(
                    tokens.deep_view(),
                    UNK_TOKEN.spec_bytes(),
                ) is None,
            },
    {
        let ghost table = tokens.deep_view();
        let mut starter: Vec<(Vec<u8>, u64)> = Vec::new();
        let mut follower: Vec<(Vec<u8>, u64)> = Vec::new();
        let mut special_tokens: Vec<u64> = Vec::new();
        let mut unk_id: Option<u64> = None;
        let mut prefix: Option<u64> = None;
        let mut suffix: Option<u64> = None;
        let mut i: usize = 0;
        while i < tokens.len()
            invariant
                i <= tokens.len(),
                table == tokens.deep_view(),
                lists_starters(starter@, table, i as int),
                lists_followers(follower@, table, i as int),
                forall|id: u64|
                    special_tokens@.contains(id) <==> id < i && is_special_line(
                        entry(table, id as int),
                    ),
                finds(table, UNK_TOKEN.spec_bytes(), i as int, unk_id),
                finds(table, PREFIX_TOKEN.spec_bytes(), i as int, prefix),
                finds(table, SUFFIX_TOKEN.spec_bytes(), i as int, suffix),
            decreases tokens.len() - i,
        {
            let token = tokens[i].as_str().as_bytes();
            let id = i as u64;
            let ghost special = special_tokens@;
            proof {
                assert(table[i as int] == tokens@[i as int]@);
                assert(token@ == entry(table, i as int));
                lemma_lists_line(table, starter@, follower@, i as int);
                lemma_push_contains(special, id);
            }
            if !bytes_begin_with(token, UNUSED_MARKER.as_bytes()) {
                if bytes_begin_with(token, SPECIAL_OPEN.as_bytes()) && bytes_end_with(
                    token,
                    SPECIAL_CLOSE.as_bytes(),
                ) {
                    special_tokens.push(id);
                }
                if bytes_begin_with(token, CONTINUATION_MARKER.as_bytes()) {
                    let key = slice_to_vec(
                        slice_subrange(token, CONTINUATION_MARKER.len(), token.len()),
                    );
                    follower.push((key, id));
                } else {
                    if bytes_equal(token, UNK_TOKEN.as_bytes()) {
                        unk_id = Some(id);
                    }
                    if bytes_equal(token, PREFIX_TOKEN.as_bytes()) {
                        prefix = Some(id);
                    }
                    if bytes_equal(token, SUFFIX_TOKEN.as_bytes()) {
                        suffix = Some(id);
                    }
                    starter.push((slice_to_vec(token), id));
                }
            }
            proof {
                assert forall|x: u64|
                    special_tokens@.contains(x) <==> x < i + 1 && is_special_line(
                        entry(table, x as int),
                    ) by {
                    assert(special.contains(x) <==> x < i && is_special_line(
                        entry(table, x as int),
                    ));
                }
            }
            i = i + 1;
        }
        proof {
            lemma_lists_maps(table, starter@, follower@);
        }
        let ghost first = starter@;
        let ghost second = follower@;
        let starters = match build_automaton(starter) {
            Ok(f) => f,
            Err(DuplicateKey) => {
                return Err(LoadError::DuplicateToken);
            },
        };
        let followers = match build_automaton(follower) {
            Ok(f) => f,
            Err(DuplicateKey) => {
                return Err(LoadError::DuplicateToken);
            },
        };
        proof {
            lemma_finds_role(table, UNK_TOKEN.spec_bytes(), unk_id);
            lemma_finds_role(table, PREFIX_TOKEN.spec_bytes(), prefix);
            lemma_finds_role(table, SUFFIX_TOKEN.spec_bytes(), suffix);
            assert(holds_pairs(fst_map(starters), first));
            assert(holds_pairs(fst_map(followers), second));
        }
        match unk_id {
            Some(unk_id) => {
                proof {
                    assert forall|id: u64|
                        special_tokens@.contains(id) <==> special_ids(table).contains(id) by {}
                }
                Ok(
                    AlephAlphaTokenizer {
                        tokens,
                        starters,
                        followers,
                        special_tokens,
                        unk_id,
                        prefix,
                        suffix,
                    },
                )
            },
            None => Err(LoadError::MissingUnk),
        }
    }

    /// The number of tokens in the vocabulary.
    pub fn get_vocab_size(&self) -> (r: usize)
        ensures
            r == self@.len(),
            loadable(self@),
    {
        proof {
            use_type_invariant(self);
        }
        self.tokens.len()
    }

    /// The id that words get which cannot be cut into entries.
    pub(crate) fn unknown_id(&self) -> (r: u64)
        ensures
            r == lexicon(self@).unk,
            r < self@.len(),
    {
        let size = self.tokens.len();
        proof {
            use_type_invariant(self);
            assert(self@.len() == size);
            lemma_ids_in_table(self@, UNK_TOKEN.spec_bytes());
        }
        self.unk_id
    }

    /// The id that is put before the first word, if the vocabulary has one.
    pub(crate) fn prefix_id(&self) -> (r: Option<u64>)
        ensures
            r == lexicon(self@).prefix,
    {
        proof {
            use_type_invariant(self);
        }
        self.prefix
    }

    /// The id that is put after the last word, if the vocabulary has one.
    pub(crate) fn suffix_id(&self) -> (r: Option<u64>)
        ensures
            r == lexicon(self@).suffix,
    {
        proof {
            use_type_invariant(self);
        }
        self.suffix
    }

    /// The longest starter that `input` begins with: its length and id.
    pub(crate) fn longest_starter(&self, input: &[u8]) -> (r: Option<(usize, u64)>)
        ensures
            r == longest_prefix(lexicon(self@).starters, input@),
    {
        proof {
            use_type_invariant(self);
        }
        find_longest_prefix(&self.starters, input)
    }

    /// The longest follower that `input` begins with: its length and id.
    pub(crate) fn longest_follower(&self, input: &[u8]) -> (r: Option<(usize, u64)>)
        ensures
            r == longest_prefix(lexicon(self@).followers, input@),
    {
        proof {
            use_type_invariant(self);
        }
        find_longest_prefix(&self.followers, input)
    }

    /// The id of a starter, if `key` is one.
    pub(crate) fn find_starter(&self, key: &[u8]) -> (r: Option<u64>)
        ensures
            r == if starters(self@).contains_key(key@) {
                Some(starters(self@)[key@])
            } else {
                None::<u64>
            },
    {
        proof {
            use_type_invariant(self);
        }
        fst_get(&self.starters, key)
    }

    /// The id of a follower, if `key` is one without its marker.
    pub(crate) fn find_follower(&self, key: &[u8]) -> (r: Option<u64>)
        ensures
            r == if followers(self@).contains_key(key@) {
                Some(followers(self@)[key@])
            } else {
                None::<u64>
            },
    {
        proof {
            use_type_invariant(self);
        }
        fst_get(&self.followers, key)
    }

    /// Gets the text of this token. The id must be one of the table.
    #[inline]
    pub fn text_of<T: TokenID>(&self, token_id: T) -> (r: &str)
        requires
            token_id.restored() < self@.len(),
        ensures
            r@ == self@[token_id.restored() as int],
    {
        let id = token_id.restore();
        let n = self.tokens.len();
        proof {
            assert(self@.len() == n);
            assert(self@[id as int] == self.tokens@[id as int]@);
        }
        self.tokens[id as usize].as_str()
    }

    /// Gets the texts of the tokens. The ids must be ones of the table.
    pub fn texts_of<'t, T: TokenID>(&'t self, token_ids: &[T]) -> (r: Vec<&'t str>)
        requires
            forall|i: int|
                0 <= i < token_ids@.len() ==> (#[trigger] token_ids@[i]).restored() < self@.len(),
        ensures
            r@.len() == token_ids@.len(),
            forall|i: int|
                0 <= i < r@.len() ==> (#[trigger] r@[i])@ == self@[token_ids@[i].restored() as int],
    {
        let mut texts: Vec<&'t str> = Vec::new();
        let mut i: usize = 0;
        while i < token_ids.len()
            invariant
                i <= token_ids@.len(),
                texts@.len() == i,
                forall|j: int|
                    0 <= j < token_ids@.len() ==> (#[trigger] token_ids@[j]).restored()
                        < self@.len(),
                forall|j: int|
                    0 <= j < i ==> (#[trigger] texts@[j])@ == self@[token_ids@[j].restored() as int],
            decreases token_ids@.len() - i,
        {
            let id = token_ids[i].clone();
            proof {
                T::clone_is_sameness(token_ids@[i as int], id);
            }
            texts.push(self.text_of(id));
            i = i + 1;
        }
        texts
    }

    /// Determines whether this token is a special token.
    ///
    /// Special tokens are e.g. `[CLS]`, `[SEP]`, `[PAD]` or `[UNK]`.
    #[inline]
    pub fn is_special<T: TokenID>(&self, token_id: T) -> (r: bool)
        ensures
            r == special_ids(self@).contains(token_id.restored()),
    {
        proof {
            use_type_invariant(self);
        }
        let id = token_id.restore();
        let mut i: usize = 0;
        while i < self.special_tokens.len()
            invariant
                i <= self.special_tokens@.len(),
                id == token_id.restored(),
                forall|x: u64|
                    self.special_tokens@.contains(x) <==> special_ids(self@).contains(x),
                forall|j: int| 0 <= j < i ==> self.special_tokens@[j] != id,
            decreases self.special_tokens@.len() - i,
        {
            if self.special_tokens[i] == id {
                proof {
                    assert(self.special_tokens@.contains(self.special_tokens@[i as int]));
                }
                return true;
            }
            i = i + 1;
        }
        false
    }

    /// The bytes of the vocabulary file: the tokens in the order of their
    /// ids, one on each line.
    pub fn save_vocab(&self) -> (r: Vec<u8>)
        ensures
            r@ == file_bytes(self@, self@.len() as int),
    {
        let mut out: Vec<u8> = Vec::new();
        let mut i: usize = 0;
        while i < self.tokens.len()
            invariant
                i <= self.tokens@.len(),
                self@.len() == self.tokens@.len(),
                out@ == file_bytes(self@, i as int),
            decreases self.tokens@.len() - i,
        {
            let ghost before = out@;
            let line = self.tokens[i].as_str().as_bytes();
            proof {
                assert(self@[i as int] == self.tokens@[i as int]@);
            }
            out.extend_from_slice(line);
            out.push(LINE_END);
            proof {
                assert(out@ =~= before + entry(self@, i as int) + seq![LINE_END]);
            }
            i = i + 1;
        }
        out
    }
}

} // verus!
