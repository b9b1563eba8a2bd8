//! A word-piece tokenizer that finds its pieces with two prefix automata.
//!
//! The vocabulary is an ordered table of token strings; a token's position
//! is its id. Entries that may begin a word and entries that continue one
//! are kept in two automata, and a word is cut greedily into the longest
//! pieces they hold.

pub mod attention;
pub mod automaton;
pub mod laws;
pub mod loading;
pub mod model;
pub mod segment;
pub mod segmenter;
pub mod text;
pub mod token_id;
pub mod tokenizer;
pub mod vocab;
pub mod word_piece;

pub use token_id::TokenID;
pub use tokenizer::{AlephAlphaTokenizer, LoadError};
