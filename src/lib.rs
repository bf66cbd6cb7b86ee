//! Finds every sentence of a given number of dictionary words that can be
//! spelled from a bag of letters, each letter used at most once, and ranks
//! them longest first.
use vstd::prelude::*;

pub mod letters;
pub mod words;

pub use letters::{remove_first, remove_letters};
pub use words::{
    expand_sentences_found, rank_sentences, seed_sentences, sentences_for_letters,
    sentences_for_letters_with_progress,
    words_for_letters_in_file, BaseWord, Sentence,
};

verus! {

} // verus!
