//! A kana-to-kanji conversion engine: a statically costed dictionary
//! lattice searched by Viterbi shortest path, biased by a learned
//! user-adaptation overlay, with the romaji normalizer and the corpus
//! statistics passes that produce the models.

use vstd::prelude::*;

pub mod commands;
pub mod corpus;
pub mod cost;
pub mod engine;
pub mod lattice;
pub mod model;
pub mod overlay;
pub mod props;
pub mod romaji;
pub mod search;
pub mod storage;
pub mod text;
pub mod words;

verus! {

} // verus!
