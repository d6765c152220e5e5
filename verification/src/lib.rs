//! Word and bigram statistics over a text corpus.
mod text;
pub mod preprocess;
pub mod bigrams;
pub mod pmi;
pub mod positional;
pub mod llr;
pub mod tag;
pub mod utils;
mod bigram_key;
