//! A bigram language-model perplexity scorer.
//!
//! The library tokenizes sentences, loads unigram and bigram probability
//! tables from line-oriented text, and turns a sentence into the sequence of
//! interpolation inputs that its perplexity is computed from. Probability
//! values are carried as the 64-bit patterns of their numeric encoding; the
//! numeric evaluation itself lives with the caller.

pub mod model;
pub mod table;
pub mod tokenizer;
