//! A longest-match, prefix-filtering lexical matcher.
//!
//! The [`lexicon::Lexicon`] owns a fixed keyword table and the live candidate
//! set for the token currently being scanned; it is advanced one byte at a
//! time and resolved once more at end of input.  The [`tokenizer::Tokenizer`]
//! drives a whole source buffer through a `Lexicon` and collects the resolved
//! [`token::Token`]s, skipping whitespace and reporting the exact byte
//! sequence of any illegal or unresolved input.

pub mod lexicon;
pub mod token;
pub mod tokenizer;
