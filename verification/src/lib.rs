//! A lexer for a small template language that mixes literal text with two
//! bracketed constructs: substitutions (`{{ expr }}`) and control directives
//! (`{% if ... %}`).  The lexer turns a character sequence into a stream of
//! tokens, pulled one at a time through [`tokenizer::TokenIter`] or all at
//! once through [`tokenizer::tokenize_all`].  Lexical errors are reported as
//! values carrying the error kind, the character offset and the lexer state
//! at the point of failure.

pub mod chars;
pub mod laws;
pub mod model;
pub mod token;
pub mod tokenizer;
