//! An ahead-of-time compiler for a minimal tape-machine language:
//! eight single-character commands with optional run-length numeric
//! suffixes, compiled to x86-64 assembly text for one of two targets.
//!
//! The pipeline is linear: `lexer` turns source text into run-length
//! command tokens, the validator in `lexer` checks bracket balance
//! against the model in `brackets`, and `compiler` drives `emitter`
//! over the token sequence, assigning loop ids.  `format` holds the
//! separate source pretty-printer; `decimal` the numeral model that
//! the lexer, the validator and the emitter share.

pub mod brackets;
pub mod compiler;
pub mod decimal;
pub mod emitter;
pub mod format;
pub mod lexer;
