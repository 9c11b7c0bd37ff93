//! A source formatter for YANG modules.
//!
//! The pipeline runs lexer → statement parser → tree builder → formatting passes → printer:
//! `lexing` turns bytes into tokens, `parsing` builds the tree of `node`s with every comment and
//! blank line kept, `formatting` rewrites the tree and prints it, and `canonical_order` sorts
//! statements where that is asked for. `comments` says what the passes keep of a tree.
pub mod canonical_order;
pub mod comments;
pub mod formatting;
pub mod lexing;
pub mod node;
pub mod parsing;
pub mod parsing_dbg;
pub mod text;
pub mod vecs;
