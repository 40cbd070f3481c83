//! Incremental character supply for an HTML5 tokenizer: a queue of owned
//! text chunks with a UTF-8-safe cursor, look-ahead push-back and batched
//! extraction of plain-text runs, together with the token data model.

pub mod bench;
pub mod tokenizer;
