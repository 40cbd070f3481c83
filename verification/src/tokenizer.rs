//! The tokenizer's input layer and token data model.

pub mod buffer_queue;
pub mod text;
pub mod tokens;
