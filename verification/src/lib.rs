//! Text tokenization with a verified splitter, vocabulary and tokenizer.

pub mod text;
pub mod splitter;
pub mod order;
pub mod external;
pub mod vocab;
pub mod tokenizer;
pub mod tensor;
