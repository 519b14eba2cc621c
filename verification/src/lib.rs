//! Tokenisation for a small language model: byte-pair style vocabulary
//! construction, greedy word tokenisation with a cache, and the pure helpers
//! of the text generation front end.
pub mod strmap;
pub mod text;
pub mod tokens;
pub mod bpe;
pub mod json;
pub mod frontend;
