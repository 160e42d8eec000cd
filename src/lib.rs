//! Turns source code into a flat sequence of lower-case word tokens: camelCase and
//! snake_case identifiers are split, structural punctuation becomes tokens of its
//! own, and every run of digits becomes the placeholder `NUMBER`.

pub mod laws;
pub mod text;
pub mod tokenization;

pub use tokenization::{
    clean_camelcase, clean_numbers, handle_punctuation, is_punctuation, tokenize_cleaned,
    tokenize_python_code, tokenize_snakecase, tokenize_word,
};
