//! A tokenizer that splits lines of text into words after dropping the
//! characters that its validator rejects.
use crate::text::{
    accepted_by, line_words, lines_words, strings_view, tokenize_line, tokenize_lines, AcceptAll,
    CharValidator,
};
use vstd::prelude::*;

verus! {

/// What went wrong while tokenizing a source of text.
#[derive(Debug)]
pub struct TokenizerError {
    /// The offending token, if any.
    pub token: Option<String>,
    /// What happened.
    pub message: String,
}

/// Splits text into words. Characters that the validator rejects are
/// dropped first; white space then separates the words.
pub struct Tokenizer<V> {
    validator: V,
}

impl<V> Tokenizer<V> {
    /// The validator that decides which characters count.
    pub closed spec fn validator_spec(&self) -> V {
        self.validator
    }
}

impl Tokenizer<AcceptAll> {
    /// A tokenizer that keeps every character.
    pub fn new() -> (t: Tokenizer<AcceptAll>)
        ensures
            t.validator_spec() == AcceptAll,
    {
        Tokenizer { validator: AcceptAll }
    }
}

impl<V: CharValidator> Tokenizer<V> {
    /// A tokenizer that keeps only the characters `validator` accepts.
    pub fn new_with_validator(validator: V) -> (t: Self)
        ensures
            t.validator_spec() == validator,
    {
        Tokenizer { validator }
    }

    /// The words of one line.
    pub fn from_line(&self, line: &str) -> (words: Vec<String>)
        ensures
            strings_view(words@) == line_words(accepted_by(&self.validator_spec()), line@),
    {
        tokenize_line(&self.validator, line)
    }

    /// The words of `lines`, line after line.
    pub fn from_lines(&self, lines: &Vec<String>) -> (words: Vec<String>)
        ensures
            strings_view(words@) == lines_words(accepted_by(&self.validator_spec()), strings_view(lines@)),
    {
        tokenize_lines(&self.validator, lines)
    }
}

} // verus!
