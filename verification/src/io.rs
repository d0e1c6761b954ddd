//! Tokenizing text whose meaningful characters are given by a regular
//! expression: every other character is dropped before the text is split
//! at white space.
use crate::text::{
    accepted_by, lines_words, string_push, strings_view, tokenize_lines, CharValidator,
};
use vstd::prelude::*;

verus! {

#[verifier::external_type_specification]
#[verifier::external_body]
pub struct ExRegex(regex::Regex);

#[verifier::external_type_specification]
#[verifier::external_body]
pub struct ExRegexError(regex::Error);

/// The pattern that a compiled regular expression was built from.
pub uninterp spec fn regex_source(re: regex::Regex) -> Seq<char>;

/// Whether `re` was compiled by `regex::Regex::new`, that is with the default
/// settings (no builder options such as case insensitivity).
pub uninterp spec fn regex_built_by_new(re: regex::Regex) -> bool;

/// Whether `pattern` compiles into a regular expression (with the default
/// settings of `regex::Regex::new`).
pub uninterp spec fn regex_compiles(pattern: Seq<char>) -> bool;

/// Whether the regular expression `pattern`, compiled with the default
/// settings of `regex::Regex::new`, matches somewhere in `haystack`.
pub uninterp spec fn regex_matches(pattern: Seq<char>, haystack: Seq<char>) -> bool;

/// Compiles `pattern`.
///
/// Trusted: calls `regex::Regex::new`. Its source keeps the pattern it was
/// given in the compiled regex (`Regex::as_str` returns it). Whether
/// compiling succeeds depends on the pattern alone (its syntax and the
/// default size limit); that outcome is named, not spelled out.
#[verifier::external_body]
fn regex_new(pattern: &str) -> (r: Result<regex::Regex, regex::Error>)
    ensures
        r is Ok <==> regex_compiles(pattern@),
        r matches Ok(re) ==> regex_source(re) == pattern@ && regex_built_by_new(re),
{
    regex::Regex::new(pattern)
}

/// Whether `re` matches somewhere in `haystack`.
///
/// Trusted: calls `regex::Regex::is_match`. For a regex that `Regex::new`
/// built (default settings), the answer depends only on the pattern and on
/// the haystack; regexes built otherwise are not admitted.
#[verifier::external_body]
fn regex_is_match(re: &regex::Regex, haystack: &str) -> (m: bool)
    requires
        regex_built_by_new(*re),
    ensures
        m == regex_matches(regex_source(*re), haystack@),
{
    re.is_match(haystack)
}

/// A validator that keeps exactly the characters that a regular expression
/// matches.
pub struct RegexValidator {
    re: regex::Regex,
}

impl RegexValidator {
    /// The regular expression was compiled by `Regex::new`.
    #[verifier::type_invariant]
    spec fn built_by_new(self) -> bool {
        regex_built_by_new(self.re)
    }

    /// The pattern of the regular expression.
    pub closed spec fn pattern(&self) -> Seq<char> {
        regex_source(self.re)
    }

    /// A validator for `pattern`, or the error that compiling it gave.
    pub fn new(pattern: &str) -> (r: Result<RegexValidator, regex::Error>)
        ensures
            r is Ok <==> regex_compiles(pattern@),
            r matches Ok(v) ==> v.pattern() == pattern@,
    {
        match regex_new(pattern) {
            Ok(re) => Ok(RegexValidator { re }),
            Err(e) => Err(e),
        }
    }
}

impl CharValidator for RegexValidator {
    open spec fn accepts(&self, c: char) -> bool {
        regex_matches(self.pattern(), seq![c])
    }

    fn is_valid(&self, c: &char) -> (keep: bool) {
        proof {
            use_type_invariant(self);
        }
        let mut text = String::new();
        string_push(&mut text, *c);
        assert(text@ =~= seq![*c]);
        regex_is_match(&self.re, text.as_str())
    }
}

/// The characters that count in a word: the alphanumeric ones (Unicode
/// `Alphabetic` or `Numeric`, as `char::is_alphanumeric` decides, up to the
/// Unicode version of the regex crate's tables), and white space, which then
/// separates the words.
pub open spec fn word_chars_pattern() -> Seq<char> {
    "[\\p{Alphabetic}\\p{N}\\s]"@
}

/// Whether `word_chars_pattern` matches the character `c`: whether `c` is
/// alphanumeric or white space.
pub open spec fn is_word_char(c: char) -> bool {
    regex_matches(word_chars_pattern(), seq![c])
}

/// The validator for [`word_chars_pattern`], or the error that compiling it
/// gave.
pub fn word_validator() -> (r: Result<RegexValidator, regex::Error>)
    ensures
        r is Ok <==> regex_compiles(word_chars_pattern()),
        r matches Ok(v) ==> v.pattern() == word_chars_pattern(),
{
    RegexValidator::new("[\\p{Alphabetic}\\p{N}\\s]")
}

/// The words of `lines`, line after line, keeping only the characters of
/// [`word_chars_pattern`]; or the error that compiling it gave.
pub fn from_lines(lines: &Vec<String>) -> (r: Result<Vec<String>, regex::Error>)
    ensures
        r is Ok <==> regex_compiles(word_chars_pattern()),
        r matches Ok(words) ==> strings_view(words@) == lines_words(
            |c: char| is_word_char(c),
            strings_view(lines@),
        ),
{
    let validator = word_validator();
    match validator {
        Ok(v) => {
            let words = tokenize_lines(&v, lines);
            assert(accepted_by(&v) =~= |c: char| is_word_char(c));
            Ok(words)
        },
        Err(e) => Err(e),
    }
}

} // verus!
