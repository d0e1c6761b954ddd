use rust_dust::io::{from_lines, RegexValidator};
use rust_dust::text::{is_whitespace, AcceptAll, CharValidator};
use rust_dust::token_v2;
use rust_dust::token_with_result_v2;
use rust_dust::token_with_result_v2::{TokenizerError, TokenizerIter};
use std::io;

/// Chars we care about plus white space to split on.
fn validator() -> RegexValidator {
    RegexValidator::new(r#"[^\p{Punct}]"#).unwrap()
}

fn line(text: &str) -> Vec<String> {
    vec![text.to_string()]
}

#[test]
fn io_test_punctuation() {
    from_lines(&line("oh, la , la!")).unwrap().into_iter().for_each(|token| {
        println!("'{}'", token);
        assert!(token.chars().count() > 0 && token.chars().all(|c| c.is_alphanumeric()));
    })
}

#[test]
fn token_v2_test_default_validator() {
    let tokenizer = token_v2::Tokenizer::new();
    assert_eq!(
        tokenizer.from_lines(&line("oh, la , la!")),
        vec!["oh,".to_string(), "la".to_string(), ",".to_string(), "la!".to_string()]
    );
}

#[test]
fn token_v2_test_punctuation() {
    let tokenizer = token_v2::Tokenizer::new_with_validator(validator());
    tokenizer.from_lines(&line("oh, la , la!")).into_iter().for_each(|token| {
        assert!(token.chars().count() > 0 && token.chars().all(|c| c.is_alphanumeric()));
    })
}

#[test]
fn token_with_result_v2_test_default_validator() {
    let tokenizer = token_with_result_v2::Tokenizer::new();
    assert_eq!(
        tokenizer
            .from_lines(vec![Ok("oh, la , la!".to_string())])
            .into_iter()
            .map(|res| res.unwrap())
            .collect::<Vec<String>>(),
        vec!["oh,".to_string(), "la".to_string(), ",".to_string(), "la!".to_string()]
    );
}

#[test]
fn token_with_result_v2_test_punctuation() {
    let tokenizer = token_with_result_v2::Tokenizer::new_with_validator(validator());
    tokenizer.from_lines(vec![Ok("oh, la , la!".to_string())]).into_iter().for_each(|res| {
        let token = res.unwrap();
        assert!(token.chars().count() > 0 && token.chars().all(|c| c.is_alphanumeric()));
    })
}

#[test]
fn test_io_error() {
    let tokenizer = token_with_result_v2::Tokenizer::new_with_validator(validator());
    let vec = tokenizer.from_read_result(Err(io::Error::from(io::ErrorKind::NotFound)));
    assert_eq!(vec.len(), 1);
    match vec.first().unwrap() {
        Ok(_) => assert!(false),
        Err(err) => assert!(
            matches!(err, TokenizerError::Io(foo) if foo.kind() == io::ErrorKind::NotFound)
        ),
    }
}

#[test]
fn punctuation_is_dropped_not_split_on() {
    let tokenizer = token_v2::Tokenizer::new_with_validator(validator());
    assert_eq!(
        tokenizer.from_lines(&line("don't stop-me, now!")),
        vec!["dont".to_string(), "stopme".to_string(), "now".to_string()]
    );
}

#[test]
fn word_chars_keep_only_alphanumeric_characters() {
    assert_eq!(
        from_lines(&vec!["At 10:30, \"quote\" & more;".to_string(), "  ".to_string(), "x_y".to_string()])
            .unwrap(),
        vec!["At".to_string(), "1030".to_string(), "quote".to_string(), "more".to_string(), "xy".to_string()]
    );
}

#[test]
fn word_chars_keep_non_ascii_letters() {
    assert_eq!(
        from_lines(&line("naïve: ok")).unwrap(),
        vec!["naïve".to_string(), "ok".to_string()]
    );
}

#[test]
fn word_chars_agree_with_is_alphanumeric() {
    let v = rust_dust::io::word_validator().unwrap();
    let mut differ = Vec::new();
    for code in 0u32..0x3100 {
        if let Some(c) = char::from_u32(code) {
            if v.is_valid(&c) != (c.is_alphanumeric() || c.is_whitespace()) {
                differ.push(code);
            }
        }
    }
    // The regex crate's Unicode tables predate these few recently assigned
    // letters, which std already counts as alphabetic.
    assert!(differ.iter().all(|c| [0x88f, 0xc5c, 0xcdc].contains(c)), "{:x?}", differ);
}

#[test]
fn one_line_at_a_time() {
    let tokenizer = token_v2::Tokenizer::new();
    assert_eq!(tokenizer.from_line(" a  b "), vec!["a".to_string(), "b".to_string()]);
    let tokenizer = token_with_result_v2::Tokenizer::new();
    let items = tokenizer.from_line_result(Err(io::Error::from(io::ErrorKind::NotFound)));
    assert_eq!(items.len(), 1);
    assert!(items[0].is_err());
}

#[test]
fn lines_are_tokenized_in_order() {
    let tokenizer = token_v2::Tokenizer::new();
    let lines = vec!["one two".to_string(), "".to_string(), "\tthree\u{3000}four ".to_string()];
    assert_eq!(
        tokenizer.from_lines(&lines),
        vec!["one".to_string(), "two".to_string(), "three".to_string(), "four".to_string()]
    );
}

#[test]
fn failed_line_becomes_one_error_in_place() {
    let tokenizer = token_with_result_v2::Tokenizer::new();
    let items = tokenizer.from_lines(vec![
        Ok("a b".to_string()),
        Err(io::Error::from(io::ErrorKind::InvalidData)),
        Ok("c".to_string()),
    ]);
    assert_eq!(items.len(), 4);
    assert_eq!(items[0].as_ref().unwrap(), "a");
    assert_eq!(items[1].as_ref().unwrap(), "b");
    assert!(matches!(&items[2], Err(TokenizerError::Io(e)) if e.kind() == io::ErrorKind::InvalidData));
    assert_eq!(items[3].as_ref().unwrap(), "c");
}

#[test]
fn from_read_result_tokenizes_what_was_read() {
    let tokenizer = token_with_result_v2::Tokenizer::new();
    let items = tokenizer.from_read_result(Ok(vec![Ok("x  y".to_string())]));
    let words: Vec<String> = items.into_iter().map(|r| r.unwrap()).collect();
    assert_eq!(words, vec!["x".to_string(), "y".to_string()]);
}

#[test]
fn tokenizer_error_from_io_error() {
    let err = TokenizerError::from(io::Error::from(io::ErrorKind::PermissionDenied));
    assert!(matches!(err, TokenizerError::Io(e) if e.kind() == io::ErrorKind::PermissionDenied));
}

#[test]
fn token_v2_error_holds_message() {
    let err = token_v2::TokenizerError { token: None, message: "No such file".to_string() };
    assert_eq!(err.message, "No such file");
    assert!(err.token.is_none());
}

#[test]
fn whitespace_matches_std() {
    for code in 0u32..0x3100 {
        if let Some(c) = char::from_u32(code) {
            assert_eq!(is_whitespace(c), c.is_whitespace(), "code point {:x}", code);
        }
    }
}

#[test]
fn validators_decide_per_character() {
    assert!(AcceptAll.is_valid(&'!'));
    let v = validator();
    assert!(v.is_valid(&'a'));
    assert!(!v.is_valid(&','));
    assert!(RegexValidator::new("[").is_err());
}

#[test]
fn tokenizer_iter_uses_the_chosen_source() {
    let mut first: TokenizerIter<std::vec::IntoIter<i32>, std::vec::IntoIter<i32>> =
        TokenizerIter::Iter1(vec![1, 2].into_iter());
    assert_eq!(first.next(), Some(1));
    assert_eq!(first.next(), Some(2));
    assert_eq!(first.next(), None);
    let mut second: TokenizerIter<std::vec::IntoIter<i32>, std::vec::IntoIter<i32>> =
        TokenizerIter::Iter2(vec![7].into_iter());
    assert_eq!(second.next(), Some(7));
    assert_eq!(second.next(), None);
}
