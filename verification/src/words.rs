//! Splitting a fixed text, given line by line, into its words; a line that
//! failed stops the whole.
use crate::text::{accepted_by, line_words, strings_view, tokenize_line, AcceptAll};
use vstd::prelude::*;

verus! {

/// An error carried by a line of text.
#[derive(Debug)]
pub struct MyError(pub String);

/// A line with its characters as a sequence, or its error.
pub open spec fn line_view(line: Result<String, MyError>) -> Result<Seq<char>, MyError> {
    match line {
        Ok(s) => Ok(s@),
        Err(e) => Err(e),
    }
}

/// The words of all lines, line after line, or the error of the first line
/// that has one.
pub open spec fn collect_words(lines: Seq<Result<Seq<char>, MyError>>) -> Result<
    Seq<Seq<char>>,
    MyError,
>
    decreases lines.len(),
{
    if lines.len() == 0 {
        Ok(Seq::empty())
    } else {
        match collect_words(lines.drop_last()) {
            Err(e) => Err(e),
            Ok(before) => match lines.last() {
                Err(e) => Err(e),
                Ok(line) => Ok(before + line_words(accepted_by(&AcceptAll), line)),
            },
        }
    }
}

/// The text, line by line.
pub open spec fn text_lines() -> Seq<Result<Seq<char>, MyError>> {
    seq![Ok("the first line"@), Ok("the second line"@), Ok("the third line"@)]
}

/// The three lines of the text, none of them failed.
pub fn lines() -> (r: Vec<Result<String, MyError>>)
    ensures
        r@.map_values(|l: Result<String, MyError>| line_view(l)) == text_lines(),
{
    let mut r: Vec<Result<String, MyError>> = Vec::new();
    r.push(Ok(String::from_str("the first line")));
    r.push(Ok(String::from_str("the second line")));
    r.push(Ok(String::from_str("the third line")));
    assert(r@.map_values(|l: Result<String, MyError>| line_view(l)) =~= text_lines());
    r
}

/// The words of all the lines of `lines`, or the error of the first line
/// that has one.
pub fn words_of_lines(lines: Vec<Result<String, MyError>>) -> (r: Result<Vec<String>, MyError>)
    ensures
        match r {
            Ok(words) => collect_words(lines@.map_values(|l: Result<String, MyError>| line_view(l)))
                == Ok::<Seq<Seq<char>>, MyError>(strings_view(words@)),
            Err(e) => collect_words(lines@.map_values(|l: Result<String, MyError>| line_view(l)))
                == Err::<Seq<Seq<char>>, MyError>(e),
        },
{
    let ghost all = lines@.map_values(|l: Result<String, MyError>| line_view(l));
    let mut words: Vec<String> = Vec::new();
    assert(all.take(0) =~= Seq::<Result<Seq<char>, MyError>>::empty());
    assert(strings_view(words@) =~= Seq::<Seq<char>>::empty());
    for line in it: lines.into_iter()
        invariant
            it.seq() == lines@,
            all == lines@.map_values(|l: Result<String, MyError>| line_view(l)),
            collect_words(all.take(it.index() as int)) == Ok::<Seq<Seq<char>>, MyError>(
                strings_view(words@),
            ),
    {
        let ghost k = it.index() as int;
        assert(all.take(k + 1).drop_last() =~= all.take(k));
        assert(all.take(k + 1).last() == line_view(line));
        match line {
            Ok(text) => {
                let mut line_tokens = tokenize_line(&AcceptAll, text.as_str());
                let ghost before = words@;
                let ghost added = line_tokens@;
                words.append(&mut line_tokens);
                assert(strings_view(words@) =~= strings_view(before) + strings_view(added));
            },
            Err(e) => {
                proof {
                    lemma_error_stops(all, k + 1);
                }
                return Err(e);
            },
        }
    }
    assert(all.take(all.len() as int) =~= all);
    Ok(words)
}

/// Once a prefix of the lines ends in an error, every longer prefix gives
/// that same error.
proof fn lemma_error_stops(lines: Seq<Result<Seq<char>, MyError>>, k: int)
    requires
        0 < k <= lines.len(),
        collect_words(lines.take(k)) is Err,
    ensures
        collect_words(lines) == collect_words(lines.take(k)),
    decreases lines.len() - k,
{
    if k < lines.len() {
        assert(lines.take(k + 1).drop_last() =~= lines.take(k));
        lemma_error_stops(lines, k + 1);
    } else {
        assert(lines.take(k) =~= lines);
    }
}

/// The words of the text, or the error of its first failed line.
pub fn words() -> (r: Result<Vec<String>, MyError>)
    ensures
        match r {
            Ok(words) => collect_words(text_lines()) == Ok::<Seq<Seq<char>>, MyError>(
                strings_view(words@),
            ),
            Err(e) => collect_words(text_lines()) == Err::<Seq<Seq<char>>, MyError>(e),
        },
{
    words_of_lines(lines())
}

/// The words of one line read successfully; none for a failed line.
pub open spec fn ok_line_words(line: Result<Seq<char>, MyError>) -> Seq<Seq<char>> {
    match line {
        Ok(text) => line_words(accepted_by(&AcceptAll), text),
        Err(_) => Seq::empty(),
    }
}

/// When no line failed, the result is the words of every line, line after
/// line.
pub proof fn law_all_lines_read(lines: Seq<Result<Seq<char>, MyError>>)
    requires
        forall|i: int| 0 <= i < lines.len() ==> #[trigger] lines[i] is Ok,
    ensures
        collect_words(lines) == Ok::<Seq<Seq<char>>, MyError>(
            lines.map_values(|l: Result<Seq<char>, MyError>| ok_line_words(l)).flatten(),
        ),
    decreases lines.len(),
{
    let f = |l: Result<Seq<char>, MyError>| ok_line_words(l);
    if lines.len() == 0 {
        assert(lines.map_values(f) =~= Seq::<Seq<Seq<char>>>::empty());
    } else {
        let init = lines.drop_last();
        assert forall|i: int| 0 <= i < init.len() implies #[trigger] init[i] is Ok by {
            assert(init[i] == lines[i]);
        }
        law_all_lines_read(init);
        assert(lines[lines.len() - 1] is Ok);
        assert(lines.map_values(f) =~= init.map_values(f).push(ok_line_words(lines.last())));
        init.map_values(f).lemma_flatten_push(ok_line_words(lines.last()));
    }
}

/// When some line failed, the result is the error of the first line that
/// failed, whatever follows it.
pub proof fn law_first_error_wins(lines: Seq<Result<Seq<char>, MyError>>, i: int)
    requires
        0 <= i < lines.len(),
        lines[i] is Err,
        forall|j: int| 0 <= j < i ==> #[trigger] lines[j] is Ok,
    ensures
        collect_words(lines) == Err::<Seq<Seq<char>>, MyError>(lines[i]->Err_0),
{
    let before = lines.take(i);
    assert forall|j: int| 0 <= j < before.len() implies #[trigger] before[j] is Ok by {
        assert(before[j] == lines[j]);
    }
    law_all_lines_read(before);
    let upto = lines.take(i + 1);
    assert(upto.drop_last() =~= before);
    assert(upto.last() == lines[i]);
    lemma_error_stops(lines, i + 1);
}

} // verus!
