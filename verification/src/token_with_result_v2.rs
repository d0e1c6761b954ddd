//! A tokenizer over lines that may have failed to be read: each failed
//! line becomes one error among the words.
use crate::text::{accepted_by, line_words, tokenize_line, AcceptAll, CharValidator};
use vstd::prelude::*;
use vstd::std_specs::iter::IteratorSpec;

verus! {

#[verifier::external_type_specification]
#[verifier::external_body]
pub struct ExIoError(std::io::Error);

/// What went wrong while tokenizing a source of text.
#[derive(Debug)]
pub enum TokenizerError {
    /// Reading the text failed.
    Io(std::io::Error),
}

impl From<std::io::Error> for TokenizerError {
    fn from(error: std::io::Error) -> (r: Self) {
        TokenizerError::Io(error)
    }
}

impl vstd::std_specs::convert::FromSpecImpl<std::io::Error> for TokenizerError {
    open spec fn obeys_from_spec() -> bool {
        true
    }

    open spec fn from_spec(v: std::io::Error) -> Self {
        TokenizerError::Io(v)
    }
}

/// A token with its characters as a sequence, or the error in its place.
pub open spec fn item_view(item: Result<String, TokenizerError>) -> Result<Seq<char>, TokenizerError> {
    match item {
        Ok(s) => Ok(s@),
        Err(e) => Err(e),
    }
}

/// The items produced for one line: its words, or the error that reading
/// it gave.
pub open spec fn line_items<V: CharValidator>(
    validator: &V,
    line: Result<String, std::io::Error>,
) -> Seq<Result<Seq<char>, TokenizerError>> {
    match line {
        Ok(text) => line_words(accepted_by(validator), text@).map_values(
            |w: Seq<char>| Ok::<Seq<char>, TokenizerError>(w),
        ),
        Err(e) => seq![Err(TokenizerError::Io(e))],
    }
}

/// The items of each line, line after line.
pub open spec fn lines_items<V: CharValidator>(
    validator: &V,
    lines: Seq<Result<String, std::io::Error>>,
) -> Seq<Result<Seq<char>, TokenizerError>>
    decreases lines.len(),
{
    if lines.len() == 0 {
        Seq::empty()
    } else {
        lines_items(validator, lines.drop_last()) + line_items(validator, lines.last())
    }
}

/// A line read successfully gives exactly its words, each a non-empty
/// `Ok` item, in order (a blank line gives no item); a line that could not
/// be read gives exactly one item, its error.
pub proof fn law_line_items<V: CharValidator>(validator: &V, line: Result<String, std::io::Error>)
    ensures
        match line {
            Ok(text) => {
                let words = line_words(accepted_by(validator), text@);
                &&& line_items(validator, line).len() == words.len()
                &&& forall|i: int|
                    0 <= i < words.len() ==> #[trigger] line_items(validator, line)[i] == Ok::<
                        Seq<char>,
                        TokenizerError,
                    >(words[i]) && words[i].len() > 0
            },
            Err(e) => line_items(validator, line) == seq![Err::<Seq<char>, TokenizerError>(TokenizerError::Io(e))],
        },
{
    match line {
        Ok(text) => {
            crate::text::law_words_shape(crate::text::kept_chars(accepted_by(validator), text@));
        },
        Err(e) => {},
    }
}

/// The items of several lines are the items of each line, line after line:
/// every failed line gives its own error item, and no line's items are
/// merged with or dropped for another's.
pub proof fn law_lines_items_concatenate<V: CharValidator>(
    validator: &V,
    lines: Seq<Result<String, std::io::Error>>,
)
    ensures
        lines_items(validator, lines) == lines.map_values(
            |l: Result<String, std::io::Error>| line_items(validator, l),
        ).flatten(),
    decreases lines.len(),
{
    let f = |l: Result<String, std::io::Error>| line_items(validator, l);
    if lines.len() == 0 {
        assert(lines.map_values(f) =~= Seq::<Seq<Result<Seq<char>, TokenizerError>>>::empty());
    } else {
        law_lines_items_concatenate(validator, lines.drop_last());
        assert(lines.map_values(f) =~= lines.drop_last().map_values(f).push(
            line_items(validator, lines.last()),
        ));
        lines.drop_last().map_values(f).lemma_flatten_push(line_items(validator, lines.last()));
    }
}

/// Reading the lines `a` and then the lines `b` gives the items of `a`
/// followed by the items of `b`.
pub proof fn law_lines_items_append<V: CharValidator>(
    validator: &V,
    a: Seq<Result<String, std::io::Error>>,
    b: Seq<Result<String, std::io::Error>>,
)
    ensures
        lines_items(validator, a + b) == lines_items(validator, a) + lines_items(validator, b),
{
    law_lines_items_concatenate(validator, a);
    law_lines_items_concatenate(validator, b);
    law_lines_items_concatenate(validator, a + b);
    let f = |l: Result<String, std::io::Error>| line_items(validator, l);
    assert((a + b).map_values(f) =~= a.map_values(f) + b.map_values(f));
    vstd::seq_lib::lemma_flatten_concat(a.map_values(f), b.map_values(f));
}

/// Splits text into words. Characters that the validator rejects are
/// dropped first; white space then separates the words.
pub struct Tokenizer<V> {
    validator: V,
}

impl<V> Tokenizer<V> {
    /// The validator that decides which characters count.
    pub closed spec fn validator_spec(&self) -> V {
        self.validator
    }
}

impl Tokenizer<AcceptAll> {
    /// A tokenizer that keeps every character.
    pub fn new() -> (t: Tokenizer<AcceptAll>)
        ensures
            t.validator_spec() == AcceptAll,
    {
        Tokenizer { validator: AcceptAll }
    }
}

impl<V: CharValidator> Tokenizer<V> {
    /// A tokenizer that keeps only the characters `validator` accepts.
    pub fn new_with_validator(validator: V) -> (t: Self)
        ensures
            t.validator_spec() == validator,
    {
        Tokenizer { validator }
    }

    /// The items of one line read: its words, or the error that reading it
    /// gave.
    pub fn from_line_result(&self, line: Result<String, std::io::Error>) -> (items: Vec<
        Result<String, TokenizerError>,
    >)
        ensures
            items@.map_values(|r: Result<String, TokenizerError>| item_view(r)) == line_items(
                &self.validator_spec(),
                line,
            ),
    {
        let mut items: Vec<Result<String, TokenizerError>> = Vec::new();
        match line {
            Ok(text) => {
                let words = tokenize_line(&self.validator, text.as_str());
                let mut j: usize = 0;
                while j < words.len()
                    invariant
                        j <= words@.len(),
                        items@.map_values(|r: Result<String, TokenizerError>| item_view(r))
                            == crate::text::strings_view(words@.take(j as int)).map_values(
                            |w: Seq<char>| Ok::<Seq<char>, TokenizerError>(w),
                        ),
                    decreases words@.len() - j,
                {
                    let ghost prev = items@;
                    items.push(Ok(words[j].clone()));
                    assert(items@.map_values(|r: Result<String, TokenizerError>| item_view(r))
                        =~= prev.map_values(|r: Result<String, TokenizerError>| item_view(r)).push(
                        Ok(words@[j as int]@),
                    ));
                    assert(crate::text::strings_view(words@.take(j + 1)).map_values(
                        |w: Seq<char>| Ok::<Seq<char>, TokenizerError>(w),
                    ) =~= crate::text::strings_view(words@.take(j as int)).map_values(
                        |w: Seq<char>| Ok::<Seq<char>, TokenizerError>(w),
                    ).push(Ok(words@[j as int]@)));
                    j = j + 1;
                }
                assert(words@.take(words@.len() as int) =~= words@);
            },
            Err(error) => {
                items.push(Err(TokenizerError::from(error)));
                assert(items@.map_values(|r: Result<String, TokenizerError>| item_view(r))
                    =~= seq![Err(TokenizerError::Io(error))]);
            },
        }
        items
    }

    /// The words of each line read, line after line; a line that could not
    /// be read gives one error in its place.
    pub fn from_lines(&self, lines: Vec<Result<String, std::io::Error>>) -> (items: Vec<
        Result<String, TokenizerError>,
    >)
        ensures
            items@.map_values(|r: Result<String, TokenizerError>| item_view(r)) == lines_items(
                &self.validator_spec(),
                lines@,
            ),
    {
        let mut items: Vec<Result<String, TokenizerError>> = Vec::new();
        let ghost all = lines@;
        for line in it: lines.into_iter()
            invariant
                it.seq() == all,
                items@.map_values(|r: Result<String, TokenizerError>| item_view(r)) == lines_items(
                    &self.validator,
                    all.take(it.index() as int),
                ),
        {
            let ghost before = items@;
            let ghost k = it.index() as int;
            assert(all.take(k + 1).drop_last() =~= all.take(k));
            assert(all.take(k + 1).last() == line);
            let mut added = self.from_line_result(line);
            let ghost added_view = added@;
            items.append(&mut added);
            assert(items@.map_values(|r: Result<String, TokenizerError>| item_view(r)) =~= before.map_values(
                |r: Result<String, TokenizerError>| item_view(r),
            ) + added_view.map_values(|r: Result<String, TokenizerError>| item_view(r)));
        }
        assert(all.take(all.len() as int) =~= all);
        items
    }
}

impl<V: CharValidator> Tokenizer<V> {
    /// The items of a source that was either opened and read line by line,
    /// or could not be opened: in that case the one item is the error.
    pub fn from_read_result(
        &self,
        opened: Result<Vec<Result<String, std::io::Error>>, std::io::Error>,
    ) -> (items: Vec<Result<String, TokenizerError>>)
        ensures
            items@.map_values(|r: Result<String, TokenizerError>| item_view(r)) == match opened {
                Ok(lines) => lines_items(&self.validator_spec(), lines@),
                Err(e) => seq![Err(TokenizerError::Io(e))],
            },
    {
        match opened {
            Ok(lines) => self.from_lines(lines),
            Err(error) => {
                let mut items: Vec<Result<String, TokenizerError>> = Vec::new();
                items.push(Err(TokenizerError::from(error)));
                assert(items@.map_values(|r: Result<String, TokenizerError>| item_view(r))
                    =~= seq![Err(TokenizerError::Io(error))]);
                items
            },
        }
    }
}

/// One of two sources of items, whichever was chosen when it was made.
pub enum TokenizerIter<I1, I2> {
    Iter1(I1),
    Iter2(I2),
}
impl<T, I1: Iterator<Item = T>, I2: Iterator<Item = T>> TokenizerIter<I1, I2> {
    /// The next item of the source in use. The source in use never changes.
    pub fn next(&mut self) -> (ret: Option<T>)
        ensures
            match (*old(self), *final(self)) {
                (TokenizerIter::Iter1(a), TokenizerIter::Iter1(b)) => a.obeys_prophetic_iter_laws() ==> if a.remaining().len() > 0 {
                    b.remaining() == a.remaining().drop_first() && ret == Some(a.remaining()[0])
                } else {
                    ret is None && b.remaining() == a.remaining()
                },
                (TokenizerIter::Iter2(a), TokenizerIter::Iter2(b)) => a.obeys_prophetic_iter_laws() ==> if a.remaining().len() > 0 {
                    b.remaining() == a.remaining().drop_first() && ret == Some(a.remaining()[0])
                } else {
                    ret is None && b.remaining() == a.remaining()
                },
                _ => false,
            },
    {
        match self {
            TokenizerIter::Iter1(iter1) => iter1.next(),
            TokenizerIter::Iter2(iter2) => iter2.next(),
        }
    }
}


} // verus!
