//! Splitting text into words: characters are first kept or dropped by a
//! validator, then the rest is split at white space.
use vstd::prelude::*;
use vstd::seq_lib::lemma_flatten_concat;

verus! {

/// Whether `c` has the Unicode `White_Space` property, as `char::is_whitespace`
/// and `str::split_whitespace` decide it.
pub open spec fn is_white_space(c: char) -> bool {
    let v = c as u32;
    ||| 0x9 <= v <= 0xD
    ||| v == 0x20
    ||| v == 0x85
    ||| v == 0xA0
    ||| v == 0x1680
    ||| 0x2000 <= v <= 0x200A
    ||| v == 0x2028
    ||| v == 0x2029
    ||| v == 0x202F
    ||| v == 0x205F
    ||| v == 0x3000
}

/// The words of `s` that follow the partial word `cur`: the maximal runs of
/// characters that are not white space, in order, none of them empty.
pub open spec fn words_after(s: Seq<char>, cur: Seq<char>) -> Seq<Seq<char>>
    decreases s.len(),
{
    if s.len() == 0 {
        if cur.len() > 0 {
            seq![cur]
        } else {
            Seq::empty()
        }
    } else if is_white_space(s[0]) {
        (if cur.len() > 0 {
            seq![cur]
        } else {
            Seq::empty()
        }) + words_after(s.drop_first(), Seq::empty())
    } else {
        words_after(s.drop_first(), cur.push(s[0]))
    }
}

/// The words of `s`, as `str::split_whitespace` yields them.
pub open spec fn split_words_spec(s: Seq<char>) -> Seq<Seq<char>> {
    words_after(s, Seq::empty())
}

/// The character sequences of a vector of strings.
pub open spec fn strings_view(v: Seq<String>) -> Seq<Seq<char>> {
    v.map_values(|s: String| s@)
}

/// Decides, character by character, which characters of a text count.
/// Dropped characters vanish; they do not separate words.
pub trait CharValidator {
    /// Whether `c` is kept.
    spec fn accepts(&self, c: char) -> bool;

    /// Whether `c` is kept.
    fn is_valid(&self, c: &char) -> (keep: bool)
        ensures
            keep == self.accepts(*c),
    ;
}

/// The validator that keeps every character.
pub struct AcceptAll;

impl CharValidator for AcceptAll {
    open spec fn accepts(&self, c: char) -> bool {
        true
    }

    fn is_valid(&self, c: &char) -> (keep: bool) {
        true
    }
}

/// The predicate on characters that `validator` decides.
pub open spec fn accepted_by<V: CharValidator>(validator: &V) -> spec_fn(char) -> bool {
    |c: char| validator.accepts(c)
}

/// The characters of `line` that `keep` holds of, in order.
pub open spec fn kept_chars(keep: spec_fn(char) -> bool, line: Seq<char>) -> Seq<char> {
    line.filter(keep)
}

/// The words of `line` once the characters that `keep` rejects are removed.
pub open spec fn line_words(keep: spec_fn(char) -> bool, line: Seq<char>) -> Seq<Seq<char>> {
    split_words_spec(kept_chars(keep, line))
}

/// Whether `c` is white space (see [`is_white_space`]).
pub fn is_whitespace(c: char) -> (r: bool)
    ensures
        r == is_white_space(c),
{
    let v = c as u32;
    (0x9 <= v && v <= 0xD) || v == 0x20 || v == 0x85 || v == 0xA0 || v == 0x1680 || (0x2000 <= v
        && v <= 0x200A) || v == 0x2028 || v == 0x2029 || v == 0x202F || v == 0x205F || v == 0x3000
}

/// Appends `c` to `s`.
///
/// Trusted: calls `String::push`, which std documents as appending the
/// character to the end of the string.
#[verifier::external_body]
pub(crate) fn string_push(s: &mut String, c: char)
    ensures
        final(s)@ == old(s)@.push(c),
{
    s.push(c)
}

/// The characters of `line` that `validator` keeps, in order.
pub fn filter_chars<V: CharValidator>(validator: &V, line: &str) -> (kept: Vec<char>)
    ensures
        kept@ == kept_chars(accepted_by(validator), line@),
{
    let mut kept: Vec<char> = Vec::new();
    for c in it: line.chars()
        invariant
            it.seq() == line@,
            kept@ == kept_chars(accepted_by(validator), line@.take(it.index() as int)),
    {
        let ghost before = line@.take(it.index() as int);
        reveal_with_fuel(Seq::<_>::filter, 1);
        assert(line@.take(it.index() + 1).drop_last() =~= before);
        assert(line@.take(it.index() + 1).last() == c);
        let keep = validator.is_valid(&c);
        if keep {
            kept.push(c);
        }
    }
    assert(line@.take(line@.len() as int) =~= line@);
    kept
}

/// The words of `chars`: its maximal runs of characters that are not white
/// space, each as a string.
pub fn split_words(chars: &Vec<char>) -> (words: Vec<String>)
    ensures
        strings_view(words@) == split_words_spec(chars@),
{
    let mut words: Vec<String> = Vec::new();
    let mut cur = String::new();
    let mut cur_len: usize = 0;
    let mut i: usize = 0;
    assert(chars@.skip(0) =~= chars@);
    while i < chars.len()
        invariant
            i <= chars@.len(),
            cur_len == cur@.len(),
            cur_len <= i,
            split_words_spec(chars@) == strings_view(words@) + words_after(
                chars@.skip(i as int),
                cur@,
            ),
        decreases chars@.len() - i,
    {
        let c = chars[i];
        let ghost rest = chars@.skip(i as int);
        let ghost old_cur = cur@;
        let ghost old_words_view = strings_view(words@);
        assert(rest.drop_first() =~= chars@.skip(i + 1));
        assert(rest[0] == c);
        if is_whitespace(c) {
            if cur_len > 0 {
                let ghost old_words = words@;
                let word = cur;
                words.push(word);
                cur = String::new();
                cur_len = 0;
                assert(strings_view(words@) =~= strings_view(old_words) + seq![word@]);
                assert(words_after(rest, old_cur) == seq![old_cur] + words_after(
                    rest.drop_first(),
                    Seq::empty(),
                ));
                assert(old_words_view + (seq![old_cur] + words_after(
                    rest.drop_first(),
                    Seq::empty(),
                )) =~= strings_view(words@) + words_after(rest.drop_first(), Seq::empty()));
            } else {
                assert(old_cur =~= Seq::<char>::empty());
                assert(seq![] + words_after(rest.drop_first(), Seq::empty()) =~= words_after(
                    rest.drop_first(),
                    Seq::empty(),
                ));
            }
        } else {
            string_push(&mut cur, c);
            cur_len = cur_len + 1;
            assert(words_after(rest, old_cur) == words_after(rest.drop_first(), old_cur.push(c)));
        }
        i = i + 1;
    }
    if cur_len > 0 {
        let ghost old_words = words@;
        let word = cur;
        words.push(word);
        assert(strings_view(words@) =~= strings_view(old_words) + seq![word@]);
    } else {
        assert(strings_view(words@) + Seq::<Seq<char>>::empty() =~= strings_view(words@));
    }
    words
}

/// The words of `line` once the characters that `validator` drops are
/// removed.
pub fn tokenize_line<V: CharValidator>(validator: &V, line: &str) -> (words: Vec<String>)
    ensures
        strings_view(words@) == line_words(accepted_by(validator), line@),
{
    let kept = filter_chars(validator, line);
    split_words(&kept)
}

/// The words of each line, line after line.
pub open spec fn lines_words(keep: spec_fn(char) -> bool, lines: Seq<Seq<char>>) -> Seq<Seq<char>>
    decreases lines.len(),
{
    if lines.len() == 0 {
        Seq::empty()
    } else {
        lines_words(keep, lines.drop_last()) + line_words(keep, lines.last())
    }
}

/// The words of each line of `lines`, line after line.
pub fn tokenize_lines<V: CharValidator>(validator: &V, lines: &Vec<String>) -> (words: Vec<
    String,
>)
    ensures
        strings_view(words@) == lines_words(accepted_by(validator), strings_view(lines@)),
{
    let mut words: Vec<String> = Vec::new();
    let mut i: usize = 0;
    while i < lines.len()
        invariant
            i <= lines@.len(),
            strings_view(words@) == lines_words(accepted_by(validator), strings_view(lines@.take(i as int))),
        decreases lines@.len() - i,
    {
        let mut line_tokens = tokenize_line(validator, lines[i].as_str());
        let ghost before = words@;
        let ghost added = line_tokens@;
        words.append(&mut line_tokens);
        assert(strings_view(lines@.take(i + 1)).drop_last() =~= strings_view(lines@.take(i as int)));
        assert(strings_view(words@) =~= strings_view(before) + strings_view(added));
        i = i + 1;
    }
    assert(lines@.take(lines@.len() as int) =~= lines@);
    words
}

/// Every word that follows the partial word `cur` in `s` is non-empty,
/// holds no white space, and is made of characters of `cur` or of `s`.
proof fn lemma_words_after_shape(s: Seq<char>, cur: Seq<char>)
    requires
        forall|j: int| 0 <= j < cur.len() ==> !is_white_space(#[trigger] cur[j]),
    ensures
        forall|i: int|
            0 <= i < words_after(s, cur).len() ==> {
                let w = #[trigger] words_after(s, cur)[i];
                &&& w.len() > 0
                &&& forall|j: int|
                    0 <= j < w.len() ==> !is_white_space(#[trigger] w[j]) && (cur.contains(w[j])
                        || s.contains(w[j]))
            },
    decreases s.len(),
{
    if s.len() == 0 {
    } else {
        let rest = s.drop_first();
        if is_white_space(s[0]) {
            lemma_words_after_shape(rest, Seq::empty());
            let head: Seq<Seq<char>> = if cur.len() > 0 {
                seq![cur]
            } else {
                Seq::empty()
            };
            let tail = words_after(rest, Seq::empty());
            assert forall|i: int| 0 <= i < words_after(s, cur).len() implies {
                let w = #[trigger] words_after(s, cur)[i];
                &&& w.len() > 0
                &&& forall|j: int|
                    0 <= j < w.len() ==> !is_white_space(#[trigger] w[j]) && (cur.contains(w[j])
                        || s.contains(w[j]))
            } by {
                let w = words_after(s, cur)[i];
                if i < head.len() {
                    assert(w == cur);
                    assert forall|j: int| 0 <= j < w.len() implies !is_white_space(
                        #[trigger] w[j],
                    ) && (cur.contains(w[j]) || s.contains(w[j])) by {
                        assert(cur[j] == w[j]);
                    }
                } else {
                    assert(w == tail[i - head.len()]);
                    assert forall|j: int| 0 <= j < w.len() implies !is_white_space(
                        #[trigger] w[j],
                    ) && (cur.contains(w[j]) || s.contains(w[j])) by {
                        if rest.contains(w[j]) {
                            let m = choose|m: int| 0 <= m < rest.len() && rest[m] == w[j];
                            assert(s[m + 1] == w[j]);
                        }
                    }
                }
            }
        } else {
            let next = cur.push(s[0]);
            assert forall|j: int| 0 <= j < next.len() implies !is_white_space(#[trigger] next[j]) by {
                if j < cur.len() {
                    assert(next[j] == cur[j]);
                }
            }
            lemma_words_after_shape(rest, next);
            assert forall|i: int| 0 <= i < words_after(s, cur).len() implies {
                let w = #[trigger] words_after(s, cur)[i];
                &&& w.len() > 0
                &&& forall|j: int|
                    0 <= j < w.len() ==> !is_white_space(#[trigger] w[j]) && (cur.contains(w[j])
                        || s.contains(w[j]))
            } by {
                let w = words_after(s, cur)[i];
                assert(w == words_after(rest, next)[i]);
                assert forall|j: int| 0 <= j < w.len() implies !is_white_space(#[trigger] w[j]) && (
                cur.contains(w[j]) || s.contains(w[j])) by {
                    if next.contains(w[j]) {
                        let m = choose|m: int| 0 <= m < next.len() && next[m] == w[j];
                        if m < cur.len() {
                            assert(cur[m] == w[j]);
                        } else {
                            assert(s[0] == w[j]);
                        }
                    } else {
                        assert(rest.contains(w[j]));
                        let m = choose|m: int| 0 <= m < rest.len() && rest[m] == w[j];
                        assert(s[m + 1] == w[j]);
                    }
                }
            }
        }
    }
}

/// Splitting at white space yields non-empty words without white space,
/// made of characters of the text.
pub proof fn law_words_shape(s: Seq<char>)
    ensures
        forall|i: int|
            0 <= i < split_words_spec(s).len() ==> {
                let w = #[trigger] split_words_spec(s)[i];
                &&& w.len() > 0
                &&& forall|j: int|
                    0 <= j < w.len() ==> !is_white_space(#[trigger] w[j]) && s.contains(w[j])
            },
{
    lemma_words_after_shape(s, Seq::empty());
}

/// Every character of every word of a line is one that the validator keeps.
pub proof fn law_words_keep_only_accepted(keep: spec_fn(char) -> bool, line: Seq<char>)
    ensures
        forall|i: int, j: int|
            0 <= i < line_words(keep, line).len() && 0 <= j < line_words(keep, line)[i].len()
                ==> keep(#[trigger] line_words(keep, line)[i][j]),
{
    let kept = kept_chars(keep, line);
    law_words_shape(kept);
    assert forall|i: int, j: int|
        0 <= i < line_words(keep, line).len() && 0 <= j < line_words(keep, line)[i].len()
            implies keep(#[trigger] line_words(keep, line)[i][j]) by {
        let c = line_words(keep, line)[i][j];
        assert(kept.contains(c));
        let m = choose|m: int| 0 <= m < kept.len() && kept[m] == c;
        line.lemma_filter_pred(keep, m);
    }
}

/// The validator that keeps every character leaves a line unchanged, so
/// its words are exactly the white-space-separated words of the line.
pub proof fn law_accept_all_keeps_line(line: Seq<char>)
    ensures
        kept_chars(accepted_by(&AcceptAll), line) == line,
        line_words(accepted_by(&AcceptAll), line) == split_words_spec(line),
    decreases line.len(),
{
    reveal_with_fuel(Seq::<_>::filter, 1);
    if line.len() > 0 {
        law_accept_all_keeps_line(line.drop_last());
        assert(line.drop_last().push(line.last()) =~= line);
    } else {
        assert(kept_chars(accepted_by(&AcceptAll), line) =~= line);
    }
}

/// The characters of `s` that are not white space, in order.
pub open spec fn non_white(s: Seq<char>) -> Seq<char> {
    s.filter(|c: char| !is_white_space(c))
}

/// How many maximal runs of characters that are not white space begin in
/// `s`; when `in_word`, a run at the very start continues one begun before
/// `s` and is not counted.
pub open spec fn word_starts(s: Seq<char>, in_word: bool) -> nat
    decreases s.len(),
{
    if s.len() == 0 {
        0
    } else if is_white_space(s[0]) {
        word_starts(s.drop_first(), false)
    } else {
        (if in_word {
            0nat
        } else {
            1nat
        }) + word_starts(s.drop_first(), true)
    }
}

proof fn lemma_non_white_first(s: Seq<char>)
    requires
        s.len() > 0,
    ensures
        non_white(s) == (if is_white_space(s[0]) {
            Seq::empty()
        } else {
            seq![s[0]]
        }) + non_white(s.drop_first()),
{
    let head = seq![s[0]];
    assert(s =~= head + s.drop_first());
    Seq::filter_distributes_over_add(head, s.drop_first(), |c: char| !is_white_space(c));
    reveal_with_fuel(Seq::<_>::filter, 2);
    assert(head.drop_last() =~= Seq::<char>::empty());
    if is_white_space(s[0]) {
        assert(non_white(head) =~= Seq::<char>::empty());
    } else {
        assert(non_white(head) =~= head);
    }
}

proof fn lemma_words_after_runs(s: Seq<char>, cur: Seq<char>)
    ensures
        words_after(s, cur).flatten() == cur + non_white(s),
        words_after(s, cur).len() == word_starts(s, cur.len() > 0) + (if cur.len() > 0 {
            1nat
        } else {
            0nat
        }),
    decreases s.len(),
{
    if s.len() == 0 {
        reveal_with_fuel(Seq::<_>::filter, 1);
        assert(non_white(s) =~= Seq::<char>::empty());
        if cur.len() > 0 {
            assert(seq![cur].flatten() == cur + seq![cur].drop_first().flatten());
            assert(seq![cur].drop_first() =~= Seq::<Seq<char>>::empty());
        }
        assert(cur + Seq::<char>::empty() =~= cur);
    } else {
        let rest = s.drop_first();
        lemma_non_white_first(s);
        if is_white_space(s[0]) {
            lemma_words_after_runs(rest, Seq::empty());
            let head: Seq<Seq<char>> = if cur.len() > 0 {
                seq![cur]
            } else {
                Seq::empty()
            };
            let tail = words_after(rest, Seq::empty());
            lemma_flatten_concat(head, tail);
            if cur.len() > 0 {
                assert(head.flatten() == cur + head.drop_first().flatten());
                assert(head.drop_first() =~= Seq::<Seq<char>>::empty());
                assert(head.flatten() =~= cur);
            } else {
                assert(cur =~= Seq::<char>::empty());
                assert(head + tail =~= tail);
            }
            assert(Seq::<char>::empty() + non_white(rest) =~= non_white(rest));
            assert(head.flatten() + tail.flatten() =~= cur + non_white(s));
        } else {
            lemma_words_after_runs(rest, cur.push(s[0]));
            assert(cur.push(s[0]) + non_white(rest) =~= cur + (seq![s[0]] + non_white(rest)));
        }
    }
}

/// Splitting at white space keeps every character that is not white space,
/// in order, and cuts only where white space stands: joined together the
/// words give the text without its white space, and there are exactly as
/// many words as there are runs of characters that are not white space.
pub proof fn law_words_are_the_runs(s: Seq<char>)
    ensures
        split_words_spec(s).flatten() == non_white(s),
        split_words_spec(s).len() == word_starts(s, false),
{
    lemma_words_after_runs(s, Seq::empty());
    assert(Seq::<char>::empty() + non_white(s) =~= non_white(s));
}

/// The words of several lines are the words of each line, line after line:
/// no word spans two lines, and the lines' words are neither merged nor
/// dropped.
pub proof fn law_lines_words_concatenate(keep: spec_fn(char) -> bool, lines: Seq<Seq<char>>)
    ensures
        lines_words(keep, lines) == lines.map_values(|l: Seq<char>| line_words(keep, l)).flatten(),
    decreases lines.len(),
{
    let per_line = lines.map_values(|l: Seq<char>| line_words(keep, l));
    if lines.len() == 0 {
        assert(per_line =~= Seq::<Seq<Seq<char>>>::empty());
    } else {
        law_lines_words_concatenate(keep, lines.drop_last());
        assert(per_line =~= lines.drop_last().map_values(|l: Seq<char>| line_words(keep, l)).push(
            line_words(keep, lines.last()),
        ));
        lines.drop_last().map_values(|l: Seq<char>| line_words(keep, l)).lemma_flatten_push(
            line_words(keep, lines.last()),
        );
    }
}

/// Tokenizing the lines `a` and then the lines `b` gives the words of `a`
/// followed by the words of `b`.
pub proof fn law_lines_words_append(
    keep: spec_fn(char) -> bool,
    a: Seq<Seq<char>>,
    b: Seq<Seq<char>>,
)
    ensures
        lines_words(keep, a + b) == lines_words(keep, a) + lines_words(keep, b),
{
    law_lines_words_concatenate(keep, a);
    law_lines_words_concatenate(keep, b);
    law_lines_words_concatenate(keep, a + b);
    let f = |l: Seq<char>| line_words(keep, l);
    assert((a + b).map_values(f) =~= a.map_values(f) + b.map_values(f));
    lemma_flatten_concat(a.map_values(f), b.map_values(f));
}

} // verus!
