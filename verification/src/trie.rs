//! A prefix tree (trie) holding a set of words.
//!
//! Each node maps the next character of a word, by its code point, to the
//! entry that continues the word; every entry, the root included, records
//! whether a word ends there.
use std::collections::HashMap;
use vstd::prelude::*;

verus! {

/// The children of one node of a [`Trie`], keyed by the code point of the
/// character that leads to each child.
#[derive(Debug)]
pub struct TrieNode(pub(crate) HashMap<u32, TrieNodeMapValue>);

/// One entry of the trie: whether a word ends here, and the node that holds
/// the possible continuations.
#[derive(Debug)]
pub(crate) struct TrieNodeMapValue {
    pub(crate) eow: bool,
    pub(crate) child_map: TrieNode,
}

/// A set of words stored as a prefix tree. Common prefixes are stored once.
/// The root entry stands for the empty prefix, so the empty word can be held.
///
/// `size` counts the calls of [`Trie::insert`], repeated words included.
#[derive(Debug)]
pub struct Trie {
    root: TrieNodeMapValue,
    size: usize,
}

/// The code points of the characters of a word.
pub open spec fn codes_of(word: Seq<char>) -> Seq<u32> {
    word.map_values(|c: char| c as u32)
}

/// Following the code points of `path` from `entry` reaches an entry that
/// marks the end of a word.
pub closed spec fn holds_word(entry: TrieNodeMapValue, path: Seq<u32>) -> bool
    decreases path.len(),
{
    if path.len() == 0 {
        entry.eow
    } else if !entry.child_map.0@.contains_key(path[0]) {
        false
    } else {
        holds_word(entry.child_map.0@[path[0]], path.drop_first())
    }
}

proof fn lemma_char_code_injective(x: char, y: char)
    requires
        x as u32 == y as u32,
    ensures
        x == y,
{
}

/// Distinct words have distinct code point sequences.
proof fn lemma_codes_injective(a: Seq<char>, b: Seq<char>)
    requires
        codes_of(a) == codes_of(b),
    ensures
        a == b,
{
    assert(a.len() == codes_of(a).len());
    assert(b.len() == codes_of(b).len());
    assert forall|i: int| 0 <= i < a.len() implies a[i] == b[i] by {
        assert(codes_of(a)[i] == codes_of(b)[i]);
        assert(codes_of(a)[i] == a[i] as u32);
        assert(codes_of(b)[i] == b[i] as u32);
        lemma_char_code_injective(a[i], b[i]);
    }
    assert(a =~= b);
}

impl TrieNodeMapValue {
    /// An entry that ends no word and has no continuations.
    pub(crate) fn new() -> (v: TrieNodeMapValue)
        ensures
            !v.eow,
            v.child_map.0@ == Map::<u32, TrieNodeMapValue>::empty(),
    {
        TrieNodeMapValue { eow: false, child_map: TrieNode(HashMap::new()) }
    }
}

/// A fresh entry holds no word.
proof fn lemma_new_entry_holds_nothing(entry: TrieNodeMapValue, path: Seq<u32>)
    requires
        !entry.eow,
        entry.child_map.0@ == Map::<u32, TrieNodeMapValue>::empty(),
    ensures
        !holds_word(entry, path),
{
    if path.len() > 0 {
        assert(!entry.child_map.0@.contains_key(path[0]));
    }
}

/// Adds the word `codes[i..]` below `entry`: afterwards exactly the paths
/// that reached a word before, and that suffix, reach a word.
fn insert_codes(entry: &mut TrieNodeMapValue, codes: &Vec<u32>, i: usize)
    requires
        i <= codes@.len(),
    ensures
        forall|path: Seq<u32>|
            #[trigger] holds_word(*final(entry), path) == (holds_word(*old(entry), path) || path
                == codes@.subrange(i as int, codes@.len() as int)),
    decreases codes@.len() - i,
{
    let ghost suffix = codes@.subrange(i as int, codes@.len() as int);
    if i == codes.len() {
        entry.eow = true;
        assert forall|path: Seq<u32>|
            #[trigger] holds_word(*entry, path) == (holds_word(*old(entry), path) || path
                == suffix) by {
            if path.len() == 0 {
                assert(path =~= suffix);
            }
        }
    } else {
        let key = codes[i];
        let ghost old_map = entry.child_map.0@;
        let mut child = match entry.child_map.0.remove(&key) {
            Some(v) => v,
            None => TrieNodeMapValue::new(),
        };
        let ghost old_child = child;
        insert_codes(&mut child, codes, i + 1);
        entry.child_map.0.insert(key, child);
        proof {
            let rest = codes@.subrange(i + 1, codes@.len() as int);
            assert(entry.child_map.0@ == old_map.remove(key).insert(key, child));
            assert forall|path: Seq<u32>|
                #[trigger] holds_word(*entry, path) == (holds_word(*old(entry), path) || path
                    == suffix) by {
                if path.len() > 0 && path[0] == key {
                    if !old_map.contains_key(key) {
                        lemma_new_entry_holds_nothing(old_child, path.drop_first());
                    } else {
                        assert(old_child == old_map[key]);
                    }
                    assert(holds_word(*entry, path) == holds_word(child, path.drop_first()));
                    assert(path == suffix <==> path.drop_first() == rest) by {
                        assert(suffix[0] == codes@[i as int]);
                        if path.drop_first() == rest {
                            assert forall|j: int| 0 <= j < path.len() implies path[j]
                                == suffix[j] by {
                                if j > 0 {
                                    assert(path[j] == path.drop_first()[j - 1]);
                                }
                            }
                            assert(path =~= suffix);
                        }
                        if path == suffix {
                            assert(path.drop_first() =~= rest);
                        }
                    }
                } else if path.len() > 0 {
                    assert(path != suffix);
                } else {
                    assert(path != suffix);
                }
            }
        }
    }
}

/// The code points of the characters of `token`, in order.
fn char_codes(token: &str) -> (codes: Vec<u32>)
    ensures
        codes@ == codes_of(token@),
{
    let mut codes: Vec<u32> = Vec::new();
    for c in it: token.chars()
        invariant
            it.seq() == token@,
            codes@ == codes_of(token@.take(it.index() as int)),
    {
        assert(token@.take(it.index() + 1) =~= token@.take(it.index() as int).push(c));
        codes.push(c as u32);
        assert(codes@ =~= codes_of(token@.take(it.index() + 1)));
    }
    assert(token@.take(token@.len() as int) =~= token@);
    codes
}


impl View for Trie {
    type V = Set<Seq<char>>;

    /// The words held by the trie.
    closed spec fn view(&self) -> Set<Seq<char>> {
        Set::new(|w: Seq<char>| holds_word(self.root, codes_of(w)))
    }
}

impl Trie {
    /// The value of the `size` counter.
    pub closed spec fn size_field(&self) -> nat {
        self.size as nat
    }

    /// An empty trie.
    pub fn new() -> (t: Self)
        ensures
            t@ == Set::<Seq<char>>::empty(),
            t.size_field() == 0,
    {
        let t = Trie { root: TrieNodeMapValue::new(), size: 0 };
        assert forall|w: Seq<char>| !t@.contains(w) by {
            lemma_new_entry_holds_nothing(t.root, codes_of(w));
        }
        assert(t@ =~= Set::<Seq<char>>::empty());
        t
    }

    /// Adds `token` to the set of words and counts the call.
    pub fn insert(&mut self, token: &str)
        requires
            old(self).size_field() < usize::MAX,
        ensures
            final(self)@ == old(self)@.insert(token@),
            final(self).size_field() == old(self).size_field() + 1,
    {
        let codes = char_codes(token);
        insert_codes(&mut self.root, &codes, 0);
        assert(codes@.subrange(0, codes@.len() as int) =~= codes@);
        assert forall|w: Seq<char>| #[trigger] self@.contains(w) == old(self)@.insert(
            token@,
        ).contains(w) by {
            if codes_of(w) == codes@ {
                lemma_codes_injective(w, token@);
            }
        }
        assert(self@ =~= old(self)@.insert(token@));
        self.size = self.size + 1;
    }

    /// The number of calls of [`Trie::insert`] so far.
    pub fn size(&self) -> (n: usize)
        ensures
            n == self.size_field(),
    {
        self.size
    }

    /// Whether `token` is one of the words.
    pub fn contains(&mut self, token: &str) -> (found: bool)
        ensures
            *final(self) == *old(self),
            found == old(self)@.contains(token@),
    {
        let codes = char_codes(token);
        let n = codes.len();
        let mut curr: &TrieNodeMapValue = &self.root;
        let mut i: usize = 0;
        assert(codes@.subrange(0, n as int) =~= codes@);
        while i < n
            invariant
                codes@ == codes_of(token@),
                n == codes@.len(),
                0 <= i <= n,
                holds_word(self.root, codes@) == holds_word(
                    *curr,
                    codes@.subrange(i as int, n as int),
                ),
            decreases n - i,
        {
            let ghost rest = codes@.subrange(i as int, n as int);
            match curr.child_map.0.get(&codes[i]) {
                None => {
                    return false;
                },
                Some(next_entry) => {
                    assert(rest.drop_first() =~= codes@.subrange(i + 1, n as int));
                    curr = next_entry;
                },
            }
            i = i + 1;
        }
        assert(codes@.subrange(n as int, n as int).len() == 0);
        curr.eow
    }
}

/// After inserting `token`, a word is in the trie exactly when it was in
/// it before or it is the token: inserting makes the token found and leaves
/// every other word as it was.
pub proof fn law_insert_then_contains(words: Set<Seq<char>>, token: Seq<char>, w: Seq<char>)
    ensures
        words.insert(token).contains(w) == (words.contains(w) || w == token),
{
}

/// Inserting a word that is already held changes no word.
pub proof fn law_insert_idempotent(words: Set<Seq<char>>, token: Seq<char>)
    ensures
        words.insert(token).insert(token) == words.insert(token),
{
    assert(words.insert(token).insert(token) =~= words.insert(token));
}

/// The words held after inserting `tokens` in order into a trie that held
/// `words`.
pub open spec fn after_inserts(words: Set<Seq<char>>, tokens: Seq<Seq<char>>) -> Set<Seq<char>>
    decreases tokens.len(),
{
    if tokens.len() == 0 {
        words
    } else {
        after_inserts(words, tokens.drop_last()).insert(tokens.last())
    }
}

/// A trie built by inserting `tokens` into an empty trie holds exactly
/// those tokens: a prefix or an extension of an inserted word is found
/// only if it was inserted itself, and matching is exact.
pub proof fn law_holds_exactly_the_inserted(tokens: Seq<Seq<char>>, q: Seq<char>)
    ensures
        after_inserts(Set::empty(), tokens).contains(q) == tokens.contains(q),
    decreases tokens.len(),
{
    if tokens.len() > 0 {
        law_holds_exactly_the_inserted(tokens.drop_last(), q);
        if tokens.drop_last().contains(q) {
            let k = choose|k: int| 0 <= k < tokens.drop_last().len() && tokens.drop_last()[k] == q;
            assert(tokens[k] == q);
        }
        if tokens.contains(q) && q != tokens.last() {
            let k = choose|k: int| 0 <= k < tokens.len() && tokens[k] == q;
            assert(tokens.drop_last()[k] == q);
        }
    }
}

} // verus!
