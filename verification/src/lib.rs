//! Small verified data structures and text utilities: a singly linked
//! stack, a doubly linked deque, a prefix tree, and tokenizers that split
//! text into words.

pub mod beat;
pub mod deque;
pub mod io;
pub mod stack;
pub mod text;
pub mod token_v2;
pub mod token_with_result_v2;
pub mod trie;
pub mod words;
