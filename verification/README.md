# rust_dust

Small data structures and text utilities, verified with Verus.

- `src/stack.rs` — a singly linked stack of boxed nodes (LIFO), freed node by node.
- `src/deque.rs` — a doubly linked deque whose nodes live in one vector and
  link to each other by index; both ends in constant time.
- `src/trie.rs` — a prefix tree of words, one map of children per node.
- `src/text.rs` — white-space splitting and per-character validators.
- `src/token_v2.rs`, `src/token_with_result_v2.rs`, `src/io.rs` — tokenizers
  over lines of text (the last one keeps the characters of a regular expression).
- `src/words.rs`, `src/beat.rs` — a small word-splitting example and the
  heartbeat record.
- `app/` — the heartbeat HTTP service (axum, PostgreSQL) and the file-reading
  front ends of the tokenizers.
