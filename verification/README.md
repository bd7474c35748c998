# quill

A pub/sub topic-matching engine: hierarchical topics, MQTT-style subscription
patterns (`+` for one level, `#` for any remaining levels), and a trie-backed
registry that routes a topic to every subscriber whose pattern matches it.

The library under `src/` is written in Verus and verified:

- `topic.rs`: parsing and printing topics, with the splitting rules shared by
  patterns, and the round-trip laws between text and levels.
- `pattern.rs`: parsing, printing and matching patterns, and the laws of the
  wildcards.
- `trie.rs`: the trie that stores subscriptions, its insertion, removal (with
  pruning of empty branches) and match collection.
- `registry.rs`: the registry (trie plus reverse index), its abstract view,
  the contracts of its operations and the laws that relate them.

`app/` holds what stays outside verification: a lock-protected registry for use
across threads, and `Display`/`Error` implementations for the library's values.
