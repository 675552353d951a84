# bvec

`BVec<T>` is a sequence kept in the leaves of a B-tree: reading, inserting
and removing at any position take time logarithmic in the length. Each
internal node keeps the lengths of its children in a Fenwick tree, so the
child holding a position is found by a prefix-sum search.

The library is written in Verus. Every operation states, over the sequence of
values (`BVec`'s view), what it returns and how it changes the sequence, and
Verus proves it together with the B-tree's shape invariant (`BVec::wf`).

Layout:

- `src/lib.rs` — `BVec`: insertion and removal, lookups, cursors and iterators
  over it.
- `src/fenwick.rs` — the Fenwick tree of child lengths and the facts about
  its prefix sums.
- `src/node.rs`, `src/node/insert.rs`, `src/node/remove.rs` — leaves and
  internal nodes: splitting full nodes, refilling or merging underfull ones.
- `src/node/counted.rs` — a node that counts the values below it.
- `src/cursor.rs`, `src/iter.rs` — cursors, `Iter` and `Drain`.
- `src/laws.rs` — properties that relate several operations.
- `tests/` — tests against the compiled library.
- `app/` — panicking entry points and a fuzz target that compares `BVec`
  with `Vec`.
