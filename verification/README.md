# piece_table

A piece table for a text editor, with its behaviour stated in contracts and proved.
The document is kept as an
original buffer (the text it was opened with), an append-only add buffer (every
inserted text), and a red-black tree of pieces, each a byte range of one of the two
buffers. The tree's nodes live in an arena of slots and link to each other by slot.

## Layout

- `src/` — the verified library.
  - `buffer.rs`, `piece.rs`, `arena.rs`, `lines.rs`, `utf8_text.rs`: buffers, pieces,
    the node arena, line feed bookkeeping and UTF-8 helpers.
  - `tree.rs`: the `PieceTree` type, its model (`doc`, `wf`) and `new`, `len`,
    `line_count`.
  - `edit.rs` (insert), `erase.rs` (delete), `read.rs` (get_text, get_slice),
    `position.rs` (offsets, lines and positions).
  - `shape.rs`, `shape_facts.rs`, `doc.rs`, `navigate.rs`, `metadata.rs`, `attach.rs`,
    `detach.rs`, `rebalance.rs`, `balance.rs`, `coloring.rs`, `deficit.rs`, `aligned.rs`,
    `relabel.rs`, `opening.rs`: the ghost
    tree shape and the proofs that the tree operations keep the document, the totals,
    the links and the coloring.
  - `laws.rs`: properties that relate operations (deleting what was inserted, lengths
    after a deletion, which line an offset lies on).
  - `file.rs`: the directory entry type.
- `tests/` — tests of the library on concrete values.
- `app/` — the Tauri side of the editor: application state, commands and file I/O.

## The model

`PieceTree::doc()` is the document: the texts of the occupied slots, in slot order. The
tree is a binary search tree keyed by slot, so its in-order walk reads the same text. To
keep slot order and document order the same, a new piece gets a slot opened right where
it belongs: the slots from there on, and every link naming them, move up by one
(`NodeArena::insert_slot`). So `insert` puts its text exactly at the offset, and `delete`
removes exactly the deleted bytes.

Removing a black leaf leaves its side of the parent one black node short: `deficit.rs`
states that state (`PieceTree::short_at`) and proves that each step of `fix_delete`
either keeps it, moving it up or round a rotation, or ends it, so that `delete` keeps
the tree red-black.
