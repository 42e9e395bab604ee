# moonlight

The edit tree of a non-destructive image editor, verified with Verus.

Every edit is a node. A node knows its parent, its children, its branch and
the operation it performs, and may cache the image of the project up to that
point. The library keeps these trees well formed through every operation and
proves what each operation does to the tree.

## Layout

- `src/workspace/` — the edit tree (`Tree`) and its nodes, its mathematical
  shape (`shape.rs`: links, ancestors, descendants, and what adding,
  inserting and removing a node do to them), the layout of a tree as a grid
  of nodules (`map.rs`, with its laws: every node lies in a branch map;
  each branch stands in a column of its own, one row apart, the branch of
  the root in column 0; no two nodules share a position; and where each
  branch runs as one line, every node is shown once), and the laws that
  span operations (`laws.rs`).
- `src/processor/` — a second, pool-based store of edits (`Pool`), with its
  own operations and proofs.
- `src/state/` — the toolkit-independent state of the app and its signals.
- `src/id.rs` — fresh ids (UUID v7), the one call into an outside crate.
- `app/` — the iced program: windows, image loading and color-space
  conversion, drawing, and the serializable records of the edit steps.
- `tests/` — tests of the library on concrete values.

Images are generic in the library: the app supplies its working image type,
which turns a loaded source image into the image that edits work on
(`Develop`) and crops it (`Edit`).
