# code_forge

The text engine behind a code editor widget: a rope-backed buffer with a
selection, line access, bidirectional-text segmentation, bracket folding and
matching, indentation guides and word extraction.  The library under `src/`
is written in Verus; every function there carries a contract that Verus
proves.

## Layout

- `src/text_rope.rs` — the rope (from the `ropey` crate) and the operations
  the library performs on it.  These are the trusted boundary: each one calls
  `ropey` and states, over `rope_text` (the characters a rope holds), what
  the crate documents.
- `src/lines.rs` — the line structure of a text (LF, VT, FF, CR, NEL, LS, PS
  and CR LF as line breaks) and lemmas about it.
- `src/rope.rs` — `RopeBridge`: the buffer with its selection, edits,
  slices, lines, directions and bidi runs.
- `src/bidi.rs`, `src/direction.rs` — writing-direction classification and
  direction runs.
- `src/editor.rs` — bracket folds and bracket matching; `src/guides.rs` —
  indentation guides; `src/words.rs` — the words of a text; `src/markup.rs`
  — markup tag recognition; `src/chars.rs` — string and character helpers.
- `src/laws.rs`, `src/bracket_laws.rs` — properties that relate operations,
  proved as proof functions.
- `src/words.rs` collects the distinct words into a `Vec<String>` with an
  index from a hash of each word (`u64`) to the positions of the words that
  carry it, rather than a `HashSet<String>`: vstd specifies `HashSet` only
  for key types that it knows to obey its key model (the integers and a
  few others), and `String` is not among them, so nothing could be proved
  of a set of strings.  The invariant of the index is that every word is
  listed exactly once; the order of the words is left unspecified.
- `app/` — the Flutter-facing layer: start-up, the line layout map (whose
  heights are floats), and lock-protected handles that call the library.
- `tests/` — runtime tests of the library.
