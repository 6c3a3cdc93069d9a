# normal_diff

Line diffs of byte buffers in the "normal" format that `diff` prints and
`patch --normal` reads, verified with Verus.

- `src/lines.rs`: splitting a buffer into lines; a buffer is the concatenation
  of its newline-terminated lines.
- `src/edits.rs`: line edit scripts, and the call into the `diff` crate that
  computes one (the crate's only trusted item).
- `src/hunks.rs`: `Mismatch` (a hunk) and the grouping of an edit script
  into hunks.
- `src/patch.rs`: what applying hunks to a file means, and the proof that the
  hunks of any edit script turn the expected lines into the actual ones.
- `src/normal.rs`: `make_diff` and `diff`, and the rendering of hunks as text.
- `src/read.rs`: how `patch` reads normal-format text, and the proof that it
  reads the rendered hunks back, so that patching `expected` with
  `diff(expected, actual)` gives `actual`.
