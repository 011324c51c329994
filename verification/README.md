# slice_ansi

Slice a string by terminal display column, handling wide (CJK) characters (two
columns) and ANSI escape sequences (zero columns). Styling active at the cut is
re-applied to the slice and reset at its end; an OSC 8 hyperlink open at the cut
is re-opened and closed.

The library is written in Verus and verified:

- `src/scan.rs` — the scanner that recognises escape sequences (CSI, OSC/DCS/SOS/PM/APC
  string sequences, nF and two-byte escapes, 8-bit C1 forms), visible chars and
  control chars.
- `src/token.rs` — tokens: escape sequences kept verbatim, glyphs (a base char and
  the zero-width chars after it) with their width; the display width of a text.
- `src/sgr.rs` — the SGR stack and the open hyperlink, updated escape by escape. A
  reset in parameter position clears the stack; the values of an extended colour
  (`38`/`48`/`58` with `5;n` or `2;r;g;b`) are not read as resets.
- `src/slice.rs` — `width`, `slice`, `slice_from` (each for a text whose width fits
  in a `usize`), their `checked_` forms that answer `None` where it does not, and
  `width_with` / `slice_with`,
  which take the column width of each char as an argument.
- `src/unicode.rs` — the column width of a char, from the `unicode-width` crate.
- `src/text.rs` — conversions between strings and char sequences.
- `src/rescan.rs`, `src/pieces.rs`, `src/readback.rs`, `src/balance.rs`,
  `src/plain.rs` — what the scanner makes of text assembled from tokens, and of
  plain text, used by the laws.
- `src/laws.rs` — properties of the library as a whole: the width of a text is the
  total width of its glyphs; a slice keeps exactly the glyphs inside the span;
  `end` is clamped to the width; a slice is never wider than the span; for every
  text, the pieces a slice is built from spell it and, run one after the other,
  leave no styling and no hyperlink open; read again, a slice leaves no styling
  and no hyperlink open (for every text whose tokens, spelled without the dropped
  control chars, read back the same); width adds up over a
  left part with no escape introducer; adjacent slices of plain narrow text join
  up; plain text sliced from column 0 to its width comes back whole.

`tests/` holds the test suite.
