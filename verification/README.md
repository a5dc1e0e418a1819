# conceal_map

A layer of an editor's display that shows other text in the stead of ranges of a
buffer: `!=` as `≠`, a link as its title. What is concealed can be revealed again,
range by range, for instance where the cursor stands. The library is written in
Verus: its functions have contracts, and Verus proves that these are kept.

The layer below hands over a text (fold space) and edits of it. `ConcealMap` follows
these and gives out a `ConcealSnapshot` of the displayed text (conceal space) with the
edits of that text. A snapshot leads from points and offsets of one space to those of
the other, and reads the displayed text by chunk, by row and by character.

## Layout

- `src/text.rs`, `coords.rs`, `bits.rs`: bytes of UTF-8, positions in them, and what
  is measured of them.
- `src/fold.rs`, `edits.rs`: the text below, its styling, and edits.
- `src/transform.rs`, `cursor.rs`: the pieces of which the displayed text is made, and
  a cursor over them.
- `src/display.rs`: what pieces display and what they hide.
- `src/resolve.rs`, `indices.rs`, `layout.rs`: which ranges are hidden, and how they
  are laid out in pieces.
- `src/sync.rs`, `map.rs`, `snapshot.rs`: how pieces follow edits and changes of what
  is revealed, and the layer itself.
- `src/points.rs`, `point_cursor.rs`, `rows.rs`, `chunks.rs`, `reading.rs`: what a
  snapshot answers.
- `src/laws.rs`, `apart.rs`, `reveals.rs`, `within.rs`, `limits.rs`, `point_laws.rs`,
  `clipping.rs`: what holds of several operations together. The proofs behind them stand
  in `grow.rs`, `follow.rs`, `patches.rs` and `tidiness.rs`.
- `src/animation.rs`: in how many steps a component is turned.
- `tests/`: the library on concrete values.
- `app/`: the layer below as an editor hands it over, the walks as iterators, and the
  animations of components.

Text is a sequence of bytes, and the contracts speak of it as such: `displayed` is the
text that pieces display, `concealed` a text with ranges of it replaced.
