# saver_glyphs

The logic of the "glyphs" digital-rain screensaver, verified with Verus.

- `src/color.rs`: colour of each glyph of a drop (bright head, quadratic
  trail fall-off, dimmer far layer), computed in single precision, with the
  brightness laws of the trail.
- `src/single.rs`: IEEE 754 single-precision arithmetic (round to nearest,
  ties to even) carried out exactly in integers, with its rounding laws.
- `src/frame.rs`: drawing a frame into a row-major cell grid: blanking,
  painting drops in order, stamping the logo, and the intro fade (a
  single-precision factor given by its bit pattern).
- `src/field.rs`: free columns for new drops, the grow/trim decision, glyph
  rotation, the bottom-of-screen test and new drop lengths.
- `src/pool.rs`: the live system characters and the seeding of the
  glyph pool.
- `src/arith.rs`: floor-division facts.

`app/` holds the plugin around the library: the effect's state, its
floating-point motion and frame pacing, the host's system information and
random numbers, and the C entry points.
