//! Digital-rain ("glyphs") screensaver logic: glyph colours, frame
//! rendering into a cell grid, column bookkeeping for the falling drops
//! and the glyph pool.

pub mod arith;
pub mod single;
pub mod color;
pub mod frame;
pub mod field;
pub mod pool;

pub use color::calculate_glyph_color;
