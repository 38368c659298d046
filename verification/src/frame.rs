//! Drawing one frame of the rain into a row-major grid of cells: every drop
//! paints its glyphs from the head upwards, later drops over earlier ones,
//! and the host logo is stamped over the rain.

use vstd::prelude::*;
use crate::arith::{lemma_floor_div, lemma_le_floor_div};
use crate::color::{glyph_color, calculate_glyph_color, clamp_s, one_exec};
use crate::single::{Single, magnitude, one, units, canonical, mul_s, from_int, literal, to_u8, from_u64, less, product, literal_exec, to_u8_exec};
use vstd::arithmetic::power2::{pow2, lemma_pow2_pos};
use crate::single::{lemma_one_parts, lemma_round_zero, lemma_from_small_int, lemma_mul_one, lemma_to_u8_whole, lemma_mul_mono, lemma_literal_le, lemma_to_u8_mono};

verus! {

/// Bit pattern of a fully faded-in frame: the single-precision 1.0.
pub const FADE_ONE: u32 = 0x3f80_0000;

/// One character cell of the terminal grid.
#[derive(Clone, Copy, Debug, PartialEq, Eq)]
pub struct Cell {
    pub ch: char,
    pub fg: (u8, u8, u8),
    pub bg: (u8, u8, u8),
    pub bold: bool,
}

pub open spec fn blank_cell() -> Cell {
    Cell { ch: '\0', fg: (0, 0, 0), bg: (0, 0, 0), bold: false }
}

impl Cell {
    /// An empty cell: no character, black on black, not bold.
    pub fn blank() -> (c: Cell)
        ensures
            c == blank_cell(),
    {
        Cell { ch: '\0', fg: (0, 0, 0), bg: (0, 0, 0), bold: false }
    }
}

/// What the renderer reads of one falling drop in a frame: its column and
/// head row (the drop's position truncated to whole cells), its length, the
/// rotation of its glyphs through the pool, and its depth layer.
#[derive(Clone, Copy, Debug, PartialEq, Eq, Structural)]
pub struct DropSnapshot {
    pub col: i32,
    pub head: i32,
    pub length: usize,
    pub char_rot: usize,
    pub layer: u8,
}

/// Grid size, theme accent and intro fade of the frame being drawn.
#[derive(Clone, Copy, Debug, PartialEq, Eq)]
pub struct Frame {
    pub cols: usize,
    pub rows: usize,
    pub accent: (u8, u8, u8),
    /// Intro fade, as the bit pattern of a single-precision number; it is
    /// clamped to `[0, 1]` when used.
    pub fade: u32,
}

/// The intro fade held in `bits`, clamped to `[0, 1]`, in units of 2^-149;
/// `None` for a NaN.
pub open spec fn fade_level(bits: u32) -> Option<int> {
    let e = (bits / 0x80_0000) % 256;
    let f = bits % 0x80_0000;
    let neg = bits >= 0x8000_0000;
    if e == 255 {
        if f != 0 {
            None
        } else if neg {
            Some(0)
        } else {
            Some(one())
        }
    } else if neg {
        Some(0)
    } else {
        let mag = if e == 0 {
            f as int
        } else {
            (f + 0x80_0000) * pow2((e - 1) as nat)
        };
        Some(clamp_s(mag, 0, one()))
    }
}

/// A colour channel scaled by the intro fade.
pub open spec fn faded(c: int, fade: u32) -> int {
    match fade_level(fade) {
        None => 0,
        Some(v) => to_u8(mul_s(from_int(c), v)),
    }
}

/// A colour channel scaled to 0.35 and by the intro fade (the logo's dim tint).
pub open spec fn dimmed(c: int, fade: u32) -> int {
    match fade_level(fade) {
        None => 0,
        Some(v) => to_u8(mul_s(mul_s(from_int(c), literal(35, 100)), v)),
    }
}

/// The intro fade held in `bits`, clamped to `[0, 1]`.
pub fn fade_value(bits: u32) -> (r: Option<Single>)
    ensures
        r is None <==> fade_level(bits) is None,
        r matches Some(x) ==> canonical(x) && x.j <= 253 && fade_level(bits) == Some(units(x)),
{
    let e: u32 = (bits / 0x80_0000) % 256;
    let f: u32 = bits % 0x80_0000;
    let neg = bits >= 0x8000_0000;
    let one = one_exec();
    let zero = Single { neg: false, m: 0, j: 0 };
    assert(units(zero) == 0) by {
        assert(magnitude(zero) == 0 * pow2(0));
    }
    if e == 255 {
        if f != 0 {
            None
        } else if neg {
            Some(zero)
        } else {
            Some(one)
        }
    } else if neg {
        Some(zero)
    } else {
        let x = if e == 0 {
            Single { neg: false, m: f as u64, j: 0 }
        } else {
            Single { neg: false, m: (f + 0x80_0000) as u64, j: e - 1 }
        };
        proof {
            vstd::arithmetic::power2::lemma2_to64();
            if e > 0 {
                assert(units(x) == (f + 0x80_0000) * pow2((e - 1) as nat));
            } else {
                assert(units(x) == f * pow2(0));
            }
            vstd::arithmetic::power2::lemma_pow2_pos(x.j as nat);
            assert(units(x) >= 0) by (nonlinear_arith)
                requires
                    units(x) == x.m * pow2(x.j as nat),
                    x.m >= 0,
                    pow2(x.j as nat) > 0,
            ;
        }
        if less(one, x) {
            Some(one)
        } else {
            Some(x)
        }
    }
}

/// Whether glyph `k` of the drop is taken from the live system characters:
/// always at the head, and on every third rotation step of the first three
/// glyphs of a near drop.
pub open spec fn uses_live_pool(live_len: nat, d: DropSnapshot, k: int) -> bool {
    live_len > 0 && (k == 0 || (d.layer == 1 && k < 3 && (d.char_rot + k) % 3 == 0))
}

/// Character `i` of a pool, counting round the pool.
pub open spec fn pick(pool: Seq<char>, i: int) -> char {
    pool[i % (if pool.len() == 0 {
        1
    } else {
        pool.len() as int
    })]
}

pub open spec fn glyph_char(d: DropSnapshot, k: int, pool: Seq<char>, live: Seq<char>) -> char {
    if uses_live_pool(live.len(), d, k) {
        pick(live, d.char_rot + k)
    } else {
        pick(pool, d.char_rot + k)
    }
}

/// The cell painted for glyph `k` of a drop.
pub open spec fn glyph_cell(f: Frame, d: DropSnapshot, k: int, pool: Seq<char>, live: Seq<char>) -> Cell {
    let c = if k == 0 && d.layer == 1 {
        f.accent
    } else {
        glyph_color(f.accent, k as usize, d.length, d.layer)
    };
    Cell {
        ch: glyph_char(d, k, pool, live),
        fg: (faded(c.0 as int, f.fade) as u8, faded(c.1 as int, f.fade) as u8, faded(c.2 as int, f.fade) as u8),
        bg: (0, 0, 0),
        bold: k == 0 && d.layer == 1,
    }
}

/// A colour channel scaled by the intro fade.
pub fn fade_channel(c: u8, fade: u32) -> (r: u8)
    ensures
        r == faded(c as int, fade),
{
    match fade_value(fade) {
        None => 0,
        Some(v) => to_u8_exec(product(from_u64(c as u64), v)),
    }
}

/// A colour channel scaled to 0.35 and by the intro fade.
pub fn dim_channel(c: u8, fade: u32) -> (r: u8)
    ensures
        r == dimmed(c as int, fade),
{
    match fade_value(fade) {
        None => 0,
        Some(v) => to_u8_exec(product(product(from_u64(c as u64), literal_exec(35, 100)), v)),
    }
}

fn pick_exec(pool: &[char], i: u128) -> (ch: char)
    requires
        pool.len() > 0,
    ensures
        ch == pick(pool@, i as int),
{
    let j: u128 = i % (pool.len() as u128);
    pool[j as usize]
}

/// The cell painted for glyph `k` of drop `d`.
pub fn glyph_cell_exec(f: &Frame, d: &DropSnapshot, k: usize, pool: &[char], live: &[char]) -> (c: Cell)
    requires
        pool.len() > 0 || uses_live_pool(live@.len(), *d, k as int),
    ensures
        c == glyph_cell(*f, *d, k as int, pool@, live@),
{
    let pos: u128 = d.char_rot as u128 + k as u128;
    let use_live = live.len() > 0 && (k == 0 || (d.layer == 1 && k < 3 && pos % 3 == 0));
    let ch = if use_live {
        pick_exec(live, pos)
    } else {
        pick_exec(pool, pos)
    };
    let head_near = k == 0 && d.layer == 1;
    let (r, g, b) = if head_near {
        f.accent
    } else {
        calculate_glyph_color(f.accent, k, d.length, d.layer)
    };
    Cell {
        ch,
        fg: (fade_channel(r, f.fade), fade_channel(g, f.fade), fade_channel(b, f.fade)),
        bg: (0, 0, 0),
        bold: head_near,
    }
}

/// Paints glyphs `k..length` of a drop whose column is on the grid: rows off
/// the grid are skipped, and the first glyph whose cell lies past the end of
/// the grid stops the drop.
pub open spec fn paint_from(grid: Seq<Cell>, f: Frame, d: DropSnapshot, k: int, pool: Seq<char>, live: Seq<char>) -> Seq<Cell>
    decreases d.length - k,
{
    if k < 0 || k >= d.length {
        grid
    } else {
        let row = d.head - k;
        if row < 0 || row >= f.rows {
            paint_from(grid, f, d, k + 1, pool, live)
        } else {
            let idx = row * f.cols + d.col;
            if idx >= grid.len() {
                grid
            } else {
                paint_from(grid.update(idx, glyph_cell(f, d, k, pool, live)), f, d, k + 1, pool, live)
            }
        }
    }
}

/// Paints one drop; a drop whose column is off the grid paints nothing.
pub open spec fn paint_drop(grid: Seq<Cell>, f: Frame, d: DropSnapshot, pool: Seq<char>, live: Seq<char>) -> Seq<Cell> {
    if d.col < 0 || d.col >= f.cols {
        grid
    } else {
        paint_from(grid, f, d, 0, pool, live)
    }
}

/// Paints the first `n` drops in order, each over the ones before it.
pub open spec fn paint_drops(grid: Seq<Cell>, f: Frame, drops: Seq<DropSnapshot>, n: int, pool: Seq<char>, live: Seq<char>) -> Seq<Cell>
    decreases n,
{
    if n <= 0 {
        grid
    } else {
        paint_drop(paint_drops(grid, f, drops, n - 1, pool, live), f, drops[n - 1], pool, live)
    }
}

pub proof fn lemma_paint_from_len(grid: Seq<Cell>, f: Frame, d: DropSnapshot, k: int, pool: Seq<char>, live: Seq<char>)
    requires
        0 <= d.col,
    ensures
        paint_from(grid, f, d, k, pool, live).len() == grid.len(),
    decreases d.length - k,
{
    if k < 0 || k >= d.length {
    } else {
        let row = d.head - k;
        if row < 0 || row >= f.rows {
            lemma_paint_from_len(grid, f, d, k + 1, pool, live);
        } else {
            let idx = row * f.cols + d.col;
            assert(row * f.cols >= 0) by (nonlinear_arith)
                requires
                    row >= 0,
                    f.cols >= 0,
            ;
            if idx < grid.len() {
                lemma_paint_from_len(grid.update(idx, glyph_cell(f, d, k, pool, live)), f, d, k + 1, pool, live);
            }
        }
    }
}

pub proof fn lemma_paint_drops_len(grid: Seq<Cell>, f: Frame, drops: Seq<DropSnapshot>, n: int, pool: Seq<char>, live: Seq<char>)
    ensures
        paint_drops(grid, f, drops, n, pool, live).len() == grid.len(),
    decreases n,
{
    if n > 0 {
        lemma_paint_drops_len(grid, f, drops, n - 1, pool, live);
        let g = paint_drops(grid, f, drops, n - 1, pool, live);
        let d = drops[n - 1];
        if !(d.col < 0 || d.col >= f.cols) {
            lemma_paint_from_len(g, f, d, 0, pool, live);
        }
    }
}

/// Whether painting glyphs `k..length` of a drop on a grid of `len` cells
/// takes a character from the glyph pool (rather than from the live
/// system characters).
pub open spec fn pool_needed_from(len: int, f: Frame, d: DropSnapshot, k: int, live_len: nat) -> bool
    decreases d.length - k,
{
    if k < 0 || k >= d.length {
        false
    } else {
        let row = d.head - k;
        if row < 0 || row >= f.rows {
            pool_needed_from(len, f, d, k + 1, live_len)
        } else if row * f.cols + d.col >= len {
            false
        } else {
            !uses_live_pool(live_len, d, k) || pool_needed_from(len, f, d, k + 1, live_len)
        }
    }
}

pub open spec fn drop_needs_pool(len: int, f: Frame, d: DropSnapshot, live_len: nat) -> bool {
    !(d.col < 0 || d.col >= f.cols) && pool_needed_from(len, f, d, 0, live_len)
}

/// Whether drawing the drops of a frame takes any character from the pool.
pub open spec fn frame_needs_pool(len: int, f: Frame, drops: Seq<DropSnapshot>, live_len: nat) -> bool {
    exists|i: int| 0 <= i < drops.len() && drop_needs_pool(len, f, #[trigger] drops[i], live_len)
}

/// Paints drop `d` into the grid.
pub fn paint_drop_exec(grid: &mut Vec<Cell>, f: &Frame, d: &DropSnapshot, pool: &[char], live: &[char])
    requires
        pool.len() > 0 || !drop_needs_pool(old(grid)@.len() as int, *f, *d, live@.len()),
    ensures
        final(grid)@ == paint_drop(old(grid)@, *f, *d, pool@, live@),
{
    if d.col < 0 || (d.col as usize) >= f.cols {
        return;
    }
    let ghost g0 = grid@;
    let mut k: usize = 0;
    while k < d.length
        invariant
            pool.len() > 0 || !pool_needed_from(g0.len() as int, *f, *d, k as int, live@.len()),
            grid@.len() == g0.len(),
            0 <= d.col < f.cols,
            k <= d.length,
            paint_from(g0, *f, *d, 0, pool@, live@) == paint_from(grid@, *f, *d, k as int, pool@, live@),
        decreases d.length - k,
    {
        let row: i128 = d.head as i128 - k as i128;
        if row < 0 || row >= f.rows as i128 {
            k = k + 1;
        } else {
            assert(row * f.cols < 0x8000_0000 * 0x1_0000_0000_0000_0000) by (nonlinear_arith)
                requires
                    0 <= row < 0x8000_0000,
                    0 <= f.cols < 0x1_0000_0000_0000_0000,
            ;
            let idx: u128 = (row as u128) * (f.cols as u128) + (d.col as u128);
            if idx >= grid.len() as u128 {
                k = d.length;
            } else {
                let cell = glyph_cell_exec(f, d, k, pool, live);
                grid.set(idx as usize, cell);
                k = k + 1;
            }
        }
    }
}

/// Paints all drops in order, each over the ones before it.
pub fn paint_drops_exec(grid: &mut Vec<Cell>, f: &Frame, drops: &[DropSnapshot], pool: &[char], live: &[char])
    requires
        pool.len() > 0 || !frame_needs_pool(old(grid)@.len() as int, *f, drops@, live@.len()),
    ensures
        final(grid)@ == paint_drops(old(grid)@, *f, drops@, drops@.len() as int, pool@, live@),
{
    let ghost g0 = grid@;
    let mut i: usize = 0;
    while i < drops.len()
        invariant
            pool.len() > 0 || !frame_needs_pool(g0.len() as int, *f, drops@, live@.len()),
            i <= drops.len(),
            grid@ == paint_drops(g0, *f, drops@, i as int, pool@, live@),
            grid@.len() == g0.len(),
        decreases drops.len() - i,
    {
        proof {
            lemma_paint_drops_len(g0, *f, drops@, (i + 1) as int, pool@, live@);
            if pool.len() == 0 {
                assert(!drop_needs_pool(g0.len() as int, *f, drops@[i as int], live@.len()));
            }
        }
        paint_drop_exec(grid, f, &drops[i], pool, live);
        i = i + 1;
    }
}

/// Where the logo goes: its top-left cell and its lines of characters.
#[derive(Clone, Debug, PartialEq, Eq)]
pub struct LogoPlacement {
    pub x: usize,
    pub y: usize,
    pub lines: Vec<Vec<char>>,
}

pub open spec fn logo_lines(logo: LogoPlacement) -> Seq<Seq<char>> {
    logo.lines@.map_values(|l: Vec<char>| l@)
}

/// The logo character stamped on grid cell `i`, counting only the characters
/// before position (`upto_line`, `upto_col`) in reading order: spaces and
/// characters off the grid are never stamped.
pub open spec fn logo_char_upto(i: int, cols: int, rows: int, x: int, y: int, lines: Seq<Seq<char>>, upto_line: int, upto_col: int) -> Option<char> {
    if cols <= 0 {
        None
    } else {
        let gy = i / cols;
        let gx = i % cols;
        let r = gy - y;
        let c = gx - x;
        if 0 <= r < lines.len() && 0 <= c < lines[r].len() && gy < rows && lines[r][c] != ' '
            && (r < upto_line || (r == upto_line && c < upto_col)) {
            Some(lines[r][c])
        } else {
            None
        }
    }
}

/// The logo character stamped on grid cell `i`, if any.
pub open spec fn logo_char(i: int, cols: int, rows: int, x: int, y: int, lines: Seq<Seq<char>>) -> Option<char> {
    logo_char_upto(i, cols, rows, x, y, lines, lines.len() as int, 0)
}

pub open spec fn logo_cell(ch: char, f: Frame) -> Cell {
    Cell {
        ch,
        fg: (dimmed(f.accent.0 as int, f.fade) as u8, dimmed(f.accent.1 as int, f.fade) as u8, dimmed(f.accent.2 as int, f.fade) as u8),
        bg: (0, 0, 0),
        bold: true,
    }
}

/// Every logo character that lands on the grid's rows and columns has a cell
/// in the grid buffer.
pub open spec fn logo_fits(grid_len: int, f: Frame, x: int, y: int, lines: Seq<Seq<char>>) -> bool {
    forall|r: int, c: int|
        #![trigger lines[r][c]]
        0 <= r < lines.len() && 0 <= c < lines[r].len() && y + r < f.rows && x + c < f.cols
            && lines[r][c] != ' ' ==> (y + r) * f.cols + (x + c) < grid_len
}

/// The grid with the logo stamped over it.
pub open spec fn stamp_logo(grid: Seq<Cell>, f: Frame, x: int, y: int, lines: Seq<Seq<char>>) -> Seq<Cell> {
    Seq::new(
        grid.len(),
        |i: int|
            match logo_char(i, f.cols as int, f.rows as int, x, y, lines) {
                Some(ch) => logo_cell(ch, f),
                None => grid[i],
            },
    )
}

/// A row-major position splits back into its row and column.
pub proof fn lemma_row_major(row: int, col: int, cols: int)
    requires
        0 <= row,
        0 <= col < cols,
    ensures
        (row * cols + col) / cols == row,
        (row * cols + col) % cols == col,
{
    let i = row * cols + col;
    assert(row * cols <= i < (row + 1) * cols) by (nonlinear_arith)
        requires
            i == row * cols + col,
            0 <= col < cols,
    ;
    assert(i >= 0) by (nonlinear_arith)
        requires
            i == row * cols + col,
            0 <= row,
            0 <= col,
            0 < cols,
    ;
    lemma_floor_div(i, cols, row);
    vstd::arithmetic::div_mod::lemma_fundamental_div_mod(i, cols);
    assert(cols * row == row * cols) by (nonlinear_arith);
}

/// A grid position is determined by its row and column.
pub proof fn lemma_row_major_unique(i: int, row: int, col: int, cols: int)
    requires
        0 < cols,
        i / cols == row,
        i % cols == col,
    ensures
        i == row * cols + col,
{
    vstd::arithmetic::div_mod::lemma_fundamental_div_mod(i, cols);
    assert(cols * row == row * cols) by (nonlinear_arith);
}

pub open spec fn stamped_upto(grid0: Seq<Cell>, f: Frame, x: int, y: int, lines: Seq<Seq<char>>, ul: int, uc: int, i: int) -> Cell {
    match logo_char_upto(i, f.cols as int, f.rows as int, x, y, lines, ul, uc) {
        Some(ch) => logo_cell(ch, f),
        None => grid0[i],
    }
}

/// Stamps the logo over the grid.
pub fn stamp_logo_exec(grid: &mut Vec<Cell>, f: &Frame, logo: &LogoPlacement)
    requires
        logo_fits(old(grid).len() as int, *f, logo.x as int, logo.y as int, logo_lines(*logo)),
    ensures
        final(grid)@ == stamp_logo(old(grid)@, *f, logo.x as int, logo.y as int, logo_lines(*logo)),
{
    let dim = (dim_channel(f.accent.0, f.fade), dim_channel(f.accent.1, f.fade), dim_channel(f.accent.2, f.fade));
    let ghost g0 = grid@;
    let glen = grid.len();
    let ghost lines = logo_lines(*logo);
    let ghost x = logo.x as int;
    let ghost y = logo.y as int;
    let ghost cols = f.cols as int;
    let mut r: usize = 0;
    while r < logo.lines.len()
        invariant
            r <= logo.lines.len(),
            lines == logo_lines(*logo),
            x == logo.x,
            y == logo.y,
            cols == f.cols,
            dim == logo_cell(' ', *f).fg,
            logo_fits(g0.len() as int, *f, x, y, lines),
            grid@.len() == g0.len(),
            glen == g0.len(),
            forall|i: int| 0 <= i < g0.len() ==> #[trigger] grid@[i] == stamped_upto(g0, *f, x, y, lines, r as int, 0, i),
        decreases logo.lines.len() - r,
    {
        let line = &logo.lines[r];
        assert(line@ == lines[r as int]);
        let gy: u128 = logo.y as u128 + r as u128;
        let mut c: usize = 0;
        while c < line.len()
            invariant
                r < logo.lines.len(),
                c <= line.len(),
                line@ == lines[r as int],
                lines == logo_lines(*logo),
                x == logo.x,
                y == logo.y,
                cols == f.cols,
                gy == y + r,
                dim == logo_cell(' ', *f).fg,
                logo_fits(g0.len() as int, *f, x, y, lines),
                grid@.len() == g0.len(),
                glen == g0.len(),
                forall|i: int| 0 <= i < g0.len() ==> #[trigger] grid@[i] == stamped_upto(g0, *f, x, y, lines, r as int, c as int, i),
            decreases line.len() - c,
        {
            let gx: u128 = logo.x as u128 + c as u128;
            let ch = line[c];
            let ghost gridc = grid@;
            if gy < f.rows as u128 && gx < f.cols as u128 && ch != ' ' {
                assert(lines[r as int][c as int] == ch);
                assert((y + r) * cols + (x + c) < g0.len());
                let cu: u128 = f.cols as u128;
                assert(gy * cu + gx == (y + r) * cols + (x + c)) by (nonlinear_arith)
                    requires
                        gy == y + r,
                        gx == x + c,
                        cu == cols,
                ;
                let idx: u128 = gy * cu + gx;
                let iu: usize = idx as usize;
                assert(iu == idx);
                assert(iu < gridc.len());
                let cell = Cell { ch, fg: dim, bg: (0, 0, 0), bold: true };
                grid.set(iu, cell);
                proof {
                    vstd::seq::axiom_seq_update_len(gridc, iu as int, cell);
                    lemma_row_major(gy as int, gx as int, cols);
                    assert forall|i: int| 0 <= i < g0.len() implies #[trigger] grid@[i] == stamped_upto(g0, *f, x, y, lines, r as int, c + 1, i) by {
                        if i != idx {
                            if i / cols == gy && i % cols == gx {
                                lemma_row_major_unique(i, gy as int, gx as int, cols);
                            }
                            vstd::seq::axiom_seq_update_different(gridc, i, iu as int, cell);
                            assert(grid@[i] == gridc[i]);
                        } else {
                            vstd::seq::axiom_seq_update_same(gridc, iu as int, cell);
                        }
                    }
                }
            } else {
                proof {
                    assert forall|i: int| 0 <= i < g0.len() implies #[trigger] grid@[i] == stamped_upto(g0, *f, x, y, lines, r as int, c + 1, i) by {
                        if cols > 0 {
                            vstd::arithmetic::div_mod::lemma_mod_pos_bound(i, cols);
                        }
                    }
                }
            }
            c = c + 1;
        }
        r = r + 1;
    }
    assert(grid@ =~= stamp_logo(g0, *f, x, y, lines)) by {
        assert forall|i: int| 0 <= i < g0.len() implies #[trigger] grid@[i] == stamp_logo(g0, *f, x, y, lines)[i] by {
            assert(grid@[i] == stamped_upto(g0, *f, x, y, lines, r as int, 0, i));
        }
    }
}

pub open spec fn blank_grid(len: nat) -> Seq<Cell> {
    Seq::new(len, |i: int| blank_cell())
}

/// A whole frame: a blank grid, the drops painted in order, and the logo, if
/// there is one, stamped over them.
pub open spec fn frame_cells(len: nat, f: Frame, drops: Seq<DropSnapshot>, pool: Seq<char>, live: Seq<char>, logo: Option<LogoPlacement>) -> Seq<Cell> {
    let painted = paint_drops(blank_grid(len), f, drops, drops.len() as int, pool, live);
    match logo {
        Some(l) => stamp_logo(painted, f, l.x as int, l.y as int, logo_lines(l)),
        None => painted,
    }
}

/// Draws a whole frame into the grid; the grid keeps its length, and what is
/// drawn depends on that length alone, never on the grid's old contents.
pub fn draw_frame(grid: &mut Vec<Cell>, f: &Frame, drops: &[DropSnapshot], pool: &[char], live: &[char], logo: &Option<LogoPlacement>)
    requires
        pool.len() > 0 || !frame_needs_pool(old(grid)@.len() as int, *f, drops@, live@.len()),
        *logo matches Some(l) ==> logo_fits(old(grid).len() as int, *f, l.x as int, l.y as int, logo_lines(l)),
    ensures
        final(grid)@ == frame_cells(old(grid)@.len(), *f, drops@, pool@, live@, *logo),
{
    let ghost len = grid@.len();
    let mut i: usize = 0;
    while i < grid.len()
        invariant
            grid@.len() == len,
            forall|j: int| 0 <= j < i ==> #[trigger] grid@[j] == blank_cell(),
        decreases grid.len() - i,
    {
        grid.set(i, Cell::blank());
        i = i + 1;
    }
    assert(grid@ =~= blank_grid(len));
    paint_drops_exec(grid, f, drops, pool, live);
    proof {
        lemma_paint_drops_len(blank_grid(len), *f, drops@, drops@.len() as int, pool@, live@);
    }
    match logo {
        Some(l) => stamp_logo_exec(grid, f, l),
        None => {},
    }
}

/// A drop paints only cells of its own column.
pub proof fn lemma_paint_from_in_column(grid: Seq<Cell>, f: Frame, d: DropSnapshot, k: int, pool: Seq<char>, live: Seq<char>, i: int)
    requires
        0 <= d.col < f.cols,
        0 <= i < grid.len(),
        i % (f.cols as int) != d.col,
    ensures
        paint_from(grid, f, d, k, pool, live)[i] == grid[i],
    decreases d.length - k,
{
    if k < 0 || k >= d.length {
    } else {
        let row = d.head - k;
        if row < 0 || row >= f.rows {
            lemma_paint_from_in_column(grid, f, d, k + 1, pool, live, i);
        } else {
            let idx = row * f.cols + d.col;
            if idx < grid.len() {
                lemma_row_major(row, d.col as int, f.cols as int);
                let g1 = grid.update(idx, glyph_cell(f, d, k, pool, live));
                lemma_paint_from_in_column(g1, f, d, k + 1, pool, live, i);
            }
        }
    }
}

/// Drawing a drop leaves every cell outside the drop's column as it was.
pub proof fn lemma_drop_stays_in_column(grid: Seq<Cell>, f: Frame, d: DropSnapshot, pool: Seq<char>, live: Seq<char>, i: int)
    requires
        f.cols > 0,
        0 <= i < grid.len(),
        i % (f.cols as int) != d.col,
    ensures
        paint_drop(grid, f, d, pool, live)[i] == grid[i],
{
    if !(d.col < 0 || d.col >= f.cols) {
        lemma_paint_from_in_column(grid, f, d, 0, pool, live, i);
    }
}

/// Painting any number of drops leaves every cell outside the drops' columns
/// as it was.
pub proof fn lemma_drops_stay_in_columns(grid: Seq<Cell>, f: Frame, drops: Seq<DropSnapshot>, n: int, pool: Seq<char>, live: Seq<char>, i: int)
    requires
        f.cols > 0,
        0 <= i < grid.len(),
        n <= drops.len(),
        forall|j: int| 0 <= j < n ==> i % (f.cols as int) != (#[trigger] drops[j]).col,
    ensures
        paint_drops(grid, f, drops, n, pool, live)[i] == grid[i],
    decreases n,
{
    if n > 0 {
        lemma_drops_stay_in_columns(grid, f, drops, n - 1, pool, live, i);
        lemma_paint_drops_len(grid, f, drops, n - 1, pool, live);
        let g = paint_drops(grid, f, drops, n - 1, pool, live);
        lemma_drop_stays_in_column(g, f, drops[n - 1], pool, live, i);
    }
}

/// A frame keeps the grid's length, and a cell in a column without drops and
/// without a logo character stays blank.
pub proof fn lemma_frame_blank_outside_drops(len: nat, f: Frame, drops: Seq<DropSnapshot>, pool: Seq<char>, live: Seq<char>, logo: Option<LogoPlacement>, i: int)
    requires
        f.cols > 0,
        0 <= i < len,
        forall|j: int| 0 <= j < drops.len() ==> i % (f.cols as int) != (#[trigger] drops[j]).col,
        logo matches Some(l) ==> logo_char(i, f.cols as int, f.rows as int, l.x as int, l.y as int, logo_lines(l)) is None,
    ensures
        frame_cells(len, f, drops, pool, live, logo).len() == len,
        frame_cells(len, f, drops, pool, live, logo)[i] == blank_cell(),
{
    lemma_paint_drops_len(blank_grid(len), f, drops, drops.len() as int, pool, live);
    lemma_drops_stay_in_columns(blank_grid(len), f, drops, drops.len() as int, pool, live, i);
}

/// At the start of the intro (fade 0) every glyph is drawn black; once fully
/// faded in, glyphs keep their full colour.
pub proof fn lemma_fade_ends(c: u8)
    ensures
        faded(c as int, 0) == 0,
        faded(c as int, FADE_ONE) == c,
{
    lemma_one_parts();
    lemma_pow2_pos(149);
    assert(fade_level(0) == Some(0int));
    assert(from_int(c as int) * 0 == 0);
    lemma_round_zero(one());
    assert(fade_level(FADE_ONE) == Some(one()));
    lemma_from_small_int(c as int);
    lemma_mul_one(c as int, 149);
    lemma_to_u8_whole(c as int);
}

fn drop_needs_pool_exec(len: usize, f: &Frame, d: &DropSnapshot, live_len: usize) -> (b: bool)
    ensures
        b == drop_needs_pool(len as int, *f, *d, live_len as nat),
{
    if d.col < 0 || (d.col as usize) >= f.cols {
        return false;
    }
    let mut k: usize = 0;
    while k < d.length
        invariant
            k <= d.length,
            0 <= d.col < f.cols,
            pool_needed_from(len as int, *f, *d, 0, live_len as nat) == pool_needed_from(len as int, *f, *d, k as int, live_len as nat),
        decreases d.length - k,
    {
        let row: i128 = d.head as i128 - k as i128;
        if row < 0 || row >= f.rows as i128 {
            k = k + 1;
        } else {
            assert(row * f.cols < 0x8000_0000 * 0x1_0000_0000_0000_0000) by (nonlinear_arith)
                requires
                    0 <= row < 0x8000_0000,
                    0 <= f.cols < 0x1_0000_0000_0000_0000,
            ;
            let idx: u128 = (row as u128) * (f.cols as u128) + (d.col as u128);
            if idx >= len as u128 {
                return false;
            }
            let pos: u128 = d.char_rot as u128 + k as u128;
            let use_live = live_len > 0 && (k == 0 || (d.layer == 1 && k < 3 && pos % 3 == 0));
            if !use_live {
                return true;
            }
            k = k + 1;
        }
    }
    false
}

/// Whether drawing these drops into a grid of `len` cells takes any
/// character from the glyph pool; drawing with an empty pool is only
/// possible when it does not.
pub fn frame_needs_pool_exec(len: usize, f: &Frame, drops: &[DropSnapshot], live_len: usize) -> (b: bool)
    ensures
        b == frame_needs_pool(len as int, *f, drops@, live_len as nat),
{
    let mut i: usize = 0;
    while i < drops.len()
        invariant
            i <= drops.len(),
            forall|j: int| 0 <= j < i ==> !drop_needs_pool(len as int, *f, #[trigger] drops@[j], live_len as nat),
        decreases drops.len() - i,
    {
        if drop_needs_pool_exec(len, f, &drops[i], live_len) {
            return true;
        }
        i = i + 1;
    }
    false
}

/// The logo is drawn over the rain: every cell that holds a logo character
/// shows that character in the logo's bold dim tint on black, whatever drops
/// were painted, so two frames that differ only in their drops agree on it.
pub proof fn lemma_logo_over_rain(
    len: nat,
    f: Frame,
    drops1: Seq<DropSnapshot>,
    drops2: Seq<DropSnapshot>,
    pool: Seq<char>,
    live: Seq<char>,
    l: LogoPlacement,
    i: int,
    ch: char,
)
    requires
        0 <= i < len,
        logo_char(i, f.cols as int, f.rows as int, l.x as int, l.y as int, logo_lines(l)) == Some(ch),
    ensures
        frame_cells(len, f, drops1, pool, live, Some(l))[i] == logo_cell(ch, f),
        frame_cells(len, f, drops1, pool, live, Some(l))[i].ch == ch,
        frame_cells(len, f, drops1, pool, live, Some(l))[i].bold,
        frame_cells(len, f, drops1, pool, live, Some(l))[i].bg == (0u8, 0u8, 0u8),
        frame_cells(len, f, drops1, pool, live, Some(l))[i] == frame_cells(len, f, drops2, pool, live, Some(l))[i],
{
    lemma_paint_drops_len(blank_grid(len), f, drops1, drops1.len() as int, pool, live);
    lemma_paint_drops_len(blank_grid(len), f, drops2, drops2.len() as int, pool, live);
}

/// A glyph drawn from the live system characters rotates through them with
/// the drop's rotation: glyph `k` shows live character `(char_rot + k) mod
/// live.len()`; one drawn from the pool shows pool character
/// `(char_rot + k) mod pool.len()`.
pub proof fn lemma_glyph_rotation(f: Frame, d: DropSnapshot, k: int, pool: Seq<char>, live: Seq<char>)
    requires
        0 <= k,
    ensures
        uses_live_pool(live.len(), d, k)
            ==> glyph_cell(f, d, k, pool, live).ch == live[(d.char_rot + k) % (live.len() as int)],
        !uses_live_pool(live.len(), d, k) && pool.len() > 0
            ==> glyph_cell(f, d, k, pool, live).ch == pool[(d.char_rot + k) % (pool.len() as int)],
        live.len() > 0 ==> uses_live_pool(live.len(), d, 0),
{
}

/// The fade level of a frame lies in `[0, 1]`.
proof fn lemma_fade_level_range(bits: u32)
    ensures
        fade_level(bits) matches Some(v) ==> 0 <= v <= one(),
{
    lemma_pow2_pos(149);
}

/// The logo fades in with the rain: at fade 0 (or a NaN fade) it is drawn
/// black, and a frame further into the fade never draws it dimmer.
pub proof fn lemma_logo_fades_in(ch: char, f1: Frame, f2: Frame)
    requires
        f1.accent == f2.accent,
    ensures
        (fade_level(f1.fade) is None || fade_level(f1.fade) == Some(0int)) ==> logo_cell(ch, f1).fg == (0u8, 0u8, 0u8),
        (fade_level(f1.fade) matches Some(v1) && fade_level(f2.fade) matches Some(v2) && v1 <= v2) ==> {
            &&& logo_cell(ch, f1).fg.0 <= logo_cell(ch, f2).fg.0
            &&& logo_cell(ch, f1).fg.1 <= logo_cell(ch, f2).fg.1
            &&& logo_cell(ch, f1).fg.2 <= logo_cell(ch, f2).fg.2
        },
        f1.fade == 0 ==> logo_cell(ch, f1).fg == (0u8, 0u8, 0u8),
{
    lemma_pow2_pos(149);
    lemma_round_zero(one());
    lemma_fade_level_range(f1.fade);
    lemma_fade_level_range(f2.fade);
    assert(fade_level(0) == Some(0int));
    lemma_literal_le(35, 35, 100);
    assert forall|a: u8, v: int| v == 0 implies #[trigger] to_u8(mul_s(mul_s(from_int(a as int), literal(35, 100)), v)) == 0 by {
        assert(mul_s(from_int(a as int), literal(35, 100)) * v == 0);
    }
    assert forall|a: u8, v1: int, v2: int| 0 <= v1 <= v2 implies
        #[trigger] to_u8(mul_s(mul_s(from_int(a as int), literal(35, 100)), v1))
            <= #[trigger] to_u8(mul_s(mul_s(from_int(a as int), literal(35, 100)), v2)) by {
        lemma_from_small_int(a as int);
        assert(a * one() >= 0) by (nonlinear_arith)
            requires
                a >= 0,
                one() > 0,
        ;
        lemma_mul_mono(from_int(a as int), from_int(a as int), literal(35, 100));
        let x = mul_s(from_int(a as int), literal(35, 100));
        lemma_mul_mono(v1, v2, x);
        lemma_to_u8_mono(mul_s(x, v1), mul_s(x, v2));
    }
}

/// Glyphs `k1..` of a drop are all drawn in rows above row `r`, so they leave
/// row `r` of the drop's column untouched.
proof fn lemma_paint_from_below(grid: Seq<Cell>, f: Frame, d: DropSnapshot, k1: int, pool: Seq<char>, live: Seq<char>, r: int)
    requires
        0 <= d.col < f.cols,
        0 <= k1,
        d.head - k1 < r,
        0 <= r * f.cols + d.col < grid.len(),
    ensures
        paint_from(grid, f, d, k1, pool, live)[r * f.cols + d.col] == grid[r * f.cols + d.col],
    decreases d.length - k1,
{
    if k1 < d.length {
        let row = d.head - k1;
        if row < 0 || row >= f.rows {
            lemma_paint_from_below(grid, f, d, k1 + 1, pool, live, r);
        } else {
            let idx = row * f.cols + d.col;
            if idx < grid.len() {
                assert(idx != r * f.cols + d.col) by (nonlinear_arith)
                    requires
                        idx == row * f.cols + d.col,
                        row < r,
                        f.cols > 0,
                ;
                let g1 = grid.update(idx, glyph_cell(f, d, k1, pool, live));
                lemma_paint_from_below(g1, f, d, k1 + 1, pool, live, r);
            }
        }
    }
}

/// Glyph `k` of a drop lands on its own row of the drop's column, as long as
/// every glyph from `k0` up to it that is on the grid's rows fits in the grid.
proof fn lemma_paint_from_places(grid: Seq<Cell>, f: Frame, d: DropSnapshot, k0: int, pool: Seq<char>, live: Seq<char>, k: int)
    requires
        0 <= d.col < f.cols,
        0 <= k0 <= k < d.length,
        0 <= d.head - k < f.rows,
        forall|j: int| k0 <= j <= k && 0 <= #[trigger] (d.head - j) < f.rows ==> (d.head - j) * f.cols + d.col < grid.len(),
    ensures
        paint_from(grid, f, d, k0, pool, live)[(d.head - k) * f.cols + d.col] == glyph_cell(f, d, k, pool, live),
    decreases k - k0,
{
    let row0 = d.head - k0;
    let i = (d.head - k) * f.cols + d.col;
    assert(0 <= i) by (nonlinear_arith)
        requires
            i == (d.head - k) * f.cols + d.col,
            0 <= d.head - k,
            0 <= d.col,
            f.cols > 0,
    ;
    if row0 < 0 || row0 >= f.rows {
        lemma_paint_from_places(grid, f, d, k0 + 1, pool, live, k);
    } else {
        let idx0 = row0 * f.cols + d.col;
        assert(d.head - k0 == row0);
        assert(idx0 < grid.len());
        let g1 = grid.update(idx0, glyph_cell(f, d, k0, pool, live));
        if k0 == k {
            lemma_paint_from_below(g1, f, d, k + 1, pool, live, d.head - k);
        } else {
            assert(idx0 != i) by (nonlinear_arith)
                requires
                    idx0 == row0 * f.cols + d.col,
                    i == (d.head - k) * f.cols + d.col,
                    row0 > d.head - k,
                    f.cols > 0,
            ;
            lemma_paint_from_places(g1, f, d, k0 + 1, pool, live, k);
        }
    }
}

/// Drops are drawn in order, later ones over earlier ones: glyph `k` of the
/// last drop shows in its row of the drop's column, wherever no logo
/// character is stamped, as long as the glyphs above it that are on the
/// grid's rows fit in the grid.
pub proof fn lemma_last_drop_on_top(len: nat, f: Frame, drops: Seq<DropSnapshot>, pool: Seq<char>, live: Seq<char>, logo: Option<LogoPlacement>, k: int)
    requires
        drops.len() > 0,
        0 <= drops.last().col < f.cols,
        0 <= k < drops.last().length,
        0 <= drops.last().head - k < f.rows,
        forall|j: int| 0 <= j <= k && 0 <= #[trigger] (drops.last().head - j) < f.rows
            ==> (drops.last().head - j) * f.cols + drops.last().col < len,
        logo matches Some(l) ==> logo_char(
            (drops.last().head - k) * f.cols + drops.last().col,
            f.cols as int,
            f.rows as int,
            l.x as int,
            l.y as int,
            logo_lines(l),
        ) is None,
    ensures
        frame_cells(len, f, drops, pool, live, logo)[(drops.last().head - k) * f.cols + drops.last().col]
            == glyph_cell(f, drops.last(), k, pool, live),
{
    let n = drops.len() as int;
    let g = paint_drops(blank_grid(len), f, drops, n - 1, pool, live);
    lemma_paint_drops_len(blank_grid(len), f, drops, n - 1, pool, live);
    lemma_paint_drops_len(blank_grid(len), f, drops, n, pool, live);
    assert(drops[n - 1] == drops.last());
    lemma_paint_from_places(g, f, drops.last(), 0, pool, live, k);
}

/// A logo character that is not a space and lands on the grid's rows and
/// columns is stamped on its own cell; a space is never stamped.
pub proof fn lemma_logo_char_at(cols: int, rows: int, x: int, y: int, lines: Seq<Seq<char>>, r: int, c: int)
    requires
        cols > 0,
        0 <= x,
        0 <= y,
        0 <= r < lines.len(),
        0 <= c < lines[r].len(),
        y + r < rows,
        x + c < cols,
    ensures
        lines[r][c] != ' ' ==> logo_char((y + r) * cols + (x + c), cols, rows, x, y, lines) == Some(lines[r][c]),
        lines[r][c] == ' ' ==> logo_char((y + r) * cols + (x + c), cols, rows, x, y, lines) is None,
{
    lemma_row_major(y + r, x + c, cols);
}

/// No cell is ever stamped with a space.
pub proof fn lemma_logo_never_space(i: int, cols: int, rows: int, x: int, y: int, lines: Seq<Seq<char>>)
    ensures
        logo_char(i, cols, rows, x, y, lines) != Some(' '),
{
}

/// At the start of the intro (fade 0) every glyph cell is drawn black on
/// black; fully faded in, the head of a near drop shows the accent colour,
/// in bold.
pub proof fn lemma_glyph_cell_fade(f: Frame, d: DropSnapshot, k: int, pool: Seq<char>, live: Seq<char>)
    ensures
        f.fade == 0 ==> glyph_cell(f, d, k, pool, live).fg == (0u8, 0u8, 0u8),
        glyph_cell(f, d, k, pool, live).bg == (0u8, 0u8, 0u8),
        f.fade == FADE_ONE && k == 0 && d.layer == 1 ==> glyph_cell(f, d, k, pool, live).fg == f.accent,
        k == 0 && d.layer == 1 ==> glyph_cell(f, d, k, pool, live).bold,
{
    lemma_fade_ends(f.accent.0);
    lemma_fade_ends(f.accent.1);
    lemma_fade_ends(f.accent.2);
    let c = glyph_color(f.accent, k as usize, d.length, d.layer);
    lemma_fade_ends(c.0);
    lemma_fade_ends(c.1);
    lemma_fade_ends(c.2);
}

/// The logo's tint is never brighter than the accent colour.
pub proof fn lemma_logo_tint_below_accent(ch: char, f: Frame)
    ensures
        logo_cell(ch, f).fg.0 <= f.accent.0,
        logo_cell(ch, f).fg.1 <= f.accent.1,
        logo_cell(ch, f).fg.2 <= f.accent.2,
{
    lemma_pow2_pos(149);
    lemma_one_parts();
    lemma_fade_level_range(f.fade);
    crate::single::lemma_literal_le_one(35, 100);
    assert forall|a: u8, v: int| 0 <= v <= one() implies
        #[trigger] to_u8(mul_s(mul_s(from_int(a as int), literal(35, 100)), v)) <= a by {
        lemma_from_small_int(a as int);
        assert(a * one() >= 0) by (nonlinear_arith)
            requires
                a >= 0,
                one() > 0,
        ;
        let fa = from_int(a as int);
        lemma_mul_mono(literal(35, 100), one(), fa);
        lemma_mul_one(a as int, 149);
        let x = mul_s(fa, literal(35, 100));
        assert(fa * literal(35, 100) == literal(35, 100) * fa) by (nonlinear_arith);
        assert(x == mul_s(literal(35, 100), fa));
        assert(fa * one() == one() * fa) by (nonlinear_arith);
        assert(mul_s(one(), fa) == mul_s(fa, one()));
        assert(0 <= x <= fa);
        lemma_mul_mono(x, fa, v);
        lemma_mul_mono(v, one(), fa);
        assert(fa * v == v * fa) by (nonlinear_arith);
        assert(mul_s(fa, v) == mul_s(v, fa));
        lemma_to_u8_mono(mul_s(x, v), fa);
        lemma_to_u8_whole(a as int);
    }
}

} // verus!
