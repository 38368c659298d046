use saver_glyphs::calculate_glyph_color;
use saver_glyphs::field::{
    advance_char_rot, density_columns, drop_length, fell_past_bottom, keep_growing, pool_span, refill_plan,
    trail_extra, FreeColumns, Refill, Viewport,
};
use saver_glyphs::frame::{
    dim_channel, draw_frame, fade_channel, frame_needs_pool_exec, glyph_cell_exec, paint_drop_exec, stamp_logo_exec,
    Cell, DropSnapshot, Frame, LogoPlacement, FADE_ONE,
};
use saver_glyphs::pool::{ascii_alnum, live_system_chars, seed_echo, seed_live, seed_pool, ECHO_SEEDS, LIVE_SEEDS};

/// The glyph colour formula evaluated with the platform's own single precision.
fn platform_color(accent: (u8, u8, u8), k: usize, length: usize, layer: u8) -> (u8, u8, u8) {
    let t: f32 = if length <= 1 {
        1.0
    } else {
        1.0 - (k as f32 / (length as f32 - 1.0).max(1.0))
    };
    let intensity: f32 = if k == 0 {
        1.0
    } else {
        (0.06 + 0.55 * t.powi(2)).clamp(0.05, 0.72)
    };
    let depth: f32 = if layer == 0 { 0.42 } else { 1.0 };
    let scale = intensity * depth;
    (
        ((accent.0 as f32) * scale) as u8,
        ((accent.1 as f32) * scale) as u8,
        ((accent.2 as f32) * scale) as u8,
    )
}

fn platform_fade(c: u8, fade: f32) -> u8 {
    (c as f32 * fade.clamp(0.0, 1.0)) as u8
}

fn frame(cols: usize, rows: usize) -> Frame {
    Frame { cols, rows, accent: (200, 100, 50), fade: FADE_ONE }
}

#[test]
fn glyph_color_single_precision_values() {
    let accent = (100, 200, 50);
    assert_eq!(calculate_glyph_color(accent, 0, 10, 0), (42, 84, 21));
    assert_eq!(calculate_glyph_color(accent, 9, 10, 1), (6, 12, 3));
    // 150 * 0.42 is just below 63 in single precision
    assert_eq!(calculate_glyph_color((150, 150, 150), 0, 10, 0), (62, 62, 62));
    // t rounds to 1.0 for glyph 1 of a very long drop
    assert_eq!(calculate_glyph_color(accent, 1, (1 << 26) + 1, 1), (61, 122, 30));
    // past the end of the drop the brightness is capped at 0.72
    assert_eq!(calculate_glyph_color(accent, 30, 10, 1), (72, 144, 36));
    assert_eq!(calculate_glyph_color(accent, 0, 0, 1), accent);
}

#[test]
fn glyph_color_matches_platform_single_precision() {
    let accents = [(0, 1, 2), (100, 200, 50), (150, 250, 255), (37, 63, 99), (255, 128, 7)];
    for &accent in accents.iter() {
        for layer in 0..2u8 {
            for length in 0..40usize {
                for k in 0..(length + 3) {
                    assert_eq!(
                        calculate_glyph_color(accent, k, length, layer),
                        platform_color(accent, k, length, layer)
                    );
                }
            }
            for &(k, length) in [
                (1usize, usize::MAX),
                (usize::MAX - 1, usize::MAX),
                (usize::MAX, 2),
                (usize::MAX, usize::MAX),
                (12345, 1 << 30),
                (1 << 40, 3),
                ((1 << 26) - 1, 1 << 26),
                (7, 8),
            ]
            .iter()
            {
                assert_eq!(
                    calculate_glyph_color(accent, k, length, layer),
                    platform_color(accent, k, length, layer)
                );
            }
        }
    }
    for a in 0..=255u8 {
        for k in [0usize, 1, 2, 5] {
            for layer in 0..2u8 {
                assert_eq!(
                    calculate_glyph_color((a, a, a), k, 6, layer),
                    platform_color((a, a, a), k, 6, layer)
                );
            }
        }
    }
}

#[test]
fn glyph_trail_fades_toward_tip() {
    let accent = (255, 255, 255);
    let mut prev = calculate_glyph_color(accent, 1, 12, 1);
    for k in 2..12 {
        let c = calculate_glyph_color(accent, k, 12, 1);
        assert!(c.0 <= prev.0);
        assert!(c.0 <= 183);
        prev = c;
    }
}

#[test]
fn glyph_trail_fades_on_long_drops() {
    let accent = (255, 180, 90);
    for &length in [2usize, 5, (1 << 24) + 1, (1 << 25) + 3, 1 << 40, usize::MAX].iter() {
        let ks = [0usize, 1, 2, length / 3, length / 2, length - 3, length - 2, length - 1];
        for layer in 0..2u8 {
            for &k1 in ks.iter() {
                for &k2 in ks.iter() {
                    if k1 <= k2 && k2 < length {
                        let c1 = calculate_glyph_color(accent, k1, length, layer);
                        let c2 = calculate_glyph_color(accent, k2, length, layer);
                        assert!(c2.0 <= c1.0 && c2.1 <= c1.1 && c2.2 <= c1.2);
                    }
                }
            }
        }
    }
}

#[test]
fn glyph_trail_tip_is_six_percent() {
    let accent = (255, 200, 100);
    assert_eq!(calculate_glyph_color(accent, 11, 12, 1), (15, 12, 6));
    for &length in [2usize, 3, 12, 1000, 1 << 24, (1 << 24) + 1, (1 << 26) + 3, 1 << 30, usize::MAX].iter() {
        for layer in 0..2u8 {
            let depth: f32 = if layer == 0 { 0.42 } else { 1.0 };
            let s: f32 = 0.06f32 * depth;
            let c = calculate_glyph_color(accent, length - 1, length, layer);
            assert_eq!(c, ((255.0f32 * s) as u8, (200.0f32 * s) as u8, (100.0f32 * s) as u8));
        }
    }
}

#[test]
fn fade_scales_channels() {
    assert_eq!(fade_channel(200, FADE_ONE), 200);
    assert_eq!(fade_channel(200, 0), 0);
    assert_eq!(fade_channel(201, 0.5f32.to_bits()), 100);
    assert_eq!(fade_channel(200, 3.0f32.to_bits()), 200);
    assert_eq!(fade_channel(200, f32::INFINITY.to_bits()), 200);
    assert_eq!(fade_channel(200, (-1.0f32).to_bits()), 0);
    assert_eq!(fade_channel(200, f32::NAN.to_bits()), 0);
    assert_eq!(dim_channel(200, FADE_ONE), 70);
    assert_eq!(dim_channel(50, FADE_ONE), 17);
    assert_eq!(dim_channel(50, f32::NAN.to_bits()), 0);
    for c in [0u8, 1, 99, 200, 255] {
        for fade in [0.0f32, 1e-40, 0.1, 0.2, 0.39999998, 0.4, 0.5, 0.7777, 0.99999994, 1.0, 2.0] {
            assert_eq!(fade_channel(c, fade.to_bits()), platform_fade(c, fade));
            assert_eq!(
                dim_channel(c, fade.to_bits()),
                ((c as f32) * 0.35 * fade.clamp(0.0, 1.0)) as u8
            );
        }
    }
}

#[test]
fn glyph_cell_picks_live_head() {
    let f = frame(3, 4);
    let d = DropSnapshot { col: 1, head: 2, length: 5, char_rot: 0, layer: 1 };
    let pool = vec!['a', 'b', 'c'];
    let live = vec!['X'];
    let head = glyph_cell_exec(&f, &d, 0, &pool, &live);
    assert_eq!(head, Cell { ch: 'X', fg: (200, 100, 50), bg: (0, 0, 0), bold: true });
    // third rotation step of a near drop samples the live characters too
    let d2 = DropSnapshot { col: 1, head: 2, length: 5, char_rot: 1, layer: 1 };
    assert_eq!(glyph_cell_exec(&f, &d2, 2, &pool, &live).ch, 'X');
    // far drop heads use the live characters but are not bold
    let far = DropSnapshot { col: 1, head: 2, length: 5, char_rot: 4, layer: 0 };
    let c = glyph_cell_exec(&f, &far, 0, &pool, &live);
    assert_eq!(c.ch, 'X');
    assert!(!c.bold);
    assert_eq!(c.fg, platform_color((200, 100, 50), 0, 5, 0));
    // without live characters the pool is used, counting round it
    assert_eq!(glyph_cell_exec(&f, &far, 0, &pool, &[]).ch, 'b');
}

#[test]
fn paint_drop_fills_its_column() {
    let f = frame(3, 4);
    let d = DropSnapshot { col: 1, head: 2, length: 5, char_rot: 0, layer: 1 };
    let pool = vec!['a', 'b', 'c'];
    let live = vec!['X'];
    let mut grid = vec![Cell::blank(); 12];
    paint_drop_exec(&mut grid, &f, &d, &pool, &live);
    assert_eq!(grid[7], Cell { ch: 'X', fg: (200, 100, 50), bg: (0, 0, 0), bold: true });
    assert_eq!(grid[4], Cell { ch: 'b', fg: platform_color((200, 100, 50), 1, 5, 1), bg: (0, 0, 0), bold: false });
    assert_eq!(grid[1], Cell { ch: 'c', fg: platform_color((200, 100, 50), 2, 5, 1), bg: (0, 0, 0), bold: false });
    for i in [0usize, 2, 3, 5, 6, 8, 9, 10, 11] {
        assert_eq!(grid[i], Cell::blank());
    }
}

#[test]
fn paint_drop_stops_at_end_of_short_grid() {
    let f = frame(3, 4);
    let d = DropSnapshot { col: 1, head: 3, length: 4, char_rot: 0, layer: 1 };
    let pool = vec!['a', 'b', 'c'];
    // head would land on index 10, past the 8 cells: the whole drop stops there
    let mut grid = vec![Cell::blank(); 8];
    paint_drop_exec(&mut grid, &f, &d, &pool, &[]);
    assert!(grid.iter().all(|c| *c == Cell::blank()));
}

#[test]
fn paint_drop_off_grid_paints_nothing() {
    let f = frame(3, 4);
    let pool = vec!['a'];
    let mut grid = vec![Cell::blank(); 12];
    for d in [
        DropSnapshot { col: -1, head: 2, length: 3, char_rot: 0, layer: 1 },
        DropSnapshot { col: 3, head: 2, length: 3, char_rot: 0, layer: 1 },
        DropSnapshot { col: 0, head: -1, length: 3, char_rot: 0, layer: 1 },
        DropSnapshot { col: 0, head: 9, length: 3, char_rot: 0, layer: 1 },
    ] {
        paint_drop_exec(&mut grid, &f, &d, &pool, &[]);
    }
    assert!(grid.iter().all(|c| *c == Cell::blank()));
    // a drop partly below the grid shows only its rows on the grid
    let d = DropSnapshot { col: 0, head: 5, length: 3, char_rot: 0, layer: 0 };
    paint_drop_exec(&mut grid, &f, &d, &pool, &[]);
    assert_eq!(grid[9].ch, 'a');
    assert_eq!(grid.iter().filter(|c| c.ch != '\0').count(), 1);
}

#[test]
fn logo_is_stamped_over_the_rain() {
    let f = frame(3, 2);
    let mut grid = vec![Cell::blank(); 6];
    let logo = LogoPlacement { x: 0, y: 1, lines: vec![vec!['A', 'B', ' ', 'C'], vec!['Z']] };
    stamp_logo_exec(&mut grid, &f, &logo);
    let dim = (70, 35, 17);
    assert_eq!(grid[3], Cell { ch: 'A', fg: dim, bg: (0, 0, 0), bold: true });
    assert_eq!(grid[4], Cell { ch: 'B', fg: dim, bg: (0, 0, 0), bold: true });
    assert_eq!(grid[5], Cell::blank());
    for i in 0..3 {
        assert_eq!(grid[i], Cell::blank());
    }
}

#[test]
fn draw_frame_blanks_then_draws() {
    let f = Frame { cols: 4, rows: 3, accent: (100, 100, 100), fade: FADE_ONE };
    let mut grid = vec![Cell { ch: '?', fg: (1, 1, 1), bg: (1, 1, 1), bold: true }; 12];
    let drops = vec![
        DropSnapshot { col: 0, head: 1, length: 2, char_rot: 0, layer: 1 },
        DropSnapshot { col: 0, head: 0, length: 1, char_rot: 0, layer: 0 },
    ];
    let pool = vec!['k'];
    let logo = Some(LogoPlacement { x: 2, y: 2, lines: vec![vec!['O']] });
    draw_frame(&mut grid, &f, &drops, &pool, &['h'], &logo);
    assert_eq!(grid.len(), 12);
    // the later drop paints over the earlier one
    assert_eq!(grid[0], Cell { ch: 'h', fg: (42, 42, 42), bg: (0, 0, 0), bold: false });
    assert_eq!(grid[4], Cell { ch: 'h', fg: (100, 100, 100), bg: (0, 0, 0), bold: true });
    assert_eq!(grid[10], Cell { ch: 'O', fg: (35, 35, 35), bg: (0, 0, 0), bold: true });
    let drawn = grid.iter().filter(|c| c.ch != '\0').count();
    assert_eq!(drawn, 3);
}

#[test]
fn draw_frame_intro_starts_black() {
    let f = Frame { cols: 2, rows: 2, accent: (255, 255, 255), fade: 0.0f32.to_bits() };
    let mut grid = vec![Cell::blank(); 4];
    let drops = vec![DropSnapshot { col: 1, head: 1, length: 2, char_rot: 0, layer: 1 }];
    draw_frame(&mut grid, &f, &drops, &['q'], &[], &None);
    assert_eq!(grid[3].ch, 'q');
    assert_eq!(grid[3].fg, (0, 0, 0));
    assert_eq!(grid[1].fg, (0, 0, 0));
}

#[test]
fn free_columns_skip_used_ones() {
    let mut free = FreeColumns::new(&[1, 3, 3, 7], 5);
    assert_eq!(free.len(), 3);
    assert_eq!(free.take(1), 2);
    assert_eq!(free.take(0), 0);
    assert_eq!(free.take(0), 4);
    assert!(free.is_empty());
    assert!(FreeColumns::new(&[], 0).is_empty());
    assert_eq!(FreeColumns::new(&[0, 1], 2).len(), 0);
}

#[test]
fn refill_decisions() {
    assert_eq!(refill_plan(5, 3), Refill::Trim);
    assert_eq!(refill_plan(2, 3), Refill::Grow);
    assert_eq!(refill_plan(3, 3), Refill::Hold);
    assert_eq!(refill_plan(0, 0), Refill::Hold);
    assert_eq!(density_columns(80, 0), 80);
    assert_eq!(density_columns(80, 1), 80);
    assert_eq!(density_columns(80, 3), 26);
}

#[test]
fn drop_motion_helpers() {
    assert_eq!(pool_span(0), 1);
    assert_eq!(pool_span(7), 7);
    assert_eq!(advance_char_rot(3, 5), 4);
    assert_eq!(advance_char_rot(4, 5), 0);
    assert_eq!(advance_char_rot(9, 0), 0);
    assert_eq!(advance_char_rot(usize::MAX, 10), 6);
    assert!(fell_past_bottom(26, 20, 5));
    assert!(!fell_past_bottom(25, 20, 5));
    assert!(!fell_past_bottom(-3, 20, 5));
    assert_eq!(trail_extra(0), 10);
    assert_eq!(trail_extra(1), 16);
    assert_eq!(drop_length(9), 13);
    assert_eq!(drop_length(15), 19);
    assert_eq!(drop_length(0), 4);
}

#[test]
fn viewport_tracks_grid_size() {
    let mut v = Viewport { cols: 0, rows: 0 };
    assert!(v.resize(80, 24));
    assert_eq!(v.cols, 80);
    assert_eq!(v.rows, 24);
    assert!(!v.resize(80, 24));
    assert!(v.resize(80, 25));
}

#[test]
fn live_chars_keep_ascii_letters_and_digits() {
    let host: Vec<char> = "my-host".chars().collect();
    let os: Vec<char> = "Linux".chars().collect();
    let kernel: Vec<char> = "6.1_ｱ".chars().collect();
    let live = live_system_chars(&host, &os, &kernel);
    assert_eq!(live.iter().collect::<String>(), "myhostLinux61");
    assert!(ascii_alnum('z'));
    assert!(!ascii_alnum('ｱ'));
    assert!(!ascii_alnum('_'));
}

#[test]
fn seeding_grows_the_pool() {
    let mut pool = vec!['a', 'b'];
    seed_live(&mut pool, &['X', 'Y'], 1);
    assert_eq!(pool, vec!['a', 'b', 'Y']);
    seed_echo(&mut pool, 0);
    assert_eq!(pool, vec!['a', 'b', 'Y', 'a']);
    seed_echo(&mut pool, 10);
    assert_eq!(pool.len(), 4);
    assert_eq!(LIVE_SEEDS, 96);
    assert_eq!(ECHO_SEEDS, 160);
}

#[test]
fn seed_pool_applies_live_then_echo_rolls() {
    let mut pool = vec!['a', 'b'];
    seed_pool(&mut pool, &['X', 'Y'], &[1, 0, 1], &[4, 0, 99, 6]);
    assert_eq!(pool, vec!['a', 'b', 'Y', 'X', 'Y', 'Y', 'a', 'a']);

    // without live characters the live rolls are skipped
    let mut pool = vec!['a', 'b'];
    seed_pool(&mut pool, &[], &[7, 8], &[1]);
    assert_eq!(pool, vec!['a', 'b', 'b']);

    // the full seeding grows the pool by 96 + 160 glyphs from its sources
    let base: Vec<char> = "ｱｲｳ123".chars().collect();
    let live = ['h', 'o', 's', 't'];
    let live_rolls: Vec<usize> = (0..LIVE_SEEDS).map(|i| (i * 7) % live.len()).collect();
    let start = base.len() + LIVE_SEEDS;
    let echo_rolls: Vec<usize> = (0..ECHO_SEEDS).map(|i| (i * 13) % (start + i)).collect();
    let mut pool = base.clone();
    seed_pool(&mut pool, &live, &live_rolls, &echo_rolls);
    assert_eq!(pool.len(), base.len() + 96 + 160);
    assert!(pool.iter().all(|c| base.contains(c) || live.contains(c)));
    let mut stepwise = base.clone();
    for &r in live_rolls.iter() {
        seed_live(&mut stepwise, &live, r);
    }
    for &r in echo_rolls.iter() {
        seed_echo(&mut stepwise, r);
    }
    assert_eq!(pool, stepwise);
}

#[test]
fn empty_pool_is_fine_when_only_live_glyphs_show() {
    let f = frame(3, 4);
    let live = vec!['X'];
    // heads only: every glyph on the grid comes from the live characters
    let drops = vec![DropSnapshot { col: 1, head: 0, length: 3, char_rot: 0, layer: 1 }];
    assert!(!frame_needs_pool_exec(12, &f, &drops, live.len()));
    let mut grid = vec![Cell::blank(); 12];
    draw_frame(&mut grid, &f, &drops, &[], &live, &None);
    assert_eq!(grid[1].ch, 'X');
    // a trail glyph on the grid needs the pool
    let tall = vec![DropSnapshot { col: 1, head: 2, length: 3, char_rot: 0, layer: 1 }];
    assert!(frame_needs_pool_exec(12, &f, &tall, live.len()));
    // no drops, no pool needed
    assert!(!frame_needs_pool_exec(12, &f, &[], 0));
    // a drop off the grid needs nothing
    let off = vec![DropSnapshot { col: 5, head: 2, length: 3, char_rot: 0, layer: 1 }];
    assert!(!frame_needs_pool_exec(12, &f, &off, 0));
}

#[test]
fn growing_takes_distinct_free_columns() {
    let occupied = vec![0usize, 2];
    let mut free = FreeColumns::new(&occupied, 6);
    let mut current = occupied.len();
    let target = 10;
    let mut taken = Vec::new();
    let mut roll = 7usize;
    while keep_growing(current, target, &free) {
        let idx = roll % free.len();
        roll = roll * 31 + 3;
        taken.push(free.take(idx));
        current += 1;
    }
    // min(target, current + free) drops: 2 + 4
    assert_eq!(current, 6);
    taken.sort();
    assert_eq!(taken, vec![1, 3, 4, 5]);
    assert!(!keep_growing(3, 3, &FreeColumns::new(&[], 4)));
}
