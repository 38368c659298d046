use saver_glyphs::calculate_glyph_color;

#[test]
fn test_calculate_glyph_color() {
    let accent = (100, 200, 50);

    // Head (k=0) near layer is full accent intensity before depth scale
    let c0 = calculate_glyph_color(accent, 0, 10, 1);
    assert_eq!(c0, accent);

    // Far layer head is dimmer
    let c0_far = calculate_glyph_color(accent, 0, 10, 0);
    assert!(c0_far.0 < c0.0);

    // Tail tip is much dimmer than head
    let c_tail = calculate_glyph_color(accent, 9, 10, 1);
    assert!(c_tail.0 < c0.0 / 2);
    assert!(c_tail.1 < c0.1 / 2);
}
