use triangles::bmtext::FontConfig;
use triangles::teximg::{rgb565_texel, Teximg};

#[test]
fn glyph_grid_sizes() {
    let fc = FontConfig::new([800, 600], [1024, 1024], [16, 16]);
    assert_eq!(fc.get_font_size(), [16, 16]);
    assert_eq!(fc.get_terminal_size_in_char(), [50, 37]);
    assert_eq!(fc.get_texture_size_in_char(), [64, 64]);
    let mut fc = fc;
    fc.resize_screen([160, 32]);
    assert_eq!(fc.get_terminal_size_in_char(), [10, 2]);
}

#[test]
fn text_faces_follow_the_grids() {
    let fc = FontConfig::new([32, 32], [64, 64], [16, 16]);
    // two glyphs per screen row, four per texture row
    let faces = fc.text2fs("AB\x05", 3);
    assert_eq!(faces.len(), 6);
    // 'A' = 65: texture cell (1, 16)
    assert_eq!(faces[0].vid, [0, 1, 3]);
    assert_eq!(faces[1].vid, [1, 3, 4]);
    assert_eq!(faces[0].uvid, [81, 82, 86]);
    assert_eq!(faces[1].uvid, [82, 86, 87]);
    // 'B' = 66 at screen cell (1, 0)
    assert_eq!(faces[2].vid, [1, 2, 4]);
    assert_eq!(faces[2].uvid, [82, 83, 87]);
    // byte 5 wraps to the second screen row
    assert_eq!(faces[4].vid, [3, 4, 6]);
    assert_eq!(faces[5].vid, [4, 6, 7]);
    assert_eq!(faces[4].uvid, [6, 7, 11]);
    assert!(faces.iter().all(|f| f.layer == 3 && f.color == [0; 4]));
}

#[test]
fn default_layout_is_zero() {
    let fc = FontConfig::default();
    assert_eq!(fc.get_font_size(), [0, 0]);
}

#[test]
fn palette_texels() {
    assert_eq!(rgb565_texel(0, 0), [0, 0, 0, 255]);
    assert_eq!(rgb565_texel(1023, 63), [248, 252, 248, 255]);
    assert_eq!(rgb565_texel(33, 2), [8, 8, 8, 255]);
}

#[test]
fn empty_text_needs_no_grid() {
    let fc = FontConfig::new([0, 0], [0, 0], [16, 16]);
    assert!(fc.text2fs("", 1).is_empty());
}

#[test]
fn palette_image_layout() {
    let img = Teximg::preset_rgb565();
    assert_eq!(img.dim, [1024, 64]);
    assert_eq!(img.data.len(), 1024 * 64 * 4);
    let at = |x: usize, y: usize| &img.data[(y * 1024 + x) * 4..(y * 1024 + x) * 4 + 4];
    assert_eq!(at(0, 0), &[0, 0, 0, 255]);
    assert_eq!(at(33, 2), &[8, 8, 8, 255]);
    assert_eq!(at(1023, 63), &[248, 252, 248, 255]);
}
