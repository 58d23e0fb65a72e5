use triangles::bitw::parse_decimal;
use triangles::bmtext::FontConfig;

fn px(data: &[u8], x: usize, y: usize) -> &[u8] {
    let i = (y * 1024 + x) * 4;
    &data[i..i + 4]
}

#[test]
fn glyph_lands_in_its_cell() {
    let mut fc = FontConfig::new([640, 480], [0, 0], [0, 0]);
    let img = fc.bitw_loader("65\n101\n010\n\n").unwrap();
    assert_eq!(img.dim, [1024, 1024]);
    assert_eq!(img.data.len(), 1024 * 1024 * 4);
    assert_eq!(fc.get_font_size(), [3, 2]);
    // 341 cells per row of 3 pixels: glyph 65 sits at x = 195, y = 0
    assert_eq!(px(&img.data, 195, 0), &[255, 255, 255, 255]);
    assert_eq!(px(&img.data, 196, 0), &[0, 0, 0, 0]);
    assert_eq!(px(&img.data, 197, 0), &[255, 255, 255, 255]);
    assert_eq!(px(&img.data, 195, 1), &[0, 0, 0, 0]);
    assert_eq!(px(&img.data, 196, 1), &[255, 255, 255, 255]);
    assert_eq!(img.data.iter().filter(|b| **b == 255).count(), 3 * 4);
    assert_eq!(fc.get_texture_size_in_char(), [341, 512]);
}

#[test]
fn second_row_of_cells_and_trailing_space() {
    let mut fc = FontConfig::default();
    let img = fc.bitw_loader("\n\n512 \r\n11\t\n11\n\n").unwrap();
    assert_eq!(fc.get_font_size(), [2, 2]);
    // 512 cells per row of 2 pixels: glyph 512 starts the second row at y = 2
    assert_eq!(px(&img.data, 0, 2), &[255, 255, 255, 255]);
    assert_eq!(px(&img.data, 1, 3), &[255, 255, 255, 255]);
    assert_eq!(px(&img.data, 0, 0), &[0, 0, 0, 0]);
}

#[test]
fn unterminated_glyph_is_not_drawn() {
    let mut fc = FontConfig::default();
    let img = fc.bitw_loader("1\n1\n\n2\n1").unwrap();
    assert_eq!(px(&img.data, 1, 0), &[255, 255, 255, 255]);
    assert_eq!(px(&img.data, 2, 0), &[0, 0, 0, 0]);
}

#[test]
fn malformed_fonts_are_rejected() {
    let mut fc = FontConfig::new([1, 1], [2, 2], [3, 3]);
    assert!(fc.bitw_loader("x\n1\n\n").is_none());
    assert!(fc.bitw_loader("1\n11\n11\n\n2\n11\n\n").is_none());
    assert!(fc.bitw_loader("1\n\n").is_none());
    assert!(fc.bitw_loader("1\n11\n\n2\n1\n\n").is_none());
    assert!(fc.bitw_loader("-3\n1\n\n").is_none());
    // 1024 cells per row, 3 pixels high: glyph 349184 would sit at y = 1023
    assert!(fc.bitw_loader("349184\n1\n1\n1\n\n").is_none());
    assert_eq!(fc.get_font_size(), [3, 3]);
    assert!(fc.bitw_loader("349183\n1\n1\n1\n\n").is_some());
    assert_eq!(fc.get_font_size(), [1, 3]);
}

#[test]
fn decimal_parsing() {
    let p = |s: &str| parse_decimal(&s.as_bytes().to_vec(), s.len());
    assert_eq!(p("65"), Some(65));
    assert_eq!(p("+7"), Some(7));
    assert_eq!(p("-2147483648"), Some(i32::MIN));
    assert_eq!(p("2147483647"), Some(i32::MAX));
    assert_eq!(p("2147483648"), None);
    assert_eq!(p("99999999999999999999"), None);
    assert_eq!(p("-"), None);
    assert_eq!(p(""), None);
    assert_eq!(p("12a"), None);
    assert_eq!(parse_decimal(&b"123".to_vec(), 2), Some(12));
}
