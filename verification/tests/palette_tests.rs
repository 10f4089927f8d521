use live_plotter::palette::{dimmed, generate_palette, pad_palette, Color};

fn rgb(r: u8, g: u8, b: u8) -> Color {
    Color { r, g, b, a: 255 }
}

fn from(codes: &[&str]) -> Vec<Color> {
    generate_palette(Some(codes.iter().map(|s| s.to_string()).collect()))
}

#[test]
fn base_colors_repeat() {
    let p = generate_palette(None);
    assert_eq!(p.len(), 256);
    assert_eq!(p[0], rgb(255, 85, 85));
    assert_eq!(p[9], rgb(255, 0, 127));
    assert_eq!(p[19], rgb(128, 128, 0));
    assert_eq!(p[20], p[0]);
    assert_eq!(p[255], p[15]);
}

#[test]
fn codes_of_three_and_six_digits_are_opaque() {
    let p = from(&["#f0a", "#102030", "#FFF"]);
    assert_eq!(p[0], rgb(255, 0, 170));
    assert_eq!(p[1], rgb(16, 32, 48));
    assert_eq!(p[2], rgb(255, 255, 255));
    assert_eq!(p[3], rgb(255, 255, 85));
}

#[test]
fn codes_of_four_and_eight_digits_hold_an_alpha() {
    let p = from(&["#12ff", "#010203ff", "#fff0", "#ffffff00", "#00ff0080"]);
    assert_eq!(p[0], Color { r: 17, g: 34, b: 255, a: 255 });
    assert_eq!(p[1], rgb(1, 2, 3));
    assert_eq!(p[2], Color { r: 0, g: 0, b: 0, a: 0 });
    assert_eq!(p[3], Color { r: 0, g: 0, b: 0, a: 0 });
    assert_eq!((p[4].r, p[4].b, p[4].a), (0, 0, 128));
    assert!(0 < p[4].g && p[4].g < 255);
}

#[test]
fn unreadable_codes_are_passed_over() {
    let p = from(&["red", "", "#", "#12", "#12345", "#ggg", "#-12", "# 12", "#€", "#1234567", "#0f0"]);
    assert_eq!(p[0], rgb(0, 255, 0));
    assert_eq!(p[1], rgb(85, 255, 85));
}

#[test]
fn a_plus_sign_stands_for_a_zero() {
    let p = from(&["#+ab", "#+23456", "#++1"]);
    assert_eq!(p[0], rgb(0, 170, 187));
    assert_eq!(p[1], rgb(2, 52, 86));
    assert_eq!(p[2], rgb(85, 85, 255));
}

#[test]
fn more_codes_than_the_palette_are_kept() {
    let codes = vec!["#010101"; 300];
    let p = from(&codes);
    assert_eq!(p.len(), 300);
    assert_eq!(p[299], rgb(1, 1, 1));
    assert_eq!(pad_palette(vec![rgb(9, 9, 9)])[0], rgb(9, 9, 9));
}

#[test]
fn dimmed_colors_fade() {
    let c = dimmed(rgb(255, 0, 128));
    assert_eq!((c.g, c.a), (0, 80));
    assert!(0 < c.r && c.r < 255);
    assert!(0 < c.b && c.b < c.r);
}
