//! Series colours: those that the user names, and those that stand in.

use vstd::prelude::*;

verus! {

/// A colour in sRGB with premultiplied alpha, one byte per channel.
#[derive(Clone, Copy, Debug, PartialEq, Eq, Structural)]
pub struct Color {
    pub r: u8,
    pub g: u8,
    pub b: u8,
    pub a: u8,
}

/// The least number of colours in a palette.
pub const PALETTE_SIZE: usize = 256;

/// The number of colours that stand in, over and over.
pub const BASE_COLORS: usize = 20;

/// The opacity of a swatch that is not highlighted while another one is.
pub const DIM_ALPHA: u8 = 80;

pub open spec fn opaque(r: u8, g: u8, b: u8) -> Color {
    Color { r, g, b, a: 255 }
}

/// The colours that stand in.
pub open spec fn base_palette() -> Seq<Color> {
    seq![
        opaque(255, 85, 85),
        opaque(85, 255, 85),
        opaque(85, 85, 255),
        opaque(255, 255, 85),
        opaque(255, 85, 255),
        opaque(85, 255, 255),
        opaque(255, 170, 0),
        opaque(170, 0, 255),
        opaque(0, 255, 170),
        opaque(255, 0, 127),
        opaque(170, 255, 0),
        opaque(0, 170, 255),
        opaque(255, 215, 180),
        opaque(128, 128, 128),
        opaque(170, 110, 40),
        opaque(0, 128, 128),
        opaque(230, 190, 255),
        opaque(128, 0, 0),
        opaque(170, 255, 195),
        opaque(128, 128, 0),
    ]
}

/// `colors`, and base colours from there on up to the palette's size.
pub open spec fn padded(colors: Seq<Color>) -> Seq<Color> {
    Seq::new(
        if colors.len() < PALETTE_SIZE {
            PALETTE_SIZE as nat
        } else {
            colors.len()
        },
        |i: int|
            if i < colors.len() {
                colors[i]
            } else {
                base_palette()[i % BASE_COLORS as int]
            },
    )
}

/// Those of `found` that are colours.
pub open spec fn colors_in(found: Seq<Option<Color>>) -> Seq<Color>
    decreases found.len(),
{
    if found.len() == 0 {
        Seq::empty()
    } else {
        match found.last() {
            Some(c) => colors_in(found.drop_last()).push(c),
            None => colors_in(found.drop_last()),
        }
    }
}

pub open spec fn hex_digit(c: char) -> bool {
    ('0' <= c && c <= '9') || ('a' <= c && c <= 'f') || ('A' <= c && c <= 'F')
}

pub open spec fn hex_value(c: char) -> int {
    if c <= '9' {
        c as int - '0' as int
    } else if c <= 'F' {
        c as int - 'A' as int + 10
    } else {
        c as int - 'a' as int + 10
    }
}

pub open spec fn hex_digits(s: Seq<char>) -> bool {
    s.len() > 0 && forall|i: int| 0 <= i < s.len() ==> hex_digit(#[trigger] s[i])
}

/// The number that hexadecimal digits write.
pub open spec fn hex_number(s: Seq<char>) -> int
    decreases s.len(),
{
    if s.len() == 0 {
        0
    } else {
        16 * hex_number(s.drop_last()) + hex_value(s.last())
    }
}

/// A channel of what `egui::Color32::from_rgba_unmultiplied` makes of a channel
/// at `value` under an alpha that is neither none nor full.
pub uninterp spec fn faded(value: u8, alpha: u8) -> u8;

/// The colour of the channels with alpha multiplied in.
pub open spec fn premultiplied(r: u8, g: u8, b: u8, a: u8) -> Color {
    if a == 255 {
        opaque(r, g, b)
    } else if a == 0 {
        Color { r: 0, g: 0, b: 0, a: 0 }
    } else {
        Color { r: faded(r, a), g: faded(g, a), b: faded(b, a), a }
    }
}

/// The byte that a hexadecimal digit and itself again write.
pub open spec fn doubled(n: int) -> u8 {
    (17 * (n % 16)) as u8
}

/// The byte that the last two hexadecimal digits of a number write.
pub open spec fn byte(n: int) -> u8 {
    (n % 256) as u8
}

/// The colour that a code stands for: a hash, and 3, 4, 6 or 8 hexadecimal
/// digits, the first of which may give its place to a plus sign.
pub open spec fn code_color(code: Seq<char>) -> Option<Color> {
    let t = code.skip(1);
    let digits = if t.len() > 0 && t[0] == '+' { t.skip(1) } else { t };
    let n = hex_number(digits);
    if code.len() == 0 || code[0] != '#' || !hex_digits(digits) {
        None
    } else if t.len() == 3 {
        Some(opaque(doubled(n / 256), doubled(n / 16), doubled(n)))
    } else if t.len() == 4 {
        Some(premultiplied(doubled(n / 4096), doubled(n / 256), doubled(n / 16), doubled(n)))
    } else if t.len() == 6 {
        Some(opaque(byte(n / 65536), byte(n / 256), byte(n)))
    } else if t.len() == 8 {
        Some(premultiplied(byte(n / 16777216), byte(n / 65536), byte(n / 256), byte(n)))
    } else {
        None
    }
}

/// Reads a colour code with `egui::Color32::from_hex`, which takes a hash and 3,
/// 4, 6 or 8 hexadecimal digits, takes a plus sign in the place of the first
/// digit, and refuses everything else. Codes of 4 and 8 digits hold an alpha,
/// which is multiplied in as `Color32::from_rgba_unmultiplied` does.
#[verifier::external_body]
fn color_from_hex(code: &str) -> (r: Option<Color>)
    ensures
        r == code_color(code@),
{
    match egui::Color32::from_hex(code) {
        Ok(color) => {
            let (r, g, b, a) = color.to_tuple();
            Some(Color { r, g, b, a })
        },
        Err(_) => None,
    }
}

/// Multiplies alpha in with `egui::Color32::from_rgba_unmultiplied`. Full opacity
/// leaves the channels as they are and none makes them zero. Between, the alpha
/// is kept and each channel is looked up, by its value and the alpha, in a
/// table of rounded powers that has a name and is not written out.
#[verifier::external_body]
fn color_from_unmultiplied(r: u8, g: u8, b: u8, a: u8) -> (c: Color)
    ensures
        c == premultiplied(r, g, b, a),
        0 < a < 255 ==> c.r == faded(r, a) && c.g == faded(g, a) && c.b == faded(b, a),
{
    let (r, g, b, a) = egui::Color32::from_rgba_unmultiplied(r, g, b, a).to_tuple();
    Color { r, g, b, a }
}

fn rgb(r: u8, g: u8, b: u8) -> (c: Color)
    ensures
        c == opaque(r, g, b),
{
    Color { r, g, b, a: 255 }
}

/// Fills a palette up with the base colours.
pub fn pad_palette(colors: Vec<Color>) -> (r: Vec<Color>)
    ensures
        r@ == padded(colors@),
{
    let base: [Color; 20] = [
        rgb(255, 85, 85),
        rgb(85, 255, 85),
        rgb(85, 85, 255),
        rgb(255, 255, 85),
        rgb(255, 85, 255),
        rgb(85, 255, 255),
        rgb(255, 170, 0),
        rgb(170, 0, 255),
        rgb(0, 255, 170),
        rgb(255, 0, 127),
        rgb(170, 255, 0),
        rgb(0, 170, 255),
        rgb(255, 215, 180),
        rgb(128, 128, 128),
        rgb(170, 110, 40),
        rgb(0, 128, 128),
        rgb(230, 190, 255),
        rgb(128, 0, 0),
        rgb(170, 255, 195),
        rgb(128, 128, 0),
    ];
    assert(base@ =~= base_palette());
    let ghost given = colors@;
    let mut colors: Vec<Color> = colors;
    while colors.len() < PALETTE_SIZE
        invariant
            base@ == base_palette(),
            given.len() <= colors@.len() <= padded(given).len(),
            colors@ == padded(given).take(colors@.len() as int),
        decreases PALETTE_SIZE - colors@.len(),
    {
        colors.push(base[colors.len() % BASE_COLORS]);
        assert(colors@ =~= padded(given).take(colors@.len() as int));
    }
    assert(colors@ =~= padded(given));
    colors
}

/// The colours that the user's codes stand for, where they can be read.
pub open spec fn named_colors(codes: Option<Vec<String>>) -> Seq<Color> {
    match codes {
        Some(codes) => colors_in(codes@.map_values(|code: String| code_color(code@))),
        None => Seq::empty(),
    }
}

/// The colours of the series: those of the user's codes that can be read, in
/// their order, and base colours after them.
pub fn generate_palette(user_colors: Option<Vec<String>>) -> (r: Vec<Color>)
    ensures
        r@ == padded(named_colors(user_colors)),
{
    let mut colors: Vec<Color> = Vec::new();
    if let Some(codes) = &user_colors {
        let ghost found = codes@.map_values(|code: String| code_color(code@));
        let mut i: usize = 0;
        while i < codes.len()
            invariant
                i <= codes@.len(),
                found == codes@.map_values(|code: String| code_color(code@)),
                colors@ == colors_in(found.take(i as int)),
            decreases codes@.len() - i,
        {
            assert(found.take(i + 1).drop_last() =~= found.take(i as int));
            if let Some(c) = color_from_hex(codes[i].as_str()) {
                colors.push(c);
            }
            i = i + 1;
        }
        assert(found.take(codes@.len() as int) =~= found);
    }
    pad_palette(colors)
}

/// How many of the first `n` codes can be read as colours.
pub open spec fn readable_before(codes: Seq<String>, n: int) -> int
    decreases n,
{
    if n <= 0 {
        0
    } else {
        readable_before(codes, n - 1) + (if code_color(codes[n - 1]@) is Some { 1int } else { 0 })
    }
}

proof fn colors_in_turn(codes: Seq<String>, n: int, i: int)
    requires
        0 <= i < n <= codes.len(),
    ensures
        ({
            let found = codes.map_values(|code: String| code_color(code@)).take(n);
            &&& colors_in(found).len() == readable_before(codes, n)
            &&& 0 <= readable_before(codes, i) <= readable_before(codes, n)
            &&& code_color(codes[i]@) is Some ==> readable_before(codes, i) < colors_in(found).len() && colors_in(
                found,
            )[readable_before(codes, i)] == code_color(codes[i]@)->0
        }),
    decreases n,
{
    let all = codes.map_values(|code: String| code_color(code@));
    let found = all.take(n);
    reveal_with_fuel(colors_in, 2);
    reveal_with_fuel(readable_before, 2);
    assert(found.drop_last() =~= all.take(n - 1));
    if i < n - 1 {
        colors_in_turn(codes, n - 1, i);
    } else if n > 1 {
        colors_in_turn(codes, n - 1, 0);
    }
}

/// The palette begins with the colours of the user's codes: a code that can be
/// read has its colour in the place that the number of such codes before it gives.
pub proof fn palette_begins_with_the_named(codes: Vec<String>, i: int)
    requires
        0 <= i < codes@.len(),
    ensures
        named_colors(None::<Vec<String>>).len() == 0,
        named_colors(Some(codes)).len() == readable_before(codes@, codes@.len() as int),
        code_color(codes@[i]@) matches Some(c) ==> {
            &&& 0 <= readable_before(codes@, i) < padded(named_colors(Some(codes))).len()
            &&& padded(named_colors(Some(codes)))[readable_before(codes@, i)] == c
        },
{
    let n = codes@.len() as int;
    let all = codes@.map_values(|code: String| code_color(code@));
    colors_in_turn(codes@, n, i);
    assert(all.take(n) =~= all);
}

/// A palette holds the colours it is given, in their order, and at least 256 in
/// all. Those that stand in are opaque, repeat after twenty, and within twenty are
/// different from each other.
pub proof fn palette_is_filled_up(colors: Seq<Color>)
    ensures
        padded(colors).len() >= 256,
        colors.len() >= 256 ==> padded(colors) == colors,
        colors.len() < 256 ==> padded(colors).len() == 256,
        forall|i: int| 0 <= i < colors.len() ==> #[trigger] padded(colors)[i] == colors[i],
        forall|i: int| colors.len() <= i < padded(colors).len() ==> (#[trigger] padded(colors)[i]).a == 255,
        forall|i: int, j: int|
            colors.len() <= i < j < padded(colors).len() && j == i + 20 ==> #[trigger] padded(colors)[i]
                == #[trigger] padded(colors)[j],
        forall|i: int, j: int|
            colors.len() <= i < j < padded(colors).len() && j < i + 20 ==> #[trigger] padded(colors)[i]
                != #[trigger] padded(colors)[j],
{
    assert(colors.len() >= 256 ==> padded(colors) =~= colors);
    base_colors_differ();
    assert forall|i: int, j: int| colors.len() <= i < j < padded(colors).len() && j < i + 20 implies
        #[trigger] padded(colors)[i] != #[trigger] padded(colors)[j] by {
        assert(i % 20 != j % 20);
    }
}

proof fn base_colors_differ()
    ensures
        base_palette().len() == BASE_COLORS,
        forall|i: int| 0 <= i < BASE_COLORS ==> (#[trigger] base_palette()[i]).a == 255,
        forall|i: int, j: int|
            0 <= i < BASE_COLORS && 0 <= j < BASE_COLORS && i != j ==> #[trigger] base_palette()[i]
                != #[trigger] base_palette()[j],
{
}

/// The colour of a swatch while another series is highlighted.
pub fn dimmed(c: Color) -> (r: Color)
    ensures
        r == premultiplied(c.r, c.g, c.b, DIM_ALPHA),
        r.a == 80,
{
    color_from_unmultiplied(c.r, c.g, c.b, DIM_ALPHA)
}

} // verus!
