//! Colors: real RGB values, theme palettes, and the legacy indexed palette.
use crate::number;
use crate::number::Number;
use crate::text;
use vstd::prelude::*;

verus! {

/// A real RGB value.
#[derive(Debug, Clone, Copy, PartialEq, Eq, Structural)]
pub struct Rgb {
    pub r: u8,
    pub g: u8,
    pub b: u8,
}

impl Default for Rgb {
    /// Black.
    fn default() -> (c: Rgb)
        ensures
            c == (Rgb { r: 0, g: 0, b: 0 }),
    {
        Rgb { r: 0, g: 0, b: 0 }
    }
}

/// The twelve colors of a theme, in the order in which cells refer to them:
/// `lt1`, `dk1`, `lt2`, `dk2`, the six accents, `hlink`, `folHlink`.
#[derive(Debug, Clone, Copy, PartialEq, Eq)]
pub struct ThemePalette(pub [Rgb; 12]);

/// A cell fill's color as the stylesheet states it.
#[derive(Debug, PartialEq)]
pub enum ColorRef {
    /// An eight-digit ARGB text, kept as it is written.
    Rgb(String),
    /// An index into the theme's palette, with an optional luminance adjustment.
    Theme { index: u32, tint: Option<Number> },
    /// An index into the legacy palette.
    Indexed(u32),
}

/// A color reference as contracts speak of it.
#[verifier::ext_equal]
pub enum ColorView {
    Rgb(Seq<char>),
    Theme { index: u32, tint: Option<Seq<char>> },
    Indexed(u32),
}

impl View for ColorRef {
    type V = ColorView;

    open spec fn view(&self) -> ColorView {
        match *self {
            ColorRef::Rgb(s) => ColorView::Rgb(s@),
            ColorRef::Theme { index, tint } => ColorView::Theme {
                index,
                tint: number::number_opt(tint),
            },
            ColorRef::Indexed(i) => ColorView::Indexed(i),
        }
    }
}

impl Clone for ColorRef {
    fn clone(&self) -> (c: ColorRef)
        ensures
            c@ == self@,
    {
        match self {
            ColorRef::Rgb(s) => ColorRef::Rgb(s.clone()),
            ColorRef::Theme { index, tint } => ColorRef::Theme {
                index: *index,
                tint: number::copy_number(tint),
            },
            ColorRef::Indexed(i) => ColorRef::Indexed(*i),
        }
    }
}

/// The view of an optional color reference.
pub open spec fn color_opt(c: Option<ColorRef>) -> Option<ColorView> {
    match c {
        Some(v) => Some(v@),
        None => None,
    }
}

/// A copy of an optional color reference.
pub fn copy_opt(c: &Option<ColorRef>) -> (r: Option<ColorRef>)
    ensures
        color_opt(r) == color_opt(*c),
{
    match c {
        Some(v) => Some(v.clone()),
        None => None,
    }
}

/// The color that a 24-bit number denotes: red, green, blue from the top.
pub open spec fn rgb_of(hex: int) -> Rgb {
    Rgb {
        r: (hex / 0x1_0000 % 0x100) as u8,
        g: (hex / 0x100 % 0x100) as u8,
        b: (hex % 0x100) as u8,
    }
}

/// Takes a 24-bit number apart into a color; what is above is ignored.
pub fn rgb(hex: u32) -> (c: Rgb)
    ensures
        c == rgb_of(hex as int),
{
    Rgb { r: (hex / 0x1_0000 % 0x100) as u8, g: (hex / 0x100 % 0x100) as u8, b: (hex % 0x100) as u8 }
}

/// The legacy palette, as 24-bit numbers.
pub const INDEXED_PALETTE: [u32; 64] = [
    0x000000,
    0xFFFFFF,
    0xFF0000,
    0x00FF00,
    0x0000FF,
    0xFFFF00,
    0xFF00FF,
    0x00FFFF,
    0x000000,
    0xFFFFFF,
    0xFF0000,
    0x00FF00,
    0x0000FF,
    0xFFFF00,
    0xFF00FF,
    0x00FFFF,
    0x800000,
    0x008000,
    0x000080,
    0x808000,
    0x800080,
    0x008080,
    0xC0C0C0,
    0x808080,
    0x9999FF,
    0x993366,
    0xFFFFCC,
    0xCCFFFF,
    0x660066,
    0xFF8080,
    0x0066CC,
    0xCCCCFF,
    0x000080,
    0xFF00FF,
    0xFFFF00,
    0x00FFFF,
    0x800080,
    0x800000,
    0x008080,
    0x0000FF,
    0x00CCFF,
    0xCCFFFF,
    0xCCFFCC,
    0xFFFF99,
    0x99CCFF,
    0xFF99CC,
    0xCC99FF,
    0xFFCC99,
    0x3366FF,
    0x33CCCC,
    0x99CC00,
    0xFFCC00,
    0xFF9900,
    0xFF6600,
    0x666699,
    0x969696,
    0x003366,
    0x339966,
    0x003300,
    0x333300,
    0x993300,
    0x993366,
    0x333399,
    0x333333,
];

/// The color of a legacy index: the palette below 64, black and white for the
/// two system colors, nothing above.
pub open spec fn indexed_color(index: u32) -> Option<Rgb> {
    if index < 64 {
        Some(rgb_of(INDEXED_PALETTE@[index as int] as int))
    } else if index == 64 {
        Some(Rgb { r: 0, g: 0, b: 0 })
    } else if index == 65 {
        Some(Rgb { r: 0xFF, g: 0xFF, b: 0xFF })
    } else {
        None
    }
}

/// Looks a legacy index up.
pub fn lookup_indexed_color(index: u32) -> (c: Option<Rgb>)
    ensures
        c == indexed_color(index),
{
    if index < 64 {
        Some(rgb(INDEXED_PALETTE[index as usize]))
    } else if index == 64 {
        Some(Rgb { r: 0, g: 0, b: 0 })
    } else if index == 65 {
        Some(Rgb { r: 0xFF, g: 0xFF, b: 0xFF })
    } else {
        None
    }
}

/// The color that `n` hexadecimal digits denote; digits above the last six do
/// not count.
pub open spec fn hex_color(s: Seq<char>, n: nat) -> Option<Rgb> {
    if s.len() == n && text::all_hex(s) {
        Some(rgb_of(text::hex_value(s)))
    } else {
        None
    }
}

/// The hexadecimal digit of a number below sixteen, in upper or lower case.
pub open spec fn hex_char(n: int, upper: bool) -> char {
    if n < 10 {
        ('0' as int + n) as char
    } else if upper {
        ('A' as int + n - 10) as char
    } else {
        ('a' as int + n - 10) as char
    }
}

/// The two hexadecimal digits of a byte.
pub open spec fn hex_pair(n: u8, upper: bool) -> Seq<char> {
    seq![hex_char(n as int / 16, upper), hex_char(n as int % 16, upper)]
}

proof fn lemma_hex_pair(front: Seq<char>, n: u8, upper: bool)
    requires
        text::all_hex(front),
    ensures
        text::all_hex(front + hex_pair(n, upper)),
        text::hex_value(front + hex_pair(n, upper)) == text::hex_value(front) * 256 + n,
{
    let pair = hex_pair(n, upper);
    let s = front + pair;
    let one = front.push(pair[0]);
    assert(s.drop_last() =~= one);
    assert(one.drop_last() =~= front);
    assert(text::is_hex_digit(pair[0]) && text::is_hex_digit(pair[1]));
    assert forall|i: int| 0 <= i < s.len() implies text::is_hex_digit(#[trigger] s[i]) by {
        if i < front.len() {
            assert(s[i] == front[i]);
        }
    }
    assert(text::hex_digit_value(pair[0]) == n as int / 16);
    assert(text::hex_digit_value(pair[1]) == n as int % 16);
    assert(one.last() == pair[0] && s.last() == pair[1]);
    assert(text::hex_value(one) == text::hex_value(front) * 16 + n as int / 16);
    assert(text::hex_value(s) == text::hex_value(one) * 16 + n as int % 16);
}

proof fn lemma_rgb_of(front: int, c: Rgb)
    requires
        0 <= front,
    ensures
        rgb_of(((front * 256 + c.r) * 256 + c.g) * 256 + c.b) == c,
{
    let x = front * 256 + c.r;
    let y = x * 256 + c.g;
    let z = y * 256 + c.b;
    assert(z / 0x100 == y && z % 0x100 == c.b);
    assert(y / 0x100 == x && y % 0x100 == c.g);
    assert(x % 0x100 == c.r);
    assert(z / 0x1_0000 == x) by {
        assert(z == x * 0x1_0000 + c.g * 256 + c.b);
    }
}

/// Six hexadecimal digits read as red, green and blue, two digits each; eight of them
/// have two for the opacity in front, which have no say in the color.
#[verifier::spinoff_prover]
#[verifier::rlimit(60)]
pub proof fn law_hexadecimal_colors_read_back(c: Rgb, alpha: u8, upper: bool)
    ensures
        hex_color(
            hex_pair(c.r, upper) + hex_pair(c.g, upper) + hex_pair(c.b, upper),
            6,
        ) == Some(c),
        hex_color(
            hex_pair(alpha, upper) + hex_pair(c.r, upper) + hex_pair(c.g, upper) + hex_pair(
                c.b,
                upper,
            ),
            8,
        ) == Some(c),
{
    let none = Seq::<char>::empty();
    let r = hex_pair(c.r, upper);
    let g = hex_pair(c.g, upper);
    let b = hex_pair(c.b, upper);
    let a = hex_pair(alpha, upper);
    lemma_hex_pair(none, c.r, upper);
    assert(none + r =~= r);
    lemma_hex_pair(r, c.g, upper);
    lemma_hex_pair(r + g, c.b, upper);
    lemma_hex_pair(none, alpha, upper);
    assert(none + a =~= a);
    lemma_hex_pair(a, c.r, upper);
    lemma_hex_pair(a + r, c.g, upper);
    lemma_hex_pair(a + r + g, c.b, upper);
    assert(text::hex_value(none) == 0);
    lemma_rgb_of(0, c);
    lemma_rgb_of(alpha as int, c);
    let six = text::hex_value(r + g + b);
    let eight = text::hex_value(a + r + g + b);
    assert(six == ((0 * 256 + c.r) * 256 + c.g) * 256 + c.b);
    assert(eight == ((alpha * 256 + c.r) * 256 + c.g) * 256 + c.b);
}

/// A text of another length, or with something else than hexadecimal digits in it, is
/// no color.
pub proof fn law_other_texts_are_no_colors(s: Seq<char>, n: nat, i: int)
    requires
        s.len() != n || (0 <= i < s.len() && !text::is_hex_digit(s[i])),
    ensures
        hex_color(s, n) is None,
{
}

/// The legacy palette begins with black, white, red, green, blue, yellow, magenta and
/// cyan, twice over; 64 and 65 are the system's black and white, and there is nothing
/// above.
pub proof fn law_the_legacy_palette_begins_with_plain_colors(i: u32)
    ensures
        i < 8 ==> indexed_color((i + 8) as u32) == indexed_color(i),
        indexed_color(0) == Some(Rgb { r: 0, g: 0, b: 0 }),
        indexed_color(1) == Some(Rgb { r: 255, g: 255, b: 255 }),
        indexed_color(2) == Some(Rgb { r: 255, g: 0, b: 0 }),
        indexed_color(3) == Some(Rgb { r: 0, g: 255, b: 0 }),
        indexed_color(4) == Some(Rgb { r: 0, g: 0, b: 255 }),
        indexed_color(5) == Some(Rgb { r: 255, g: 255, b: 0 }),
        indexed_color(6) == Some(Rgb { r: 255, g: 0, b: 255 }),
        indexed_color(7) == Some(Rgb { r: 0, g: 255, b: 255 }),
        indexed_color(64) == indexed_color(0),
        indexed_color(65) == indexed_color(1),
        i > 65 ==> indexed_color(i) is None,
        i <= 65 ==> indexed_color(i) is Some,
{
}

fn parse_hex_color(s: &str, n: usize) -> (c: Option<Rgb>)
    requires
        n <= 8,
    ensures
        c == hex_color(s@, n as nat),
{
    let chars: Vec<char> = text::to_chars(s);
    if chars.len() != n {
        return None;
    }
    match text::parse_hex(&chars) {
        None => None,
        Some(v) => Some(rgb(v)),
    }
}

/// Reads an eight-digit ARGB text; the two alpha digits are checked and left out.
pub fn parse_argb_hex(s: &str) -> (c: Option<Rgb>)
    ensures
        c == hex_color(s@, 8),
{
    parse_hex_color(s, 8)
}

/// Reads a six-digit RGB text.
pub fn parse_hex6(s: &str) -> (c: Option<Rgb>)
    ensures
        c == hex_color(s@, 6),
{
    parse_hex_color(s, 6)
}

} // verus!
