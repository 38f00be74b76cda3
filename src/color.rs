//! Colours, their brightness and the distance between them.

use vstd::prelude::*;

verus! {

/// An 8-bit RGB colour.
#[derive(Clone, Copy, Debug, PartialEq, Eq, Structural)]
pub struct Color {
    pub r: u8,
    pub g: u8,
    pub b: u8,
}

/// The fixed colours that the command line can name.
#[derive(Clone, Copy, Debug, PartialEq, Eq, Structural)]
pub enum NamedColor {
    Black,
    White,
    Grey,
    Red,
    Green,
    Blue,
    Yellow,
    Cyan,
    Magenta,
}

pub open spec fn rgb(r: u8, g: u8, b: u8) -> Color {
    Color { r, g, b }
}

pub open spec fn named_rgb(n: NamedColor) -> Color {
    match n {
        NamedColor::Black => rgb(0, 0, 0),
        NamedColor::White => rgb(255, 255, 255),
        NamedColor::Grey => rgb(127, 127, 127),
        NamedColor::Red => rgb(255, 0, 0),
        NamedColor::Green => rgb(0, 255, 0),
        NamedColor::Blue => rgb(0, 0, 255),
        NamedColor::Yellow => rgb(255, 255, 0),
        NamedColor::Cyan => rgb(0, 255, 255),
        NamedColor::Magenta => rgb(255, 0, 255),
    }
}

pub open spec fn black() -> Color {
    rgb(0, 0, 0)
}

pub open spec fn white() -> Color {
    rgb(255, 255, 255)
}

impl NamedColor {
    /// The RGB value of this named colour.
    pub fn to_color(self) -> (c: Color)
        ensures
            c == named_rgb(self),
    {
        match self {
            NamedColor::Black => Color { r: 0, g: 0, b: 0 },
            NamedColor::White => Color { r: 255, g: 255, b: 255 },
            NamedColor::Grey => Color { r: 127, g: 127, b: 127 },
            NamedColor::Red => Color { r: 255, g: 0, b: 0 },
            NamedColor::Green => Color { r: 0, g: 255, b: 0 },
            NamedColor::Blue => Color { r: 0, g: 0, b: 255 },
            NamedColor::Yellow => Color { r: 255, g: 255, b: 0 },
            NamedColor::Cyan => Color { r: 0, g: 255, b: 255 },
            NamedColor::Magenta => Color { r: 255, g: 0, b: 255 },
        }
    }
}

/// Brightness of a colour on 0..=255: the sRGB/Rec. 709 weighting
/// 0.2126 R + 0.7152 G + 0.0722 B, rounded down.
pub open spec fn luma(c: Color) -> int {
    (2126 * c.r + 7152 * c.g + 722 * c.b) / 10000
}

/// Relies on `image::Pixel::to_luma` for `Rgb<u8>`, which computes
/// `(2126 r + 7152 g + 722 b) / 10000` in `u32` and clamps it to `u8`.
#[verifier::external_body]
fn luma_of_rgb(c: Color) -> (l: u8)
    ensures
        l as int == luma(c),
{
    image::Pixel::to_luma(&image::Rgb([c.r, c.g, c.b])).0[0]
}

/// Brightness of a colour as the `image` crate computes it.
pub fn color_luma(c: Color) -> (l: u8)
    ensures
        l as int == luma(c),
{
    luma_of_rgb(c)
}

pub open spec fn sq(d: int) -> int {
    d * d
}

/// Square of the Euclidean distance between two colours over (R, G, B).
pub open spec fn dist2(a: Color, b: Color) -> int {
    sq(a.r - b.r) + sq(a.g - b.g) + sq(a.b - b.b)
}

fn channel_diff_sq(a: u8, b: u8) -> (d: u32)
    ensures
        d as int == sq(a - b),
        d <= 65025,
{
    let diff: u32 = if a >= b {
        (a - b) as u32
    } else {
        (b - a) as u32
    };
    assert(diff * diff <= 255 * 255) by (nonlinear_arith)
        requires
            diff <= 255,
    ;
    assert(sq(a - b) == diff * diff) by (nonlinear_arith)
        requires
            diff == a - b || diff == b - a,
    ;
    diff * diff
}

/// Distance between two colours, given as the square of their Euclidean
/// distance over (R, G, B). The square is exact in integers and orders pairs of
/// colours exactly as the distance itself does.
pub fn color_distance(color1: Color, color2: Color) -> (d: u32)
    ensures
        d as int == dist2(color1, color2),
{
    channel_diff_sq(color1.r, color2.r) + channel_diff_sq(color1.g, color2.g) + channel_diff_sq(
        color1.b,
        color2.b,
    )
}

/// Two colours are at distance zero exactly when they are equal.
pub proof fn lemma_dist2_zero(a: Color, b: Color)
    ensures
        dist2(a, b) >= 0,
        dist2(a, b) == 0 <==> a == b,
{
    lemma_sq_zero(a.r - b.r);
    lemma_sq_zero(a.g - b.g);
    lemma_sq_zero(a.b - b.b);
}

proof fn lemma_sq_zero(d: int)
    ensures
        sq(d) >= 0,
        sq(d) == 0 <==> d == 0,
{
    assert(d * d >= 0) by (nonlinear_arith);
    assert(d != 0 ==> d * d > 0) by (nonlinear_arith);
}

/// The colour that a name of the command line stands for: "noir", "blanc",
/// "gris", "rouge", "vert", "bleu", "jaune", "cyan", "magenta"; any other
/// name stands for black.
pub open spec fn color_for_name(s: Seq<char>) -> Color {
    if s == "blanc"@ {
        named_rgb(NamedColor::White)
    } else if s == "gris"@ {
        named_rgb(NamedColor::Grey)
    } else if s == "rouge"@ {
        named_rgb(NamedColor::Red)
    } else if s == "vert"@ {
        named_rgb(NamedColor::Green)
    } else if s == "bleu"@ {
        named_rgb(NamedColor::Blue)
    } else if s == "jaune"@ {
        named_rgb(NamedColor::Yellow)
    } else if s == "cyan"@ {
        named_rgb(NamedColor::Cyan)
    } else if s == "magenta"@ {
        named_rgb(NamedColor::Magenta)
    } else {
        named_rgb(NamedColor::Black)
    }
}

fn same_text(a: &str, b: &str) -> (r: bool)
    ensures
        r == (a@ == b@),
{
    let n = a.unicode_len();
    if n != b.unicode_len() {
        return false;
    }
    let mut i: usize = 0;
    while i < n
        invariant
            n == a@.len(),
            n == b@.len(),
            i <= n,
            a@.take(i as int) == b@.take(i as int),
        decreases n - i,
    {
        if a.get_char(i) != b.get_char(i) {
            assert(a@[i as int] != b@[i as int]);
            return false;
        }
        assert(a@.take(i + 1) == a@.take(i as int).push(a@[i as int]));
        assert(b@.take(i + 1) == b@.take(i as int).push(b@[i as int]));
        i = i + 1;
    }
    assert(a@.take(n as int) == a@);
    assert(b@.take(n as int) == b@);
    true
}

/// The colour named by `couleur` (see `color_for_name`); black for an
/// unknown name.
pub fn string_to_color(couleur: &str) -> (c: Color)
    ensures
        c == color_for_name(couleur@),
{
    let named = if same_text(couleur, "blanc") {
        NamedColor::White
    } else if same_text(couleur, "gris") {
        NamedColor::Grey
    } else if same_text(couleur, "rouge") {
        NamedColor::Red
    } else if same_text(couleur, "vert") {
        NamedColor::Green
    } else if same_text(couleur, "bleu") {
        NamedColor::Blue
    } else if same_text(couleur, "jaune") {
        NamedColor::Yellow
    } else if same_text(couleur, "cyan") {
        NamedColor::Cyan
    } else if same_text(couleur, "magenta") {
        NamedColor::Magenta
    } else {
        NamedColor::Black
    };
    named.to_color()
}

} // verus!
