//! Nearest-colour matching against an ordered palette.

use vstd::prelude::*;
use crate::color::{Color, NamedColor, dist2, black, white, named_rgb, color_distance, lemma_dist2_zero, sq};
use crate::raster::Image;
use crate::DitherError;

verus! {

/// Index of the first entry among `pal[0..n]` at minimal distance from `c`.
pub open spec fn nearest_index_upto(c: Color, pal: Seq<Color>, n: int) -> int
    decreases n,
{
    if n <= 1 {
        0
    } else {
        let k = nearest_index_upto(c, pal, n - 1);
        if dist2(c, pal[n - 1]) < dist2(c, pal[k]) {
            n - 1
        } else {
            k
        }
    }
}

/// Index of the palette entry that `c` is quantised to.
pub open spec fn nearest_index(c: Color, pal: Seq<Color>) -> int {
    nearest_index_upto(c, pal, pal.len() as int)
}

/// The palette entry that `c` is quantised to.
pub open spec fn nearest(c: Color, pal: Seq<Color>) -> Color {
    pal[nearest_index(c, pal)]
}

/// `i` is the first index of `pal` whose entry is at minimal distance from `c`.
pub open spec fn is_first_nearest(c: Color, pal: Seq<Color>, i: int) -> bool {
    &&& 0 <= i < pal.len()
    &&& forall|j: int| 0 <= j < pal.len() ==> dist2(c, pal[i]) <= dist2(c, #[trigger] pal[j])
    &&& forall|j: int| 0 <= j < i ==> dist2(c, #[trigger] pal[j]) > dist2(c, pal[i])
}

proof fn lemma_nearest_upto(c: Color, pal: Seq<Color>, n: int)
    requires
        1 <= n <= pal.len(),
    ensures
        0 <= nearest_index_upto(c, pal, n) < n,
        forall|j: int|
            0 <= j < n ==> dist2(c, pal[nearest_index_upto(c, pal, n)]) <= dist2(
                c,
                #[trigger] pal[j],
            ),
        forall|j: int|
            0 <= j < nearest_index_upto(c, pal, n) ==> dist2(c, #[trigger] pal[j]) > dist2(
                c,
                pal[nearest_index_upto(c, pal, n)],
            ),
    decreases n,
{
    if n > 1 {
        lemma_nearest_upto(c, pal, n - 1);
    }
}

/// The matched entry is the first one, in palette order, at minimal distance.
pub proof fn lemma_nearest_index_is_first_minimum(c: Color, pal: Seq<Color>)
    requires
        pal.len() > 0,
    ensures
        is_first_nearest(c, pal, nearest_index(c, pal)),
{
    lemma_nearest_upto(c, pal, pal.len() as int);
}

/// A colour that the palette holds is matched to itself.
pub proof fn lemma_nearest_of_member(c: Color, pal: Seq<Color>)
    requires
        pal.contains(c),
    ensures
        nearest(c, pal) == c,
{
    let j = choose|j: int| 0 <= j < pal.len() && pal[j] == c;
    lemma_nearest_index_is_first_minimum(c, pal);
    lemma_dist2_zero(c, c);
    lemma_dist2_zero(c, nearest(c, pal));
    assert(dist2(c, nearest(c, pal)) <= dist2(c, pal[j]));
}

/// Matching against a palette of one colour gives back that colour.
pub proof fn lemma_single_entry_palette(c: Color)
    ensures
        nearest(c, seq![c]) == c,
{
    assert(seq![c][0] == c);
    lemma_nearest_of_member(c, seq![c]);
}

/// Against the palette [black, white], a colour goes to black exactly when the
/// mean of its three channels is below half of 255, and to white otherwise.
/// No colour lies on the boundary, so the answer never depends on a tie.
pub proof fn lemma_black_white_split(c: Color)
    ensures
        nearest(c, seq![black(), white()]) == if 2 * (c.r + c.g + c.b) < 765 {
            black()
        } else {
            white()
        },
        2 * (c.r + c.g + c.b) != 765,
{
    let pal = seq![black(), white()];
    assert(pal[0] == black() && pal[1] == white());
    let (r, g, b) = (c.r as int, c.g as int, c.b as int);
    assert(dist2(c, white()) - dist2(c, black()) == 3 * 65025 - 510 * (r + g + b)) by (
    nonlinear_arith)
        requires
            dist2(c, white()) == sq(r - 255) + sq(g - 255) + sq(b - 255),
            dist2(c, black()) == sq(r - 0) + sq(g - 0) + sq(b - 0),
            sq(r - 255) == (r - 255) * (r - 255),
            sq(g - 255) == (g - 255) * (g - 255),
            sq(b - 255) == (b - 255) * (b - 255),
            sq(r - 0) == r * r,
            sq(g - 0) == g * g,
            sq(b - 0) == b * b,
    ;
    assert(nearest_index_upto(c, pal, 1) == 0);
    assert(nearest_index(c, pal) == nearest_index_upto(c, pal, 2));
}

/// Index of the entry of a non-empty palette that `color` is quantised to.
pub fn nearest_color_index(color: Color, palette: &[Color]) -> (i: usize)
    requires
        palette@.len() > 0,
    ensures
        i as int == nearest_index(color, palette@),
        is_first_nearest(color, palette@, i as int),
{
    let mut best: usize = 0;
    let mut best_dist = color_distance(color, palette[0]);
    let mut k: usize = 1;
    while k < palette.len()
        invariant
            1 <= k <= palette@.len(),
            best as int == nearest_index_upto(color, palette@, k as int),
            best < k,
            best_dist as int == dist2(color, palette@[best as int]),
        decreases palette@.len() - k,
    {
        let d = color_distance(color, palette[k]);
        if d < best_dist {
            best = k;
            best_dist = d;
        }
        k = k + 1;
    }
    proof {
        lemma_nearest_index_is_first_minimum(color, palette@);
    }
    best
}

/// The palette entry closest to `color`; the first such entry on ties.
/// Fails exactly when the palette is empty.
pub fn nearest_color(color: Color, palette: &[Color]) -> (r: Result<Color, DitherError>)
    ensures
        palette@.len() == 0 <==> r is Err,
        r is Err ==> r == Err::<Color, DitherError>(DitherError::InvalidPalette),
        r is Ok ==> r == Ok::<Color, DitherError>(nearest(color, palette@)),
{
    if palette.len() == 0 {
        Err(DitherError::InvalidPalette)
    } else {
        let i = nearest_color_index(color, palette);
        Ok(palette[i])
    }
}

/// Every pixel replaced by its nearest palette entry (flat quantisation, no
/// dithering). Fails exactly when the palette is empty.
pub fn reduce_to_palette(img: &Image, palette: &[Color]) -> (r: Result<Image, DitherError>)
    requires
        img.wf(),
    ensures
        palette@.len() == 0 <==> r is Err,
        r is Err ==> r == Err::<Image, DitherError>(DitherError::InvalidPalette),
        r matches Ok(out) ==> {
            &&& out.wf()
            &&& out.width == img.width
            &&& out.height == img.height
            &&& forall|i: int|
                0 <= i < out.pixels@.len() ==> #[trigger] out.pixels@[i] == nearest(
                    img.pixels@[i],
                    palette@,
                )
        },
{
    if palette.len() == 0 {
        return Err(DitherError::InvalidPalette);
    }
    let n = img.pixels.len();
    let mut pixels: Vec<Color> = Vec::with_capacity(n);
    let mut i: usize = 0;
    while i < n
        invariant
            n == img.pixels@.len(),
            palette@.len() > 0,
            i <= n,
            pixels@.len() == i,
            forall|j: int|
                0 <= j < i ==> #[trigger] pixels@[j] == nearest(img.pixels@[j], palette@),
        decreases n - i,
    {
        let k = nearest_color_index(img.pixels[i], palette);
        pixels.push(palette[k]);
        i = i + 1;
    }
    Ok(Image { width: img.width, height: img.height, pixels })
}

/// The colours that flat quantisation chooses from, in order.
pub open spec fn basic_colors() -> Seq<Color> {
    seq![
        named_rgb(NamedColor::Black),
        named_rgb(NamedColor::White),
        named_rgb(NamedColor::Red),
        named_rgb(NamedColor::Blue),
        named_rgb(NamedColor::Green),
    ]
}

/// The first `n` colours of black, white, red, blue, green. A reduction needs
/// at least two colours and there are five: any other `n` is refused.
pub fn limited_palette(n: usize) -> (r: Result<Vec<Color>, DitherError>)
    ensures
        r is Ok <==> 2 <= n <= 5,
        r is Err ==> r == Err::<Vec<Color>, DitherError>(DitherError::InvalidPalette),
        r matches Ok(p) ==> p@ == basic_colors().take(n as int),
{
    if n < 2 || n > 5 {
        return Err(DitherError::InvalidPalette);
    }
    let all = vec![
        NamedColor::Black.to_color(),
        NamedColor::White.to_color(),
        NamedColor::Red.to_color(),
        NamedColor::Blue.to_color(),
        NamedColor::Green.to_color(),
    ];
    let mut p: Vec<Color> = Vec::new();
    let mut i: usize = 0;
    while i < n
        invariant
            2 <= n <= 5,
            all@ == basic_colors(),
            i <= n,
            p@ == basic_colors().take(i as int),
        decreases n - i,
    {
        p.push(all[i]);
        assert(basic_colors().take(i + 1) == basic_colors().take(i as int).push(all@[i as int]));
        i = i + 1;
    }
    Ok(p)
}

} // verus!
