//! Bayer threshold matrices and ordered dithering.
//!
//! A matrix of order `N` holds the levels `0 .. N * N`, each exactly once; the
//! threshold of a cell is its level divided by `N * N`. Comparisons against a
//! threshold are made on integers, without rounding.

use vstd::prelude::*;
use crate::color::{Color, NamedColor, black, white, luma, color_luma};
use crate::raster::Image;
use crate::DitherError;

verus! {

pub open spec fn two_pow(k: nat) -> nat
    decreases k,
{
    if k == 0 {
        1
    } else {
        2 * two_pow((k - 1) as nat)
    }
}

pub open spec fn is_power_of_two(n: int) -> bool {
    exists|k: nat| two_pow(k) == n
}

/// Level offset of a quadrant when the matrix doubles: top left 0, top
/// right 2, bottom left 3, bottom right 1.
pub open spec fn quadrant_offset(lower: bool, right: bool) -> int {
    if !lower && !right {
        0
    } else if !lower {
        2
    } else if !right {
        3
    } else {
        1
    }
}

/// Level at row `i`, column `j` of the Bayer matrix of order `2^k`: each
/// doubling takes four times the level of the same cell in the half-size
/// matrix and adds the offset of the quadrant.
pub open spec fn bayer_level(k: nat, i: int, j: int) -> int
    decreases k,
{
    if k == 0 {
        0
    } else {
        let h = two_pow((k - 1) as nat) as int;
        let lower = i >= h;
        let right = j >= h;
        4 * bayer_level(
            (k - 1) as nat,
            if lower {
                i - h
            } else {
                i
            },
            if right {
                j - h
            } else {
                j
            },
        ) + quadrant_offset(lower, right)
    }
}

/// The cell of the Bayer matrix of order `2^k` that holds level `v`.
pub open spec fn bayer_cell(k: nat, v: int) -> (int, int)
    decreases k,
{
    if k == 0 {
        (0, 0)
    } else {
        let h = two_pow((k - 1) as nat) as int;
        let (i, j) = bayer_cell((k - 1) as nat, v / 4);
        let q = v % 4;
        if q == 0 {
            (i, j)
        } else if q == 2 {
            (i, j + h)
        } else if q == 3 {
            (i + h, j)
        } else {
            (i + h, j + h)
        }
    }
}

proof fn lemma_two_pow_pos(k: nat)
    ensures
        two_pow(k) >= 1,
    decreases k,
{
    if k > 0 {
        lemma_two_pow_pos((k - 1) as nat);
    }
}

proof fn lemma_two_pow_increases(a: nat, b: nat)
    requires
        a < b,
    ensures
        two_pow(a) < two_pow(b),
    decreases b,
{
    lemma_two_pow_pos((b - 1) as nat);
    if a < b - 1 {
        lemma_two_pow_increases(a, (b - 1) as nat);
    }
}

proof fn lemma_square_of_double(h: int)
    ensures
        (2 * h) * (2 * h) == 4 * (h * h),
{
    assert((2 * h) * (2 * h) == 4 * (h * h)) by (nonlinear_arith);
}

proof fn lemma_bayer_level_range(k: nat, i: int, j: int)
    requires
        0 <= i < two_pow(k),
        0 <= j < two_pow(k),
    ensures
        0 <= bayer_level(k, i, j) < two_pow(k) * two_pow(k),
    decreases k,
{
    if k > 0 {
        let h = two_pow((k - 1) as nat) as int;
        let ii = if i >= h {
            i - h
        } else {
            i
        };
        let jj = if j >= h {
            j - h
        } else {
            j
        };
        lemma_bayer_level_range((k - 1) as nat, ii, jj);
        lemma_square_of_double(h);
    }
}

proof fn lemma_bayer_cell(k: nat, v: int)
    requires
        0 <= v < two_pow(k) * two_pow(k),
    ensures
        0 <= bayer_cell(k, v).0 < two_pow(k),
        0 <= bayer_cell(k, v).1 < two_pow(k),
        bayer_level(k, bayer_cell(k, v).0, bayer_cell(k, v).1) == v,
    decreases k,
{
    if k == 0 {
        assert(two_pow(0) == 1);
        assert(two_pow(k) == 1);
        assert(two_pow(k) * two_pow(k) == 1) by (nonlinear_arith)
            requires
                two_pow(k) == 1,
        ;
        assert(v == 0);
        assert(bayer_cell(k, v) == (0int, 0int));
        assert(bayer_level(k, 0, 0) == 0);
    } else {
        let h = two_pow((k - 1) as nat) as int;
        lemma_square_of_double(h);
        lemma_bayer_cell((k - 1) as nat, v / 4);
        let (i0, j0) = bayer_cell((k - 1) as nat, v / 4);
        let (i, j) = bayer_cell(k, v);
        assert(i >= h <==> (v % 4 == 3 || v % 4 == 1));
        assert(j >= h <==> (v % 4 == 2 || v % 4 == 1));
        assert(quadrant_offset(i >= h, j >= h) == v % 4);
        assert(bayer_level(k, i, j) == 4 * bayer_level((k - 1) as nat, i0, j0) + v % 4);
        assert(4 * (v / 4) + v % 4 == v);
        assert(bayer_level(k, i, j) == v);
    }
}

proof fn lemma_bayer_injective(k: nat, i1: int, j1: int, i2: int, j2: int)
    requires
        0 <= i1 < two_pow(k),
        0 <= j1 < two_pow(k),
        0 <= i2 < two_pow(k),
        0 <= j2 < two_pow(k),
        bayer_level(k, i1, j1) == bayer_level(k, i2, j2),
    ensures
        i1 == i2,
        j1 == j2,
    decreases k,
{
    if k > 0 {
        let h = two_pow((k - 1) as nat) as int;
        let ii1 = if i1 >= h {
            i1 - h
        } else {
            i1
        };
        let jj1 = if j1 >= h {
            j1 - h
        } else {
            j1
        };
        let ii2 = if i2 >= h {
            i2 - h
        } else {
            i2
        };
        let jj2 = if j2 >= h {
            j2 - h
        } else {
            j2
        };
        let a1 = bayer_level((k - 1) as nat, ii1, jj1);
        let a2 = bayer_level((k - 1) as nat, ii2, jj2);
        assert(a1 == a2);
        assert(i1 >= h <==> i2 >= h);
        assert(j1 >= h <==> j2 >= h);
        lemma_bayer_injective((k - 1) as nat, ii1, jj1, ii2, jj2);
    }
}

/// Some cell of the Bayer matrix of order `2^k` holds level `v`.
pub open spec fn level_is_used(k: nat, v: int) -> bool {
    exists|i: int, j: int| 0 <= i < two_pow(k) && 0 <= j < two_pow(k) && #[trigger] bayer_level(k, i, j) == v
}

/// The Bayer matrix of order `N = 2^k` holds every level `0 .. N * N`
/// exactly once: every level is in range, no two cells share one, and each
/// level has a cell.
pub proof fn lemma_bayer_levels_are_a_permutation(k: nat)
    ensures
        forall|i: int, j: int|
            0 <= i < two_pow(k) && 0 <= j < two_pow(k) ==> 0 <= #[trigger] bayer_level(k, i, j)
                < two_pow(k) * two_pow(k),
        forall|i1: int, j1: int, i2: int, j2: int|
            0 <= i1 < two_pow(k) && 0 <= j1 < two_pow(k) && 0 <= i2 < two_pow(k) && 0 <= j2
                < two_pow(k) && #[trigger] bayer_level(k, i1, j1) == #[trigger] bayer_level(
                k,
                i2,
                j2,
            ) ==> i1 == i2 && j1 == j2,
        forall|v: int| 0 <= v < two_pow(k) * two_pow(k) ==> #[trigger] level_is_used(k, v),
{
    assert forall|i: int, j: int|
        0 <= i < two_pow(k) && 0 <= j < two_pow(k) implies 0 <= #[trigger] bayer_level(k, i, j)
        < two_pow(k) * two_pow(k) by {
        lemma_bayer_level_range(k, i, j);
    }
    assert forall|i1: int, j1: int, i2: int, j2: int|
        0 <= i1 < two_pow(k) && 0 <= j1 < two_pow(k) && 0 <= i2 < two_pow(k) && 0 <= j2 < two_pow(
            k,
        ) && #[trigger] bayer_level(k, i1, j1) == #[trigger] bayer_level(k, i2, j2) implies i1
        == i2 && j1 == j2 by {
        lemma_bayer_injective(k, i1, j1, i2, j2);
    }
    assert forall|v: int| 0 <= v < two_pow(k) * two_pow(k) implies #[trigger] level_is_used(k, v) by {
        lemma_bayer_cell(k, v);
        let (i, j) = bayer_cell(k, v);
        assert(bayer_level(k, i, j) == v);
    }
}

/// A square matrix of threshold levels: the threshold of row `i`, column `j`
/// is `levels[i][j] / (order * order)`.
#[derive(Clone, Debug)]
pub struct ThresholdMatrix {
    pub order: usize,
    pub levels: Vec<Vec<usize>>,
}

impl ThresholdMatrix {
    pub open spec fn level(&self, i: int, j: int) -> int {
        self.levels@[i]@[j] as int
    }

    /// `order` rows of `order` levels, each below `order * order`.
    pub open spec fn wf(&self) -> bool {
        &&& self.order > 0
        &&& self.order * self.order <= usize::MAX
        &&& self.levels@.len() == self.order
        &&& forall|i: int| 0 <= i < self.order ==> #[trigger] self.levels@[i]@.len() == self.order
        &&& forall|i: int, j: int|
            0 <= i < self.order && 0 <= j < self.order ==> #[trigger] self.level(i, j) < self.order
                * self.order
    }

    /// The matrix is the Bayer matrix of order `2^k`.
    pub open spec fn is_bayer(&self, k: nat) -> bool {
        &&& self.order == two_pow(k)
        &&& self.levels@.len() == self.order
        &&& forall|i: int| 0 <= i < self.order ==> #[trigger] self.levels@[i]@.len() == self.order
        &&& forall|i: int, j: int|
            0 <= i < self.order && 0 <= j < self.order ==> #[trigger] self.level(i, j)
                == bayer_level(k, i, j)
    }
}

/// From the Bayer matrix of order `h = 2^s`, the one of order `2 h`.
fn double_bayer(prev: &Vec<Vec<usize>>, h: usize, Ghost(s): Ghost<nat>) -> (next: Vec<Vec<usize>>)
    requires
        h == two_pow(s),
        2 * h * (2 * h) <= usize::MAX,
        prev@.len() == h,
        forall|i: int| 0 <= i < h ==> #[trigger] prev@[i]@.len() == h,
        forall|i: int, j: int|
            0 <= i < h && 0 <= j < h ==> #[trigger] prev@[i]@[j] as int == bayer_level(s, i, j),
    ensures
        next@.len() == 2 * h,
        forall|i: int| 0 <= i < 2 * h ==> #[trigger] next@[i]@.len() == 2 * h,
        forall|i: int, j: int|
            0 <= i < 2 * h && 0 <= j < 2 * h ==> #[trigger] next@[i]@[j] as int == bayer_level(
                s + 1,
                i,
                j,
            ),
{
    proof {
        lemma_two_pow_pos(s);
    }
    assert(2 * h <= 2 * h * (2 * h)) by (nonlinear_arith)
        requires
            h >= 1,
    ;
    let n = 2 * h;
    assert(two_pow(s + 1) == n);
    let mut next: Vec<Vec<usize>> = Vec::with_capacity(n);
    let mut i: usize = 0;
    while i < n
        invariant
            h == two_pow(s),
            n == 2 * h,
            n * n <= usize::MAX,
            two_pow(s + 1) == n,
            prev@.len() == h,
            forall|r: int| 0 <= r < h ==> #[trigger] prev@[r]@.len() == h,
            forall|r: int, c: int|
                0 <= r < h && 0 <= c < h ==> #[trigger] prev@[r]@[c] as int == bayer_level(s, r, c),
            i <= n,
            next@.len() == i,
            forall|r: int| 0 <= r < i ==> #[trigger] next@[r]@.len() == n,
            forall|r: int, c: int|
                0 <= r < i && 0 <= c < n ==> #[trigger] next@[r]@[c] as int == bayer_level(
                    s + 1,
                    r,
                    c,
                ),
        decreases n - i,
    {
        let lower = i >= h;
        let ii = if lower {
            i - h
        } else {
            i
        };
        let mut row: Vec<usize> = Vec::with_capacity(n);
        let mut j: usize = 0;
        while j < n
            invariant
                h == two_pow(s),
                n == 2 * h,
                n * n <= usize::MAX,
                two_pow(s + 1) == n,
                prev@.len() == h,
                forall|r: int| 0 <= r < h ==> #[trigger] prev@[r]@.len() == h,
                forall|r: int, c: int|
                    0 <= r < h && 0 <= c < h ==> #[trigger] prev@[r]@[c] as int == bayer_level(
                        s,
                        r,
                        c,
                    ),
                i < n,
                lower == (i >= h),
                ii == (if lower { i - h } else { i as int }),
                j <= n,
                row@.len() == j,
                forall|c: int| 0 <= c < j ==> #[trigger] row@[c] as int == bayer_level(s + 1, i as int, c),
            decreases n - j,
        {
            let right = j >= h;
            let jj = if right {
                j - h
            } else {
                j
            };
            let v = prev[ii][jj];
            proof {
                lemma_bayer_level_range(s, ii as int, jj as int);
                lemma_square_of_double(h as int);
            }
            let offset: usize = if !lower && !right {
                0
            } else if !lower {
                2
            } else if !right {
                3
            } else {
                1
            };
            row.push(4 * v + offset);
            j = j + 1;
        }
        next.push(row);
        i = i + 1;
    }
    next
}

/// The Bayer threshold matrix of the given order, built from the 1 by 1
/// matrix [0] by doubling. Fails exactly when `order` is not a power of two
/// (zero included).
pub fn generate_bayer_matrix(order: usize) -> (r: Result<ThresholdMatrix, DitherError>)
    requires
        order * order <= usize::MAX,
    ensures
        r is Ok <==> is_power_of_two(order as int),
        r is Err ==> r == Err::<ThresholdMatrix, DitherError>(DitherError::InvalidMatrixOrder),
        r matches Ok(m) ==> {
            &&& m.wf()
            &&& m.order == order
            &&& forall|k: nat| two_pow(k) == order ==> #[trigger] m.is_bayer(k)
        },
{
    let mut size: usize = 1;
    let ghost mut k: nat = 0;
    while size < order
        invariant
            order * order <= usize::MAX,
            size == two_pow(k),
            size >= 1,
            k > 0 ==> two_pow((k - 1) as nat) < order,
        decreases usize::MAX - size,
    {
        assert(2 * size <= order * order) by (nonlinear_arith)
            requires
                size < order,
                size >= 1,
        ;
        size = 2 * size;
        proof {
            k = k + 1;
        }
    }
    if size != order {
        proof {
            if is_power_of_two(order as int) {
                let k2 = choose|k2: nat| two_pow(k2) == order;
                if k2 < k {
                    if k2 < k - 1 {
                        lemma_two_pow_increases(k2, (k - 1) as nat);
                    }
                } else if k2 > k {
                    lemma_two_pow_increases(k, k2);
                }
            }
        }
        return Err(DitherError::InvalidMatrixOrder);
    }
    let mut levels: Vec<Vec<usize>> = vec![vec![0]];
    let mut h: usize = 1;
    let ghost mut s: nat = 0;
    while h < order
        invariant
            order == two_pow(k),
            order * order <= usize::MAX,
            h == two_pow(s),
            s <= k,
            levels@.len() == h,
            forall|i: int| 0 <= i < h ==> #[trigger] levels@[i]@.len() == h,
            forall|i: int, j: int|
                0 <= i < h && 0 <= j < h ==> #[trigger] levels@[i]@[j] as int == bayer_level(s, i, j),
        decreases order - h,
    {
        proof {
            if s == k {
                assert(false);
            }
            if s + 1 < k {
                lemma_two_pow_increases(s + 1, k);
            }
            lemma_two_pow_pos(s);
        }
        assert(2 * h * (2 * h) <= order * order) by (nonlinear_arith)
            requires
                2 * h <= order,
                h >= 1,
        ;
        levels = double_bayer(&levels, h, Ghost(s));
        h = 2 * h;
        proof {
            s = s + 1;
        }
    }
    let m = ThresholdMatrix { order, levels };
    proof {
        if s < k {
            lemma_two_pow_increases(s, k);
        }
        lemma_two_pow_pos(k);
        assert forall|i: int, j: int| 0 <= i < order && 0 <= j < order implies #[trigger] m.level(i, j)
            < m.order * m.order by {
            lemma_bayer_level_range(k, i, j);
        }
        assert forall|k2: nat| two_pow(k2) == order implies #[trigger] m.is_bayer(k2) by {
            if k2 < k {
                lemma_two_pow_increases(k2, k);
            } else if k2 > k {
                lemma_two_pow_increases(k, k2);
            }
        }
    }
    Ok(m)
}

/// One pixel of ordered dithering: `high` when its brightness, as a fraction
/// of 255, exceeds the threshold `level / (order * order)`; else `low`.
pub open spec fn ordered_pixel(c: Color, level: int, order: int, low: Color, high: Color) -> Color {
    if luma(c) * (order * order) > level * 255 {
        high
    } else {
        low
    }
}

/// Ordered dithering of a raster of width `w`: the matrix is tiled over the
/// image, the pixel at column `x`, row `y` meeting the threshold at row
/// `y % order`, column `x % order`.
pub open spec fn ordered_dither_spec(pixels: Seq<Color>, w: int, m: ThresholdMatrix, low: Color, high: Color) -> Seq<Color> {
    Seq::new(
        pixels.len(),
        |i: int|
            ordered_pixel(
                pixels[i],
                m.level((i / w) % (m.order as int), (i % w) % (m.order as int)),
                m.order as int,
                low,
                high,
            ),
    )
}

/// Ordered dithering of `img` against `matrix` onto two colours.
pub fn ordered_dither(img: &Image, matrix: &ThresholdMatrix, low: Color, high: Color) -> (out: Image)
    requires
        img.wf(),
        matrix.wf(),
    ensures
        out.width == img.width,
        out.height == img.height,
        out.pixels@ == ordered_dither_spec(img.pixels@, img.width as int, *matrix, low, high),
{
    let n = img.pixels.len();
    let w = img.width;
    let order = matrix.order;
    let mut pixels: Vec<Color> = Vec::with_capacity(n);
    let mut i: usize = 0;
    while i < n
        invariant
            n == img.pixels@.len(),
            n == w * img.height,
            w == img.width,
            order == matrix.order,
            matrix.wf(),
            i <= n,
            pixels@.len() == i,
            forall|j: int|
                0 <= j < i ==> #[trigger] pixels@[j] == ordered_dither_spec(
                    img.pixels@,
                    w as int,
                    *matrix,
                    low,
                    high,
                )[j],
        decreases n - i,
    {
        if w == 0 {
            assert(w * img.height == 0);
            assert(false);
        }
        let row = (i / w) % order;
        let col = (i % w) % order;
        let level = matrix.levels[row][col];
        let c = img.pixels[i];
        let l = color_luma(c);
        assert((l as u128) * ((order as u128) * (order as u128)) <= 255 * (order * order)) by (
        nonlinear_arith)
            requires
                l <= 255,
        ;
        assert((level as u128) * 255 <= usize::MAX * 255) by (nonlinear_arith)
            requires
                level <= usize::MAX,
        ;
        let brightness = (l as u128) * ((order as u128) * (order as u128));
        let threshold = (level as u128) * 255;
        pixels.push(
            if brightness > threshold {
                high
            } else {
                low
            },
        );
        i = i + 1;
    }
    assert(pixels@ =~= ordered_dither_spec(img.pixels@, w as int, *matrix, low, high));
    Image { width: img.width, height: img.height, pixels }
}

/// Ordered dithering onto black and white with the Bayer matrix of order 8.
pub fn apply_bayer_dithering(img: &Image) -> (out: Image)
    requires
        img.wf(),
    ensures
        out.width == img.width,
        out.height == img.height,
        out.pixels@.len() == img.pixels@.len(),
        forall|i: int|
            0 <= i < out.pixels@.len() ==> #[trigger] out.pixels@[i] == ordered_pixel(
                img.pixels@[i],
                bayer_level(3, (i / img.width as int) % 8, (i % img.width as int) % 8),
                8,
                black(),
                white(),
            ),
{
    proof {
        reveal_with_fuel(two_pow, 4);
    }
    assert(two_pow(3) == 8);
    match generate_bayer_matrix(8) {
        Ok(matrix) => {
            assert(matrix.is_bayer(3));
            let out = ordered_dither(
                img,
                &matrix,
                NamedColor::Black.to_color(),
                NamedColor::White.to_color(),
            );
            assert forall|i: int| 0 <= i < out.pixels@.len() implies #[trigger] out.pixels@[i]
                == ordered_pixel(
                img.pixels@[i],
                bayer_level(3, (i / img.width as int) % 8, (i % img.width as int) % 8),
                8,
                black(),
                white(),
            ) by {
                let r = (i / img.width as int) % 8;
                let c = (i % img.width as int) % 8;
                assert(0 <= r < 8 && 0 <= c < 8);
                assert(matrix.level(r, c) == bayer_level(3, r, c));
            }
            out
        },
        Err(_) => {
            assert(is_power_of_two(8));
            img.clone()
        },
    }
}

/// With black as the low colour and white as the high one, ordered dithering
/// leaves black and white pixels as they are; so dithering an image twice
/// gives the result of dithering it once.
pub proof fn lemma_ordered_dither_idempotent(pixels: Seq<Color>, w: int, m: ThresholdMatrix)
    requires
        m.wf(),
        w > 0,
    ensures
        (forall|i: int| 0 <= i < pixels.len() ==> #[trigger] pixels[i] == black() || pixels[i] == white())
            ==> ordered_dither_spec(pixels, w, m, black(), white()) == pixels,
        ordered_dither_spec(ordered_dither_spec(pixels, w, m, black(), white()), w, m, black(), white())
            == ordered_dither_spec(pixels, w, m, black(), white()),
{
    assert forall|c: Color, i: int| (c == black() || c == white()) && 0 <= i < pixels.len()
        implies #[trigger] ordered_pixel(c, m.level((i / w) % (m.order as int), (i % w) % (m.order as int)), m.order as int, black(), white()) == c by {
        let r = (i / w) % (m.order as int);
        let col = (i % w) % (m.order as int);
        assert(0 <= r < m.order && 0 <= col < m.order);
        let lv = m.level(r, col);
        assert(lv < m.order * m.order);
        assert(luma(black()) == 0);
        assert(luma(white()) == 255);
        assert(lv * 255 < 255 * (m.order * m.order)) by (nonlinear_arith)
            requires
                lv < m.order * m.order,
        ;
        assert(0 * (m.order * m.order) == 0);
        assert(lv >= 0);
    }
    let once = ordered_dither_spec(pixels, w, m, black(), white());
    assert(ordered_dither_spec(once, w, m, black(), white()) =~= once);
    if forall|i: int| 0 <= i < pixels.len() ==> #[trigger] pixels[i] == black() || pixels[i] == white() {
        assert(ordered_dither_spec(pixels, w, m, black(), white()) =~= pixels);
    }
}

} // verus!
