//! Error diffusion: pixels are quantised in raster order and each pixel's
//! residual is pushed onto later neighbours through a weighted kernel.
//!
//! Kernel weights are rationals `weight / denominator`. A neighbour's channel
//! `v` receiving the residual `e` through weight `w / d` becomes
//! `v + e * w / d`, rounded down and clamped to 0..=255; nothing else is
//! rounded, so the arithmetic is exact.

use vstd::prelude::*;
use crate::color::{Color, NamedColor, black, white, luma, color_luma};
use crate::palette::{nearest, nearest_index, nearest_color_index, lemma_nearest_index_is_first_minimum, lemma_nearest_of_member};
use crate::raster::{Image, lemma_cell_index, lemma_index_cell};
use crate::DitherError;
use vstd::arithmetic::div_mod::{lemma_div_by_multiple, lemma_fundamental_div_mod, lemma_mod_pos_bound};

verus! {

/// The mathematical content of a diffusion kernel.
pub struct KernelGrid {
    /// Weight numerators, row by row.
    pub weights: Seq<Seq<i32>>,
    pub denominator: int,
    /// Column of the current pixel within the grid.
    pub origin_x: int,
    /// Row of the current pixel within the grid.
    pub origin_y: int,
}

impl KernelGrid {
    pub open spec fn width(self) -> int {
        self.weights[0].len() as int
    }

    pub open spec fn height(self) -> int {
        self.weights.len() as int
    }

    pub open spec fn weight(self, kx: int, ky: int) -> int {
        self.weights[ky][kx] as int
    }

    /// The cell at column `kx`, row `ky` comes at or before the origin in
    /// scan order.
    pub open spec fn at_or_before_origin(self, kx: int, ky: int) -> bool {
        ky < self.origin_y || (ky == self.origin_y && kx <= self.origin_x)
    }

    /// A non-empty rectangular grid with its origin inside, a positive
    /// denominator, and zero weight at and before the origin, so that error
    /// only ever moves forward in scan order.
    pub open spec fn wf(self) -> bool {
        &&& self.height() > 0
        &&& self.width() > 0
        &&& forall|ky: int| 0 <= ky < self.height() ==> #[trigger] self.weights[ky].len() == self.width()
        &&& 0 <= self.origin_x < self.width()
        &&& 0 <= self.origin_y < self.height()
        &&& self.denominator > 0
        &&& forall|kx: int, ky: int|
            0 <= kx < self.width() && 0 <= ky < self.height() && self.at_or_before_origin(kx, ky)
                ==> #[trigger] self.weights[ky][kx] == 0
    }
}

/// A diffusion kernel: a grid of weights `weights[ky][kx] / denominator` and
/// the position of the current pixel within it.
#[derive(Clone, Debug)]
pub struct DiffusionKernel {
    pub weights: Vec<Vec<i32>>,
    pub denominator: u32,
    pub origin_x: usize,
    pub origin_y: usize,
}

impl View for DiffusionKernel {
    type V = KernelGrid;

    open spec fn view(&self) -> KernelGrid {
        KernelGrid {
            weights: self.weights@.map_values(|row: Vec<i32>| row@),
            denominator: self.denominator as int,
            origin_x: self.origin_x as int,
            origin_y: self.origin_y as int,
        }
    }
}

/// Floyd–Steinberg: 7/16 to the right, 3/16 below left, 5/16 below and
/// 1/16 below right.
pub open spec fn floyd_steinberg_grid() -> KernelGrid {
    KernelGrid {
        weights: seq![seq![0i32, 0i32, 7i32], seq![3i32, 5i32, 1i32]],
        denominator: 16,
        origin_x: 1,
        origin_y: 0,
    }
}

/// Half of the error to the right, half below.
pub open spec fn half_right_half_down_grid() -> KernelGrid {
    KernelGrid {
        weights: seq![seq![0i32, 1i32], seq![1i32, 0i32]],
        denominator: 2,
        origin_x: 0,
        origin_y: 0,
    }
}

impl DiffusionKernel {
    pub open spec fn wf(&self) -> bool {
        self@.wf()
    }

    /// A kernel from its weight numerators (row by row), their common
    /// denominator and its origin. Fails exactly when the result would not
    /// be well formed.
    pub fn new(weights: Vec<Vec<i32>>, denominator: u32, origin_x: usize, origin_y: usize) -> (r:
        Result<DiffusionKernel, DitherError>)
        ensures
            r is Ok <==> (DiffusionKernel { weights, denominator, origin_x, origin_y }).wf(),
            r is Err ==> r == Err::<DiffusionKernel, DitherError>(DitherError::InvalidKernel),
            r matches Ok(k) ==> k == (DiffusionKernel { weights, denominator, origin_x, origin_y }),
    {
        let ghost g = (DiffusionKernel { weights, denominator, origin_x, origin_y })@;
        if weights.len() == 0 || denominator == 0 {
            return Err(DitherError::InvalidKernel);
        }
        assert(g.weights[0] == weights@[0]@);
        let kw = weights[0].len();
        let kh = weights.len();
        if kw == 0 || origin_x >= kw || origin_y >= kh {
            return Err(DitherError::InvalidKernel);
        }
        let mut ky: usize = 0;
        while ky < kh
            invariant
                kh == weights@.len(),
                kw == g.width(),
                g == (DiffusionKernel { weights, denominator, origin_x, origin_y })@,
                ky <= kh,
                forall|j: int| 0 <= j < ky ==> #[trigger] g.weights[j].len() == kw,
            decreases kh - ky,
        {
            assert(g.weights[ky as int] == weights@[ky as int]@);
            if weights[ky].len() != kw {
                return Err(DitherError::InvalidKernel);
            }
            ky = ky + 1;
        }
        let mut ky: usize = 0;
        while ky <= origin_y
            invariant
                kh == weights@.len(),
                kw == g.width(),
                origin_x < kw,
                origin_y < kh,
                g == (DiffusionKernel { weights, denominator, origin_x, origin_y })@,
                forall|j: int| 0 <= j < kh ==> #[trigger] g.weights[j].len() == kw,
                ky <= origin_y + 1,
                forall|kx: int, j: int|
                    0 <= kx < kw && 0 <= j < ky && g.at_or_before_origin(kx, j)
                        ==> #[trigger] g.weights[j][kx] == 0,
            decreases origin_y + 1 - ky,
        {
            let last = if ky < origin_y {
                kw
            } else {
                origin_x + 1
            };
            let mut kx: usize = 0;
            while kx < last
                invariant
                    kh == weights@.len(),
                    kw == g.width(),
                    origin_x < kw,
                    ky <= origin_y < kh,
                    last <= kw,
                    last == (if ky < origin_y { kw } else { (origin_x + 1) as usize }),
                    g == (DiffusionKernel { weights, denominator, origin_x, origin_y })@,
                    forall|j: int| 0 <= j < kh ==> #[trigger] g.weights[j].len() == kw,
                    kx <= last,
                    forall|c: int, j: int|
                        0 <= c < kw && 0 <= j < ky && g.at_or_before_origin(c, j)
                            ==> #[trigger] g.weights[j][c] == 0,
                    forall|c: int| 0 <= c < kx ==> #[trigger] g.weights[ky as int][c] == 0,
                decreases last - kx,
            {
                assert(g.weights[ky as int] == weights@[ky as int]@);
                if weights[ky][kx] != 0 {
                    assert(g.at_or_before_origin(kx as int, ky as int));
                    return Err(DitherError::InvalidKernel);
                }
                kx = kx + 1;
            }
            ky = ky + 1;
        }
        let k = DiffusionKernel { weights, denominator, origin_x, origin_y };
        assert(k@ == g);
        Ok(k)
    }

    /// The Floyd–Steinberg kernel.
    pub fn floyd_steinberg() -> (k: DiffusionKernel)
        ensures
            k@ == floyd_steinberg_grid(),
            k.wf(),
    {
        let k = DiffusionKernel {
            weights: vec![vec![0, 0, 7], vec![3, 5, 1]],
            denominator: 16,
            origin_x: 1,
            origin_y: 0,
        };
        assert(k@.weights =~~= floyd_steinberg_grid().weights);
        k
    }

    /// The kernel that sends half of the error right and half down.
    pub fn half_right_half_down() -> (k: DiffusionKernel)
        ensures
            k@ == half_right_half_down_grid(),
            k.wf(),
    {
        let k = DiffusionKernel {
            weights: vec![vec![0, 1], vec![1, 0]],
            denominator: 2,
            origin_x: 0,
            origin_y: 0,
        };
        assert(k@.weights =~~= half_right_half_down_grid().weights);
        k
    }
}

/// Per-channel residual, the current colour minus the chosen palette entry.
pub struct Residual {
    pub r: int,
    pub g: int,
    pub b: int,
}

pub open spec fn residual(cur: Color, chosen: Color) -> Residual {
    Residual { r: cur.r - chosen.r, g: cur.g - chosen.g, b: cur.b - chosen.b }
}

/// Channel `v` plus `e * w / d`, rounded down, clamped to 0..=255.
pub open spec fn adjust_channel(v: u8, e: int, w: int, d: int) -> u8 {
    let t = v * d + e * w;
    if t < 0 {
        0
    } else if t / d > 255 {
        255
    } else {
        (t / d) as u8
    }
}

pub open spec fn adjust_color(c: Color, e: Residual, w: int, d: int) -> Color {
    Color {
        r: adjust_channel(c.r, e.r, w, d),
        g: adjust_channel(c.g, e.g, w, d),
        b: adjust_channel(c.b, e.b, w, d),
    }
}

/// The buffer after kernel cell (`kx`, `ky`) has pushed `e` from the pixel at
/// (`x`, `y`): the target is updated when it lies inside the image.
pub open spec fn spread_cell(
    buf: Seq<Color>,
    w: int,
    h: int,
    x: int,
    y: int,
    e: Residual,
    k: KernelGrid,
    kx: int,
    ky: int,
) -> Seq<Color> {
    let tx = x + kx - k.origin_x;
    let ty = y + ky - k.origin_y;
    if 0 <= tx < w && 0 <= ty < h {
        let q = ty * w + tx;
        buf.update(q, adjust_color(buf[q], e, k.weight(kx, ky), k.denominator))
    } else {
        buf
    }
}

/// The first `n` cells of kernel row `ky`, in order.
pub open spec fn spread_row(
    buf: Seq<Color>,
    w: int,
    h: int,
    x: int,
    y: int,
    e: Residual,
    k: KernelGrid,
    ky: int,
    n: int,
) -> Seq<Color>
    decreases n,
{
    if n <= 0 {
        buf
    } else {
        spread_cell(spread_row(buf, w, h, x, y, e, k, ky, n - 1), w, h, x, y, e, k, n - 1, ky)
    }
}

/// The first `m` kernel rows, in order.
pub open spec fn spread_rows(
    buf: Seq<Color>,
    w: int,
    h: int,
    x: int,
    y: int,
    e: Residual,
    k: KernelGrid,
    m: int,
) -> Seq<Color>
    decreases m,
{
    if m <= 0 {
        buf
    } else {
        spread_row(spread_rows(buf, w, h, x, y, e, k, m - 1), w, h, x, y, e, k, m - 1, k.width())
    }
}

/// Processing the pixel at row-major index `p`: it is replaced by its
/// nearest palette entry and the residual is spread through the kernel.
pub open spec fn diffuse_step(buf: Seq<Color>, w: int, h: int, pal: Seq<Color>, k: KernelGrid, p: int) -> Seq<Color> {
    let cur = buf[p];
    let chosen = nearest(cur, pal);
    spread_rows(buf.update(p, chosen), w, h, p % w, p / w, residual(cur, chosen), k, k.height())
}

/// The working buffer once the first `n` pixels in raster order are done.
pub open spec fn diffuse_upto(pixels: Seq<Color>, w: int, h: int, pal: Seq<Color>, k: KernelGrid, n: int) -> Seq<Color>
    decreases n,
{
    if n <= 0 {
        pixels
    } else {
        diffuse_step(diffuse_upto(pixels, w, h, pal, k, n - 1), w, h, pal, k, n - 1)
    }
}

/// Error diffusion of a `w` by `h` image over its whole raster.
pub open spec fn error_diffusion(pixels: Seq<Color>, w: int, h: int, pal: Seq<Color>, k: KernelGrid) -> Seq<Color> {
    diffuse_upto(pixels, w, h, pal, k, pixels.len() as int)
}

fn adjust_channel_exec(v: u8, e: i32, w: i32, d: u32) -> (r: u8)
    requires
        -255 <= e <= 255,
        d > 0,
    ensures
        r == adjust_channel(v, e as int, w as int, d as int),
{
    assert(0 <= v * d <= 255 * 4294967295) by (nonlinear_arith)
        requires
            v <= 255,
            d <= 4294967295,
    ;
    assert(-255 * 2147483648 <= e * w <= 255 * 2147483648) by (nonlinear_arith)
        requires
            -255 <= e <= 255,
            -2147483648 <= w <= 2147483647,
    ;
    let t: i64 = (v as i64) * (d as i64) + (e as i64) * (w as i64);
    if t < 0 {
        0
    } else {
        let q = t / (d as i64);
        if q > 255 {
            255
        } else {
            q as u8
        }
    }
}

/// Where kernel offset `k - o` moves coordinate `c` inside `0..n`, if it does.
fn shift_within(c: usize, k: usize, o: usize, n: usize) -> (r: Option<usize>)
    requires
        c < n,
    ensures
        r matches Some(t) ==> t as int == c + k - o && t < n,
        r is None ==> !(0 <= c + k - o < n),
{
    if k >= o {
        let d = k - o;
        if d < n - c {
            Some(c + d)
        } else {
            None
        }
    } else {
        let d = o - k;
        if d <= c {
            Some(c - d)
        } else {
            None
        }
    }
}

fn spread_error(
    buf: &mut Vec<Color>,
    w: usize,
    h: usize,
    x: usize,
    y: usize,
    er: i32,
    eg: i32,
    eb: i32,
    kernel: &DiffusionKernel,
)
    requires
        old(buf)@.len() == w * h,
        x < w,
        y < h,
        kernel.wf(),
        -255 <= er <= 255,
        -255 <= eg <= 255,
        -255 <= eb <= 255,
    ensures
        final(buf)@.len() == old(buf)@.len(),
        final(buf)@ == spread_rows(
            old(buf)@,
            w as int,
            h as int,
            x as int,
            y as int,
            Residual { r: er as int, g: eg as int, b: eb as int },
            kernel@,
            kernel@.height(),
        ),
{
    let ghost e = Residual { r: er as int, g: eg as int, b: eb as int };
    let ghost g = kernel@;
    let kh = kernel.weights.len();
    let kw = kernel.weights[0].len();
    assert(g.weights[0] == kernel.weights@[0]@);
    let mut ky: usize = 0;
    while ky < kh
        invariant
            kh == g.height(),
            kw == g.width(),
            g == kernel@,
            g.wf(),
            x < w,
            y < h,
            ky <= kh,
            buf@.len() == w * h,
            buf@ == spread_rows(old(buf)@, w as int, h as int, x as int, y as int, e, g, ky as int),
            e == (Residual { r: er as int, g: eg as int, b: eb as int }),
            -255 <= er <= 255,
            -255 <= eg <= 255,
            -255 <= eb <= 255,
        decreases kh - ky,
    {
        let ghost row_start = buf@;
        assert(g.weights[ky as int] == kernel.weights@[ky as int]@);
        let mut kx: usize = 0;
        while kx < kw
            invariant
                kh == g.height(),
                kw == g.width(),
                g == kernel@,
                g.wf(),
                x < w,
                y < h,
                ky < kh,
                kx <= kw,
                kernel.weights@[ky as int]@.len() == kw,
                g.weights[ky as int] == kernel.weights@[ky as int]@,
                buf@.len() == w * h,
                buf@ == spread_row(row_start, w as int, h as int, x as int, y as int, e, g, ky as int, kx as int),
                e == (Residual { r: er as int, g: eg as int, b: eb as int }),
                -255 <= er <= 255,
                -255 <= eg <= 255,
                -255 <= eb <= 255,
            -255 <= er <= 255,
            -255 <= eg <= 255,
            -255 <= eb <= 255,
            decreases kw - kx,
        {
            let tx = shift_within(x, kx, kernel.origin_x, w);
            let ty = shift_within(y, ky, kernel.origin_y, h);
            if let (Some(tx), Some(ty)) = (tx, ty) {
                let blen = buf.len();
                proof {
                    lemma_cell_index(tx as int, ty as int, w as int, h as int);
                }
                let q = ty * w + tx;
                let wt = kernel.weights[ky][kx];
                let c = buf[q];
                let d = kernel.denominator;
                let adjusted = Color {
                    r: adjust_channel_exec(c.r, er, wt, d),
                    g: adjust_channel_exec(c.g, eg, wt, d),
                    b: adjust_channel_exec(c.b, eb, wt, d),
                };
                buf.set(q, adjusted);
            }
            kx = kx + 1;
        }
        ky = ky + 1;
    }
}

/// Error diffusion of `img` onto `palette` through `kernel`: pixels are
/// visited row by row, left to right; each takes the palette entry nearest to
/// its current, already adjusted, colour, and its residual is spread onto the
/// later pixels that the kernel reaches inside the image. Fails exactly when
/// the palette is empty.
pub fn diffusion_erreur_palette(img: &Image, palette: &[Color], kernel: &DiffusionKernel) -> (r:
    Result<Image, DitherError>)
    requires
        img.wf(),
        kernel.wf(),
    ensures
        palette@.len() == 0 <==> r is Err,
        r is Err ==> r == Err::<Image, DitherError>(DitherError::InvalidPalette),
        r matches Ok(out) ==> {
            &&& out.width == img.width
            &&& out.height == img.height
            &&& out.pixels@ == error_diffusion(
                img.pixels@,
                img.width as int,
                img.height as int,
                palette@,
                kernel@,
            )
        },
{
    if palette.len() == 0 {
        return Err(DitherError::InvalidPalette);
    }
    let w = img.width;
    let h = img.height;
    let n = img.pixels.len();
    let mut buf: Vec<Color> = Vec::with_capacity(n);
    let mut i: usize = 0;
    while i < n
        invariant
            n == img.pixels@.len(),
            i <= n,
            buf@ == img.pixels@.take(i as int),
        decreases n - i,
    {
        buf.push(img.pixels[i]);
        assert(img.pixels@.take(i + 1) == img.pixels@.take(i as int).push(img.pixels@[i as int]));
        i = i + 1;
    }
    assert(buf@ == img.pixels@.take(n as int));
    assert(img.pixels@.take(n as int) == img.pixels@);
    let ghost pal = palette@;
    let ghost g = kernel@;
    let mut p: usize = 0;
    while p < n
        invariant
            n == img.pixels@.len(),
            n == w * h,
            w == img.width,
            h == img.height,
            pal == palette@,
            pal.len() > 0,
            g == kernel@,
            g.wf(),
            p <= n,
            buf@.len() == n,
            buf@ == diffuse_upto(img.pixels@, w as int, h as int, pal, g, p as int),
        decreases n - p,
    {
        let ghost before = buf@;
        let cur = buf[p];
        let qi = nearest_color_index(cur, palette);
        let chosen = palette[qi];
        proof {
            lemma_index_cell(p as int, w as int);
            assert((p / w) * w <= p);
            if p / w >= h {
                assert((p / w) * w >= h * w) by (nonlinear_arith)
                    requires
                        p / w >= h,
                        w > 0,
                ;
                assert(h * w == w * h) by (nonlinear_arith);
            }
        }
        let er = cur.r as i32 - chosen.r as i32;
        let eg = cur.g as i32 - chosen.g as i32;
        let eb = cur.b as i32 - chosen.b as i32;
        buf.set(p, chosen);
        spread_error(&mut buf, w, h, p % w, p / w, er, eg, eb, kernel);
        assert(buf@ == diffuse_step(before, w as int, h as int, pal, g, p as int));
        p = p + 1;
    }
    Ok(Image { width: w, height: h, pixels: buf })
}

/// Error diffusion with the Floyd–Steinberg kernel. Fails exactly when the
/// palette is empty.
pub fn diffusion_erreur_floyd_steinberg(img: &Image, palette: &[Color]) -> (r: Result<Image, DitherError>)
    requires
        img.wf(),
    ensures
        palette@.len() == 0 <==> r is Err,
        r is Err ==> r == Err::<Image, DitherError>(DitherError::InvalidPalette),
        r matches Ok(out) ==> {
            &&& out.width == img.width
            &&& out.height == img.height
            &&& out.pixels@ == error_diffusion(
                img.pixels@,
                img.width as int,
                img.height as int,
                palette@,
                floyd_steinberg_grid(),
            )
        },
{
    let kernel = DiffusionKernel::floyd_steinberg();
    diffusion_erreur_palette(img, palette, &kernel)
}

/// A colour replaced by the grey of the same brightness.
pub open spec fn gray(c: Color) -> Color {
    let l = luma(c) as u8;
    Color { r: l, g: l, b: l }
}

/// Monochrome error diffusion: each pixel is reduced to its brightness, then
/// diffused onto black and white with half of the error going right and half
/// going down. A grey of brightness `l` becomes white exactly when `l > 127`.
pub fn diffusion_erreur(img: &Image) -> (out: Image)
    requires
        img.wf(),
    ensures
        out.width == img.width,
        out.height == img.height,
        out.pixels@ == error_diffusion(
            img.pixels@.map_values(|c: Color| gray(c)),
            img.width as int,
            img.height as int,
            seq![black(), white()],
            half_right_half_down_grid(),
        ),
{
    let n = img.pixels.len();
    let mut grays: Vec<Color> = Vec::with_capacity(n);
    let mut i: usize = 0;
    while i < n
        invariant
            n == img.pixels@.len(),
            i <= n,
            grays@ == img.pixels@.take(i as int).map_values(|c: Color| gray(c)),
        decreases n - i,
    {
        let l = color_luma(img.pixels[i]);
        grays.push(Color { r: l, g: l, b: l });
        assert(img.pixels@.take(i + 1) == img.pixels@.take(i as int).push(img.pixels@[i as int]));
        assert(grays@ =~= img.pixels@.take(i + 1).map_values(|c: Color| gray(c)));
        i = i + 1;
    }
    assert(img.pixels@.take(n as int) == img.pixels@);
    let gray_img = Image { width: img.width, height: img.height, pixels: grays };
    let palette = vec![NamedColor::Black.to_color(), NamedColor::White.to_color()];
    assert(palette@ =~= seq![black(), white()]);
    let kernel = DiffusionKernel::half_right_half_down();
    match diffusion_erreur_palette(&gray_img, palette.as_slice(), &kernel) {
        Ok(out) => out,
        Err(_) => gray_img,
    }
}

proof fn lemma_adjust_identity(c: Color, e: Residual, w: int, d: int)
    requires
        d > 0,
        w == 0 || (e.r == 0 && e.g == 0 && e.b == 0),
    ensures
        adjust_color(c, e, w, d) == c,
{
    assert(e.r * w == 0 && e.g * w == 0 && e.b * w == 0) by (nonlinear_arith)
        requires
            w == 0 || (e.r == 0 && e.g == 0 && e.b == 0),
    ;
    lemma_div_by_multiple(c.r as int, d);
    lemma_div_by_multiple(c.g as int, d);
    lemma_div_by_multiple(c.b as int, d);
    assert(c.r * d >= 0 && c.g * d >= 0 && c.b * d >= 0) by (nonlinear_arith)
        requires
            d > 0,
    ;
}

/// A kernel cell never changes the pixel being processed nor any earlier one,
/// and never changes the buffer's length.
proof fn lemma_spread_cell_keeps(
    buf: Seq<Color>,
    w: int,
    h: int,
    x: int,
    y: int,
    e: Residual,
    k: KernelGrid,
    kx: int,
    ky: int,
)
    requires
        k.wf(),
        0 <= x < w,
        0 <= y < h,
        buf.len() == w * h,
        0 <= kx < k.width(),
        0 <= ky < k.height(),
    ensures
        spread_cell(buf, w, h, x, y, e, k, kx, ky).len() == buf.len(),
        forall|q: int|
            0 <= q <= y * w + x ==> #[trigger] spread_cell(buf, w, h, x, y, e, k, kx, ky)[q] == buf[q],
{
    let tx = x + kx - k.origin_x;
    let ty = y + ky - k.origin_y;
    if 0 <= tx < w && 0 <= ty < h {
        lemma_cell_index(tx, ty, w, h);
        lemma_cell_index(x, y, w, h);
        let q = ty * w + tx;
        if k.at_or_before_origin(kx, ky) {
            assert(k.weights[ky][kx] == 0);
            lemma_adjust_identity(buf[q], e, k.weight(kx, ky), k.denominator);
        } else if ky > k.origin_y {
            assert(ty * w >= (y + 1) * w) by (nonlinear_arith)
                requires
                    ty >= y + 1,
                    w >= 0,
            ;
        }
    }
}

proof fn lemma_spread_row_keeps(
    buf: Seq<Color>,
    w: int,
    h: int,
    x: int,
    y: int,
    e: Residual,
    k: KernelGrid,
    ky: int,
    n: int,
)
    requires
        k.wf(),
        0 <= x < w,
        0 <= y < h,
        buf.len() == w * h,
        0 <= n <= k.width(),
        0 <= ky < k.height(),
    ensures
        spread_row(buf, w, h, x, y, e, k, ky, n).len() == buf.len(),
        forall|q: int|
            0 <= q <= y * w + x ==> #[trigger] spread_row(buf, w, h, x, y, e, k, ky, n)[q] == buf[q],
    decreases n,
{
    if n > 0 {
        lemma_spread_row_keeps(buf, w, h, x, y, e, k, ky, n - 1);
        lemma_spread_cell_keeps(spread_row(buf, w, h, x, y, e, k, ky, n - 1), w, h, x, y, e, k, n - 1, ky);
    }
}

proof fn lemma_spread_rows_keeps(
    buf: Seq<Color>,
    w: int,
    h: int,
    x: int,
    y: int,
    e: Residual,
    k: KernelGrid,
    m: int,
)
    requires
        k.wf(),
        0 <= x < w,
        0 <= y < h,
        buf.len() == w * h,
        0 <= m <= k.height(),
    ensures
        spread_rows(buf, w, h, x, y, e, k, m).len() == buf.len(),
        forall|q: int|
            0 <= q <= y * w + x ==> #[trigger] spread_rows(buf, w, h, x, y, e, k, m)[q] == buf[q],
    decreases m,
{
    if m > 0 {
        lemma_spread_rows_keeps(buf, w, h, x, y, e, k, m - 1);
        lemma_spread_row_keeps(spread_rows(buf, w, h, x, y, e, k, m - 1), w, h, x, y, e, k, m - 1, k.width());
    }
}

pub open spec fn no_residual() -> Residual {
    Residual { r: 0, g: 0, b: 0 }
}

proof fn lemma_spread_row_zero(buf: Seq<Color>, w: int, h: int, x: int, y: int, k: KernelGrid, ky: int, n: int)
    requires
        k.wf(),
        buf.len() == w * h,
    ensures
        spread_row(buf, w, h, x, y, no_residual(), k, ky, n) == buf,
    decreases n,
{
    if n > 0 {
        lemma_spread_row_zero(buf, w, h, x, y, k, ky, n - 1);
        let tx = x + (n - 1) - k.origin_x;
        let ty = y + ky - k.origin_y;
        if 0 <= tx < w && 0 <= ty < h {
            lemma_cell_index(tx, ty, w, h);
            let q = ty * w + tx;
            lemma_adjust_identity(buf[q], no_residual(), k.weight(n - 1, ky), k.denominator);
            assert(buf.update(q, buf[q]) =~= buf);
        }
    }
}

proof fn lemma_spread_rows_zero(buf: Seq<Color>, w: int, h: int, x: int, y: int, k: KernelGrid, m: int)
    requires
        k.wf(),
        buf.len() == w * h,
    ensures
        spread_rows(buf, w, h, x, y, no_residual(), k, m) == buf,
    decreases m,
{
    if m > 0 {
        lemma_spread_rows_zero(buf, w, h, x, y, k, m - 1);
        lemma_spread_row_zero(buf, w, h, x, y, k, m - 1, k.width());
    }
}

/// Facts on the pixel at index `p` of a `w` by `h` raster.
proof fn lemma_raster_position(p: int, w: int, h: int)
    requires
        0 <= p < w * h,
        w >= 0,
        h >= 0,
    ensures
        w > 0,
        0 <= p % w < w,
        0 <= p / w < h,
        (p / w) * w + p % w == p,
{
    if w == 0 {
        assert(w * h == 0) by (nonlinear_arith)
            requires
                w == 0,
        ;
    }
    lemma_index_cell(p, w);
    if p / w >= h {
        assert((p / w) * w >= h * w) by (nonlinear_arith)
            requires
                p / w >= h,
                w > 0,
        ;
        assert(h * w == w * h) by (nonlinear_arith);
    }
}

proof fn lemma_upto_in_palette(pixels: Seq<Color>, w: int, h: int, pal: Seq<Color>, k: KernelGrid, n: int)
    requires
        pixels.len() == w * h,
        w >= 0,
        h >= 0,
        pal.len() > 0,
        k.wf(),
        0 <= n <= pixels.len(),
    ensures
        diffuse_upto(pixels, w, h, pal, k, n).len() == pixels.len(),
        forall|q: int| 0 <= q < n ==> pal.contains(#[trigger] diffuse_upto(pixels, w, h, pal, k, n)[q]),
    decreases n,
{
    if n > 0 {
        let p = n - 1;
        lemma_upto_in_palette(pixels, w, h, pal, k, p);
        let buf = diffuse_upto(pixels, w, h, pal, k, p);
        let chosen = nearest(buf[p], pal);
        lemma_nearest_index_is_first_minimum(buf[p], pal);
        assert(pal[nearest_index(buf[p], pal)] == chosen);
        lemma_raster_position(p, w, h);
        let buf1 = buf.update(p, chosen);
        lemma_spread_rows_keeps(buf1, w, h, p % w, p / w, residual(buf[p], chosen), k, k.height());
        let out = diffuse_upto(pixels, w, h, pal, k, n);
        assert forall|q: int| 0 <= q < n implies pal.contains(#[trigger] out[q]) by {
            assert(out[q] == buf1[q]);
            if q < p {
                assert(pal.contains(buf[q]));
            }
        }
    }
}

/// Every pixel that error diffusion produces is an entry of the palette,
/// provided the kernel only pushes error forward.
pub proof fn lemma_error_diffusion_in_palette(pixels: Seq<Color>, w: int, h: int, pal: Seq<Color>, k: KernelGrid)
    requires
        pixels.len() == w * h,
        w >= 0,
        h >= 0,
        pal.len() > 0,
        k.wf(),
    ensures
        error_diffusion(pixels, w, h, pal, k).len() == pixels.len(),
        forall|i: int|
            0 <= i < pixels.len() ==> pal.contains(#[trigger] error_diffusion(pixels, w, h, pal, k)[i]),
{
    lemma_upto_in_palette(pixels, w, h, pal, k, pixels.len() as int);
}

proof fn lemma_upto_fixed(pixels: Seq<Color>, w: int, h: int, pal: Seq<Color>, k: KernelGrid, n: int)
    requires
        pixels.len() == w * h,
        w >= 0,
        h >= 0,
        k.wf(),
        forall|i: int| 0 <= i < pixels.len() ==> pal.contains(#[trigger] pixels[i]),
        0 <= n <= pixels.len(),
    ensures
        diffuse_upto(pixels, w, h, pal, k, n) == pixels,
    decreases n,
{
    if n > 0 {
        let p = n - 1;
        lemma_upto_fixed(pixels, w, h, pal, k, p);
        let cur = pixels[p];
        assert(pal.contains(cur));
        lemma_nearest_of_member(cur, pal);
        assert(pixels.update(p, cur) =~= pixels);
        assert(residual(cur, cur) == no_residual());
        lemma_spread_rows_zero(pixels, w, h, p % w, p / w, k, k.height());
    }
}

/// Error diffusion leaves an image unchanged when every pixel is already a
/// palette entry; so diffusing a second time gives back the result of the
/// first run.
pub proof fn lemma_error_diffusion_idempotent(pixels: Seq<Color>, w: int, h: int, pal: Seq<Color>, k: KernelGrid)
    requires
        pixels.len() == w * h,
        w >= 0,
        h >= 0,
        pal.len() > 0,
        k.wf(),
    ensures
        (forall|i: int| 0 <= i < pixels.len() ==> pal.contains(#[trigger] pixels[i]))
            ==> error_diffusion(pixels, w, h, pal, k) == pixels,
        error_diffusion(error_diffusion(pixels, w, h, pal, k), w, h, pal, k) == error_diffusion(
            pixels,
            w,
            h,
            pal,
            k,
        ),
{
    if forall|i: int| 0 <= i < pixels.len() ==> pal.contains(#[trigger] pixels[i]) {
        lemma_upto_fixed(pixels, w, h, pal, k, pixels.len() as int);
    }
    let out = error_diffusion(pixels, w, h, pal, k);
    lemma_error_diffusion_in_palette(pixels, w, h, pal, k);
    lemma_upto_fixed(out, w, h, pal, k, out.len() as int);
}

/// A one-pixel image comes out as exactly one palette entry: the one nearest
/// to its colour.
pub proof fn lemma_single_pixel_diffusion(c: Color, pal: Seq<Color>, k: KernelGrid)
    requires
        pal.len() > 0,
        k.wf(),
    ensures
        error_diffusion(seq![c], 1, 1, pal, k) == seq![nearest(c, pal)],
        pal.contains(nearest(c, pal)),
{
    let pixels = seq![c];
    let chosen = nearest(c, pal);
    lemma_nearest_index_is_first_minimum(c, pal);
    assert(pal[nearest_index(c, pal)] == chosen);
    assert(diffuse_upto(pixels, 1, 1, pal, k, 0) == pixels);
    assert(pixels[0] == c);
    let buf1 = pixels.update(0, chosen);
    lemma_spread_rows_keeps(buf1, 1, 1, 0, 0, residual(c, chosen), k, k.height());
    let out = error_diffusion(pixels, 1, 1, pal, k);
    assert(out[0] == chosen);
    assert(out =~= seq![chosen]);
}

/// Sum of the three channels of a colour.
pub open spec fn color_sum(c: Color) -> int {
    c.r + c.g + c.b
}

/// Sum of all channels of all pixels.
pub open spec fn channel_total(s: Seq<Color>) -> int
    decreases s.len(),
{
    if s.len() == 0 {
        0
    } else {
        channel_total(s.drop_last()) + color_sum(s.last())
    }
}

/// Sum of the first `n` weight numerators of kernel row `ky`.
pub open spec fn row_weight(k: KernelGrid, ky: int, n: int) -> int
    decreases n,
{
    if n <= 0 {
        0
    } else {
        row_weight(k, ky, n - 1) + k.weight(n - 1, ky)
    }
}

/// Sum of the weight numerators of the first `m` kernel rows.
pub open spec fn rows_weight(k: KernelGrid, m: int) -> int
    decreases m,
{
    if m <= 0 {
        0
    } else {
        rows_weight(k, m - 1) + row_weight(k, m - 1, k.width())
    }
}

/// Sum of all weight numerators of the kernel.
pub open spec fn weight_total(k: KernelGrid) -> int {
    rows_weight(k, k.height())
}

pub open spec fn residual_sum(e: Residual) -> int {
    e.r + e.g + e.b
}

/// Row-major index of the pixel that kernel cell (`kx`, `ky`) reaches from
/// (`x`, `y`).
pub open spec fn cell_target(w: int, x: int, y: int, k: KernelGrid, kx: int, ky: int) -> int {
    (y + ky - k.origin_y) * w + (x + kx - k.origin_x)
}

pub open spec fn cell_inside(w: int, h: int, x: int, y: int, k: KernelGrid, kx: int, ky: int) -> bool {
    0 <= x + kx - k.origin_x < w && 0 <= y + ky - k.origin_y < h
}

/// Adding `e * wt / d` to channel `v` needs no clamping.
pub open spec fn push_unclamped(v: u8, e: int, wt: int, d: int) -> bool {
    v * d + e * wt >= 0 && (v * d + e * wt) / d <= 255
}

/// Every kernel cell with a non-zero weight reaches a pixel inside the image
/// whose channels take the pushed error without clamping.
pub open spec fn exact_spread(buf: Seq<Color>, w: int, h: int, x: int, y: int, e: Residual, k: KernelGrid) -> bool {
    forall|kx: int, ky: int|
        0 <= kx < k.width() && 0 <= ky < k.height() && k.weight(kx, ky) != 0 ==> {
            &&& #[trigger] cell_inside(w, h, x, y, k, kx, ky)
            &&& push_unclamped(buf[cell_target(w, x, y, k, kx, ky)].r, e.r, k.weight(kx, ky), k.denominator)
            &&& push_unclamped(buf[cell_target(w, x, y, k, kx, ky)].g, e.g, k.weight(kx, ky), k.denominator)
            &&& push_unclamped(buf[cell_target(w, x, y, k, kx, ky)].b, e.b, k.weight(kx, ky), k.denominator)
        }
}

/// Cell (`kx2`, `ky2`) comes after the first `n` cells of row `ky`.
pub open spec fn cell_later(kx2: int, ky2: int, ky: int, n: int) -> bool {
    ky2 > ky || (ky2 == ky && kx2 >= n)
}

proof fn lemma_total_update(s: Seq<Color>, q: int, c: Color)
    requires
        0 <= q < s.len(),
    ensures
        channel_total(s.update(q, c)) == channel_total(s) - color_sum(s[q]) + color_sum(c),
    decreases s.len(),
{
    let t = s.update(q, c);
    if q == s.len() - 1 {
        assert(t.drop_last() =~= s.drop_last());
    } else {
        assert(t.drop_last() =~= s.drop_last().update(q, c));
        lemma_total_update(s.drop_last(), q, c);
    }
}

proof fn lemma_push_bounds(v: u8, e: int, wt: int, d: int)
    requires
        d > 0,
        push_unclamped(v, e, wt, d),
    ensures
        d * (adjust_channel(v, e, wt, d) - v) <= e * wt,
        e * wt < d * (adjust_channel(v, e, wt, d) - v) + d,
{
    let t = v * d + e * wt;
    lemma_fundamental_div_mod(t, d);
    lemma_mod_pos_bound(t, d);
    let a = t / d;
    assert(adjust_channel(v, e, wt, d) == a);
    assert(d * (a - v) == d * a - v * d) by (nonlinear_arith);
}

/// Distinct kernel cells that land inside the image reach distinct pixels.
proof fn lemma_targets_distinct(w: int, h: int, x: int, y: int, k: KernelGrid, kx1: int, ky1: int, kx2: int, ky2: int)
    requires
        cell_inside(w, h, x, y, k, kx1, ky1),
        cell_inside(w, h, x, y, k, kx2, ky2),
        kx1 != kx2 || ky1 != ky2,
    ensures
        cell_target(w, x, y, k, kx1, ky1) != cell_target(w, x, y, k, kx2, ky2),
{
    let tx1 = x + kx1 - k.origin_x;
    let ty1 = y + ky1 - k.origin_y;
    let tx2 = x + kx2 - k.origin_x;
    let ty2 = y + ky2 - k.origin_y;
    lemma_cell_index(tx1, ty1, w, h);
    lemma_cell_index(tx2, ty2, w, h);
    if ty1 < ty2 {
        assert((ty1 + 1) * w <= ty2 * w) by (nonlinear_arith)
            requires
                ty1 + 1 <= ty2,
                w >= 0,
        ;
    } else if ty2 < ty1 {
        assert((ty2 + 1) * w <= ty1 * w) by (nonlinear_arith)
            requires
                ty2 + 1 <= ty1,
                w >= 0,
        ;
    }
}

proof fn lemma_cell_conserves(
    buf0: Seq<Color>,
    cur: Seq<Color>,
    w: int,
    h: int,
    x: int,
    y: int,
    e: Residual,
    k: KernelGrid,
    kx: int,
    ky: int,
)
    requires
        k.wf(),
        cur.len() == w * h,
        0 <= kx < k.width(),
        0 <= ky < k.height(),
        exact_spread(buf0, w, h, x, y, e, k),
        cell_inside(w, h, x, y, k, kx, ky) ==> cur[cell_target(w, x, y, k, kx, ky)] == buf0[cell_target(w, x, y, k, kx, ky)],
    ensures
        spread_cell(cur, w, h, x, y, e, k, kx, ky).len() == cur.len(),
        k.denominator * (channel_total(spread_cell(cur, w, h, x, y, e, k, kx, ky)) - channel_total(cur))
            <= residual_sum(e) * k.weight(kx, ky),
        residual_sum(e) * k.weight(kx, ky) - 3 * (k.denominator - 1) <= k.denominator * (channel_total(
            spread_cell(cur, w, h, x, y, e, k, kx, ky),
        ) - channel_total(cur)),
        forall|kx2: int, ky2: int|
            cell_inside(w, h, x, y, k, kx2, ky2) && (kx2 != kx || ky2 != ky) ==> spread_cell(
                cur, w, h, x, y, e, k, kx, ky)[#[trigger] cell_target(w, x, y, k, kx2, ky2)]
                == cur[cell_target(w, x, y, k, kx2, ky2)],
{
    let d = k.denominator;
    let wt = k.weight(kx, ky);
    let res = spread_cell(cur, w, h, x, y, e, k, kx, ky);
    if cell_inside(w, h, x, y, k, kx, ky) {
        let q = cell_target(w, x, y, k, kx, ky);
        lemma_cell_index(x + kx - k.origin_x, y + ky - k.origin_y, w, h);
        let v = cur[q];
        let a = adjust_color(v, e, wt, d);
        lemma_total_update(cur, q, a);
        assert(res == cur.update(q, a));
        assert(channel_total(res) - channel_total(cur) == color_sum(a) - color_sum(v));
        if wt == 0 {
            lemma_adjust_identity(v, e, wt, d);
            assert(e.r * wt + e.g * wt + e.b * wt == 0) by (nonlinear_arith)
                requires
                    wt == 0,
            ;
            assert(residual_sum(e) * wt == 0) by (nonlinear_arith)
                requires
                    wt == 0,
            ;
        } else {
            assert(v == buf0[q]);
            lemma_push_bounds(v.r, e.r, wt, d);
            lemma_push_bounds(v.g, e.g, wt, d);
            lemma_push_bounds(v.b, e.b, wt, d);
            assert(residual_sum(e) * wt == e.r * wt + e.g * wt + e.b * wt) by (nonlinear_arith);
            assert(d * (color_sum(a) - color_sum(v)) == d * (a.r - v.r) + d * (a.g - v.g) + d * (a.b
                - v.b)) by (nonlinear_arith);
            assert(d * (channel_total(res) - channel_total(cur)) == d * (color_sum(a) - color_sum(v)));
        }
        assert forall|kx2: int, ky2: int|
            cell_inside(w, h, x, y, k, kx2, ky2) && (kx2 != kx || ky2 != ky) implies res[#[trigger] cell_target(w, x, y, k, kx2, ky2)]
            == cur[cell_target(w, x, y, k, kx2, ky2)] by {
            lemma_targets_distinct(w, h, x, y, k, kx, ky, kx2, ky2);
            lemma_cell_index(x + kx2 - k.origin_x, y + ky2 - k.origin_y, w, h);
        }
    } else {
        assert(wt == 0);
        assert(residual_sum(e) * wt == 0) by (nonlinear_arith)
            requires
                wt == 0,
        ;
    }
}

proof fn lemma_row_conserves(
    buf0: Seq<Color>,
    cur: Seq<Color>,
    w: int,
    h: int,
    x: int,
    y: int,
    e: Residual,
    k: KernelGrid,
    ky: int,
    n: int,
)
    requires
        k.wf(),
        cur.len() == w * h,
        0 <= n <= k.width(),
        0 <= ky < k.height(),
        exact_spread(buf0, w, h, x, y, e, k),
        forall|kx2: int, ky2: int|
            0 <= kx2 < k.width() && 0 <= ky2 < k.height() && cell_later(kx2, ky2, ky, 0)
                && cell_inside(w, h, x, y, k, kx2, ky2) ==> cur[#[trigger] cell_target(w, x, y, k, kx2, ky2)]
                == buf0[cell_target(w, x, y, k, kx2, ky2)],
    ensures
        spread_row(cur, w, h, x, y, e, k, ky, n).len() == cur.len(),
        k.denominator * (channel_total(spread_row(cur, w, h, x, y, e, k, ky, n)) - channel_total(cur))
            <= residual_sum(e) * row_weight(k, ky, n),
        residual_sum(e) * row_weight(k, ky, n) - 3 * (k.denominator - 1) * n <= k.denominator * (
        channel_total(spread_row(cur, w, h, x, y, e, k, ky, n)) - channel_total(cur)),
        forall|kx2: int, ky2: int|
            0 <= kx2 < k.width() && 0 <= ky2 < k.height() && cell_later(kx2, ky2, ky, n)
                && cell_inside(w, h, x, y, k, kx2, ky2) ==> spread_row(cur, w, h, x, y, e, k, ky, n)[
                #[trigger] cell_target(w, x, y, k, kx2, ky2)] == buf0[cell_target(w, x, y, k, kx2, ky2)],
    decreases n,
{
    if n > 0 {
        lemma_row_conserves(buf0, cur, w, h, x, y, e, k, ky, n - 1);
        let prev = spread_row(cur, w, h, x, y, e, k, ky, n - 1);
        assert(cell_later(n - 1, ky, ky, n - 1));
        lemma_cell_conserves(buf0, prev, w, h, x, y, e, k, n - 1, ky);
        let d = k.denominator;
        let s1 = residual_sum(e) * row_weight(k, ky, n - 1);
        let s2 = residual_sum(e) * k.weight(n - 1, ky);
        assert(residual_sum(e) * row_weight(k, ky, n) == s1 + s2) by (nonlinear_arith)
            requires
                row_weight(k, ky, n) == row_weight(k, ky, n - 1) + k.weight(n - 1, ky),
                s1 == residual_sum(e) * row_weight(k, ky, n - 1),
                s2 == residual_sum(e) * k.weight(n - 1, ky),
        ;
        assert(3 * (d - 1) * n == 3 * (d - 1) * (n - 1) + 3 * (d - 1)) by (nonlinear_arith);
        let res = spread_row(cur, w, h, x, y, e, k, ky, n);
        assert(d * (channel_total(res) - channel_total(cur)) == d * (channel_total(res) - channel_total(prev)) + d * (channel_total(prev) - channel_total(cur))) by (nonlinear_arith);
    }
}

proof fn lemma_rows_conserve(
    buf0: Seq<Color>,
    w: int,
    h: int,
    x: int,
    y: int,
    e: Residual,
    k: KernelGrid,
    m: int,
)
    requires
        k.wf(),
        buf0.len() == w * h,
        0 <= m <= k.height(),
        exact_spread(buf0, w, h, x, y, e, k),
    ensures
        spread_rows(buf0, w, h, x, y, e, k, m).len() == buf0.len(),
        k.denominator * (channel_total(spread_rows(buf0, w, h, x, y, e, k, m)) - channel_total(buf0))
            <= residual_sum(e) * rows_weight(k, m),
        residual_sum(e) * rows_weight(k, m) - 3 * (k.denominator - 1) * (m * k.width()) <= k.denominator * (
        channel_total(spread_rows(buf0, w, h, x, y, e, k, m)) - channel_total(buf0)),
        forall|kx2: int, ky2: int|
            0 <= kx2 < k.width() && 0 <= ky2 < k.height() && cell_later(kx2, ky2, m, 0)
                && cell_inside(w, h, x, y, k, kx2, ky2) ==> spread_rows(buf0, w, h, x, y, e, k, m)[
                #[trigger] cell_target(w, x, y, k, kx2, ky2)] == buf0[cell_target(w, x, y, k, kx2, ky2)],
    decreases m,
{
    if m > 0 {
        lemma_rows_conserve(buf0, w, h, x, y, e, k, m - 1);
        let prev = spread_rows(buf0, w, h, x, y, e, k, m - 1);
        assert forall|kx2: int, ky2: int|
            0 <= kx2 < k.width() && 0 <= ky2 < k.height() && cell_later(kx2, ky2, m - 1, 0)
                && cell_inside(w, h, x, y, k, kx2, ky2) implies prev[#[trigger] cell_target(w, x, y, k, kx2, ky2)]
                == buf0[cell_target(w, x, y, k, kx2, ky2)] by {
            assert(cell_later(kx2, ky2, m - 1, 0));
        }
        lemma_row_conserves(buf0, prev, w, h, x, y, e, k, m - 1, k.width());
        let res = spread_rows(buf0, w, h, x, y, e, k, m);
        let d = k.denominator;
        let kw = k.width();
        assert forall|kx2: int, ky2: int|
            0 <= kx2 < k.width() && 0 <= ky2 < k.height() && cell_later(kx2, ky2, m, 0)
                && cell_inside(w, h, x, y, k, kx2, ky2) implies res[#[trigger] cell_target(w, x, y, k, kx2, ky2)]
                == buf0[cell_target(w, x, y, k, kx2, ky2)] by {
            assert(cell_later(kx2, ky2, m - 1, kw));
        }
        let s1 = residual_sum(e) * rows_weight(k, m - 1);
        let s2 = residual_sum(e) * row_weight(k, m - 1, kw);
        assert(residual_sum(e) * rows_weight(k, m) == s1 + s2) by (nonlinear_arith)
            requires
                rows_weight(k, m) == rows_weight(k, m - 1) + row_weight(k, m - 1, kw),
                s1 == residual_sum(e) * rows_weight(k, m - 1),
                s2 == residual_sum(e) * row_weight(k, m - 1, kw),
        ;
        assert(3 * (d - 1) * (m * kw) == 3 * (d - 1) * ((m - 1) * kw) + 3 * (d - 1) * kw) by (nonlinear_arith);
        assert(d * (channel_total(res) - channel_total(buf0)) == d * (channel_total(res) - channel_total(prev)) + d * (channel_total(prev) - channel_total(buf0))) by (nonlinear_arith);
    }
}

/// One step of error diffusion hands the pixel's residual on to its
/// neighbours in proportion to the kernel weights, up to rounding. Let `E`
/// be the sum of the pixel's three channel residuals, `S` the sum of the
/// weight numerators, `d` the denominator and `K` the number of kernel cells.
/// When every cell with a non-zero weight lands inside the image without
/// clamping, the channels of the neighbours gain `G` in total with
/// `E * S - 3 * (d - 1) * K <= d * G <= E * S` (each of the `3 * K` pushes
/// is rounded down by less than one), and the channel total of the whole
/// buffer changes by `G - E`. With weights that sum to one (`S == d`) the
/// total therefore never rises and drops by less than `3 * K`.
pub proof fn lemma_diffusion_step_conserves(buf: Seq<Color>, w: int, h: int, pal: Seq<Color>, k: KernelGrid, p: int)
    requires
        buf.len() == w * h,
        w >= 0,
        h >= 0,
        0 <= p < buf.len(),
        pal.len() > 0,
        k.wf(),
        exact_spread(buf, w, h, p % w, p / w, residual(buf[p], nearest(buf[p], pal)), k),
    ensures
        ({
            let e = residual_sum(residual(buf[p], nearest(buf[p], pal)));
            let gain = channel_total(diffuse_step(buf, w, h, pal, k, p)) - channel_total(buf) + e;
            &&& e * weight_total(k) - 3 * (k.denominator - 1) * (k.width() * k.height()) <= k.denominator * gain
            &&& k.denominator * gain <= e * weight_total(k)
            &&& weight_total(k) == k.denominator ==> -3 * (k.width() * k.height()) < gain - e <= 0
        }),
{
    let cur = buf[p];
    let chosen = nearest(cur, pal);
    let er = residual(cur, chosen);
    let e = residual_sum(er);
    let x = p % w;
    let y = p / w;
    lemma_raster_position(p, w, h);
    let buf1 = buf.update(p, chosen);
    lemma_total_update(buf, p, chosen);
    assert forall|kx: int, ky: int|
        0 <= kx < k.width() && 0 <= ky < k.height() && k.weight(kx, ky) != 0 implies {
            &&& #[trigger] cell_inside(w, h, x, y, k, kx, ky)
            &&& push_unclamped(buf1[cell_target(w, x, y, k, kx, ky)].r, er.r, k.weight(kx, ky), k.denominator)
            &&& push_unclamped(buf1[cell_target(w, x, y, k, kx, ky)].g, er.g, k.weight(kx, ky), k.denominator)
            &&& push_unclamped(buf1[cell_target(w, x, y, k, kx, ky)].b, er.b, k.weight(kx, ky), k.denominator)
        } by {
        let q = cell_target(w, x, y, k, kx, ky);
        assert(!k.at_or_before_origin(kx, ky));
        assert(cell_inside(w, h, x, y, k, kx, ky));
        lemma_cell_index(x + kx - k.origin_x, y + ky - k.origin_y, w, h);
        lemma_cell_index(x, y, w, h);
        if ky > k.origin_y {
            assert((y + ky - k.origin_y) * w >= (y + 1) * w) by (nonlinear_arith)
                requires
                    y + ky - k.origin_y >= y + 1,
                    w >= 0,
            ;
        }
        assert(q != p);
    }
    lemma_rows_conserve(buf1, w, h, x, y, er, k, k.height());
    let d = k.denominator;
    let kk = k.width() * k.height();
    let gain = channel_total(diffuse_step(buf, w, h, pal, k, p)) - channel_total(buf) + e;
    assert(gain == channel_total(spread_rows(buf1, w, h, x, y, er, k, k.height())) - channel_total(buf1));
    assert(color_sum(cur) - color_sum(chosen) == e);
    assert(3 * (d - 1) * (k.height() * k.width()) == 3 * (d - 1) * kk) by (nonlinear_arith)
        requires
            kk == k.width() * k.height(),
    ;
    assert(kk >= 1) by (nonlinear_arith)
        requires
            kk == k.width() * k.height(),
            k.width() >= 1,
            k.height() >= 1,
    ;
    if weight_total(k) == d {
        assert(-3 * kk < gain - e <= 0) by (nonlinear_arith)
            requires
                e * d - 3 * (d - 1) * kk <= d * gain,
                d * gain <= e * d,
                d > 0,
                kk >= 1,
        ;
    }
}

} // verus!
