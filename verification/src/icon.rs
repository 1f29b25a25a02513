//! The application icon: a blue square with a dark border, a dark spade and
//! a white plus in its middle, drawn pixel by pixel.
use vstd::prelude::*;

verus! {

/// The icon is `SIZE` by `SIZE` pixels.
pub const SIZE: u32 = 32;

/// The spade's outline, in half pixels (every coordinate doubled), closed:
/// the last vertex repeats the first.
pub open spec fn spade_vertex(k: int) -> (int, int) {
    if k == 0 {
        (31, 5)
    } else if k == 1 {
        (53, 26)
    } else if k == 2 {
        (56, 34)
    } else if k == 3 {
        (54, 41)
    } else if k == 4 {
        (49, 46)
    } else if k == 5 {
        (42, 48)
    } else if k == 6 {
        (36, 44)
    } else if k == 7 {
        (37, 51)
    } else if k == 8 {
        (45, 57)
    } else if k == 9 {
        (17, 57)
    } else if k == 10 {
        (25, 51)
    } else if k == 11 {
        (26, 44)
    } else if k == 12 {
        (20, 48)
    } else if k == 13 {
        (13, 46)
    } else if k == 14 {
        (8, 41)
    } else if k == 15 {
        (6, 34)
    } else if k == 16 {
        (9, 26)
    } else {
        (31, 5)
    }
}

pub const SPADE_VERTICES: usize = 18;

/// The edge ending at vertex `k` (from the vertex before it, or from the last
/// vertex for the first) crosses the ray going right from point `(px, py)`.
pub open spec fn edge_crosses(k: int, px: int, py: int) -> bool {
    let (cx, cy) = spade_vertex(k);
    let (vx, vy) = spade_vertex(if k == 0 { 17 } else { k - 1 });
    let d = vy - cy;
    (cy > py) != (vy > py) && if d > 0 {
        (px - cx) * d < (vx - cx) * (py - cy)
    } else {
        (px - cx) * d > (vx - cx) * (py - cy)
    }
}

/// Whether an odd number of the first `n` edges cross the ray.
pub open spec fn crossings_odd(n: int, px: int, py: int) -> bool
    decreases n,
{
    if n <= 0 {
        false
    } else {
        crossings_odd(n - 1, px, py) != edge_crosses(n - 1, px, py)
    }
}

/// The centre of pixel `(x, y)` lies inside the spade (even-odd rule).
pub open spec fn in_spade(x: int, y: int) -> bool {
    crossings_odd(18, 2 * x + 1, 2 * y + 1)
}

pub open spec fn on_border(x: int, y: int) -> bool {
    x < 2 || y < 2 || x >= 30 || y >= 30
}

pub open spec fn on_plus(x: int, y: int) -> bool {
    (14 <= x <= 17 && 9 <= y <= 22) || (9 <= x <= 22 && 14 <= y <= 17)
}

/// The colour of pixel `(x, y)` as red, green, blue and alpha.
pub open spec fn pixel_color(x: int, y: int) -> Seq<u8> {
    if on_border(x, y) {
        seq![15u8, 23u8, 42u8, 255u8]
    } else if !in_spade(x, y) {
        seq![37u8, 99u8, 235u8, 255u8]
    } else if on_plus(x, y) {
        seq![255u8, 255u8, 255u8, 255u8]
    } else {
        seq![15u8, 45u8, 95u8, 255u8]
    }
}

fn vertex(k: usize) -> (r: (i64, i64))
    requires
        k < 18,
    ensures
        (r.0 as int, r.1 as int) == spade_vertex(k as int),
        0 <= r.0 <= 64,
        0 <= r.1 <= 64,
{
    if k == 0 {
        (31, 5)
    } else if k == 1 {
        (53, 26)
    } else if k == 2 {
        (56, 34)
    } else if k == 3 {
        (54, 41)
    } else if k == 4 {
        (49, 46)
    } else if k == 5 {
        (42, 48)
    } else if k == 6 {
        (36, 44)
    } else if k == 7 {
        (37, 51)
    } else if k == 8 {
        (45, 57)
    } else if k == 9 {
        (17, 57)
    } else if k == 10 {
        (25, 51)
    } else if k == 11 {
        (26, 44)
    } else if k == 12 {
        (20, 48)
    } else if k == 13 {
        (13, 46)
    } else if k == 14 {
        (8, 41)
    } else if k == 15 {
        (6, 34)
    } else if k == 16 {
        (9, 26)
    } else {
        (31, 5)
    }
}

fn inside_spade(px: i64, py: i64) -> (r: bool)
    requires
        0 <= px <= 64,
        0 <= py <= 64,
    ensures
        r == crossings_odd(18, px as int, py as int),
{
    let mut inside = false;
    let mut k: usize = 0;
    while k < SPADE_VERTICES
        invariant
            k <= 18,
            0 <= px <= 64,
            0 <= py <= 64,
            inside == crossings_odd(k as int, px as int, py as int),
        decreases 18 - k,
    {
        let (cx, cy) = vertex(k);
        let (vx, vy) = vertex(if k == 0 {
            17
        } else {
            k - 1
        });
        let d = vy - cy;
        assert(-4096 <= (px - cx) * d <= 4096) by (nonlinear_arith)
            requires
                -64 <= px - cx <= 64,
                -64 <= d <= 64,
        ;
        assert(-4096 <= (vx - cx) * (py - cy) <= 4096) by (nonlinear_arith)
            requires
                -64 <= vx - cx <= 64,
                -64 <= py - cy <= 64,
        ;
        let left = (px - cx) * d;
        let right = (vx - cx) * (py - cy);
        let crosses = (cy > py) != (vy > py) && if d > 0 {
            left < right
        } else {
            left > right
        };
        if crosses {
            inside = !inside;
        }
        k += 1;
    }
    inside
}

/// The colour of pixel `(x, y)`; every pixel from the border outwards,
/// beyond the icon too, takes the border colour.
pub fn rgba_pixel(x: u32, y: u32) -> (r: [u8; 4])
    ensures
        r@ == pixel_color(x as int, y as int),
{
    let border = x < 2 || y < 2 || x >= SIZE - 2 || y >= SIZE - 2;
    if border {
        let c = [15u8, 23u8, 42u8, 255u8];
        assert(c@ =~= seq![15u8, 23u8, 42u8, 255u8]);
        return c;
    }
    if !inside_spade(2 * (x as i64) + 1, 2 * (y as i64) + 1) {
        let c = [37u8, 99u8, 235u8, 255u8];
        assert(c@ =~= seq![37u8, 99u8, 235u8, 255u8]);
        return c;
    }
    let plus = (14 <= x && x <= 17 && 9 <= y && y <= 22) || (9 <= x && x <= 22 && 14 <= y && y <= 17);
    if plus {
        let c = [255u8, 255u8, 255u8, 255u8];
        assert(c@ =~= seq![255u8, 255u8, 255u8, 255u8]);
        c
    } else {
        let c = [15u8, 45u8, 95u8, 255u8];
        assert(c@ =~= seq![15u8, 45u8, 95u8, 255u8]);
        c
    }
}

/// The whole icon as RGBA bytes, row by row from the top, each row from the left.
pub fn icon_rgba() -> (r: Vec<u8>)
    ensures
        r@.len() == 4096,
        forall|y: int, x: int, c: int|
            0 <= y < 32 && 0 <= x < 32 && 0 <= c < 4 ==> #[trigger] r@[(y * 32 + x) * 4 + c]
                == pixel_color(x, y)[c],
{
    let mut rgba: Vec<u8> = Vec::new();
    let mut y: u32 = 0;
    while y < SIZE
        invariant
            y <= 32,
            rgba@.len() == y * 128,
            forall|yy: int, x: int, c: int|
                0 <= yy < y && 0 <= x < 32 && 0 <= c < 4 ==> #[trigger] rgba@[(yy * 32 + x) * 4 + c]
                    == pixel_color(x, yy)[c],
        decreases 32 - y,
    {
        let mut x: u32 = 0;
        while x < SIZE
            invariant
                y < 32,
                x <= 32,
                rgba@.len() == y * 128 + x * 4,
                forall|yy: int, xx: int, c: int|
                    0 <= yy < y && 0 <= xx < 32 && 0 <= c < 4 ==> #[trigger] rgba@[(yy * 32 + xx) * 4 + c]
                        == pixel_color(xx, yy)[c],
                forall|xx: int, c: int|
                    0 <= xx < x && 0 <= c < 4 ==> #[trigger] rgba@[(y * 32 + xx) * 4 + c]
                        == pixel_color(xx, y as int)[c],
            decreases 32 - x,
        {
            let pixel = rgba_pixel(x, y);
            let ghost before = rgba@;
            rgba.push(pixel[0]);
            rgba.push(pixel[1]);
            rgba.push(pixel[2]);
            rgba.push(pixel[3]);
            proof {
                let base = (y * 32 + x) * 4;
                assert(base == before.len());
                assert forall|yy: int, xx: int, c: int|
                    0 <= yy < y && 0 <= xx < 32 && 0 <= c < 4 implies #[trigger] rgba@[(yy * 32 + xx) * 4 + c]
                        == pixel_color(xx, yy)[c] by {
                    assert((yy * 32 + xx) * 4 + c < y * 128) by (nonlinear_arith)
                        requires
                            0 <= yy < y,
                            0 <= xx < 32,
                            0 <= c < 4,
                    ;
                    assert(rgba@[(yy * 32 + xx) * 4 + c] == before[(yy * 32 + xx) * 4 + c]);
                }
                assert forall|xx: int, c: int|
                    0 <= xx < x + 1 && 0 <= c < 4 implies #[trigger] rgba@[(y * 32 + xx) * 4 + c]
                        == pixel_color(xx, y as int)[c] by {
                    if xx < x {
                        assert(rgba@[(y * 32 + xx) * 4 + c] == before[(y * 32 + xx) * 4 + c]);
                    } else {
                        assert(pixel@[c] == pixel[c as int]);
                    }
                }
            }
            x += 1;
        }
        y += 1;
    }
    rgba
}

// ----- icons of other windows -----

/// A window's icon: `size` by `size` pixels as RGBA bytes.
#[derive(Debug)]
pub struct WindowIcon {
    pub size: usize,
    pub rgba: Vec<u8>,
}

/// Whether one of the whole pixels of a BGRA image has a non-zero alpha.
pub open spec fn has_alpha(bgra: Seq<u8>) -> bool {
    exists|p: int| 0 <= p < bgra.len() / 4 && #[trigger] bgra[4 * p + 3] != 0
}

/// The alpha of pixel `p`: its own where the image has an alpha channel at
/// all; otherwise opaque where it is not black, transparent where it is.
pub open spec fn icon_alpha(bgra: Seq<u8>, p: int) -> u8 {
    if has_alpha(bgra) {
        bgra[4 * p + 3]
    } else if bgra[4 * p] != 0 || bgra[4 * p + 1] != 0 || bgra[4 * p + 2] != 0 {
        255
    } else {
        0
    }
}

/// Byte `k` of the RGBA image made from a BGRA one: red and blue change
/// places, alpha as `icon_alpha` says.
pub open spec fn rgba_byte(bgra: Seq<u8>, k: int) -> u8 {
    let p = k / 4;
    let c = k % 4;
    if c == 0 {
        bgra[4 * p + 2]
    } else if c == 1 {
        bgra[4 * p + 1]
    } else if c == 2 {
        bgra[4 * p]
    } else {
        icon_alpha(bgra, p)
    }
}

/// The RGBA bytes of a BGRA image, one pixel per four bytes; a trailing
/// part of a pixel is dropped.
pub fn rgba_from_bgra(bgra: &[u8]) -> (r: Vec<u8>)
    ensures
        r@.len() == 4 * (bgra@.len() / 4),
        forall|k: int| 0 <= k < r@.len() ==> #[trigger] r@[k] == rgba_byte(bgra@, k),
{
    let pixels = bgra.len() / 4;
    let mut alpha = false;
    let mut p: usize = 0;
    while p < pixels
        invariant
            pixels == bgra@.len() / 4,
            4 * pixels <= bgra.len(),
            bgra@.len() == bgra.len(),
            p <= pixels,
            alpha == exists|q: int| 0 <= q < p && #[trigger] bgra@[4 * q + 3] != 0,
        decreases pixels - p,
    {
        if bgra[4 * p + 3] != 0 {
            alpha = true;
        }
        p += 1;
    }
    assert(alpha == has_alpha(bgra@));
    let mut out: Vec<u8> = Vec::new();
    let mut p: usize = 0;
    while p < pixels
        invariant
            pixels == bgra@.len() / 4,
            4 * pixels <= bgra.len(),
            bgra@.len() == bgra.len(),
            p <= pixels,
            alpha == has_alpha(bgra@),
            out@.len() == 4 * p,
            forall|k: int| 0 <= k < out@.len() ==> #[trigger] out@[k] == rgba_byte(bgra@, k),
        decreases pixels - p,
    {
        let base = 4 * p;
        let a: u8 = if alpha {
            bgra[base + 3]
        } else if bgra[base] != 0 || bgra[base + 1] != 0 || bgra[base + 2] != 0 {
            255
        } else {
            0
        };
        assert(a == icon_alpha(bgra@, p as int));
        let ghost before = out@;
        out.push(bgra[base + 2]);
        out.push(bgra[base + 1]);
        out.push(bgra[base]);
        out.push(a);
        assert forall|k: int| 0 <= k < out@.len() implies #[trigger] out@[k] == rgba_byte(bgra@, k) by {
            if k < before.len() {
                assert(out@[k] == before[k]);
            } else {
                assert(k / 4 == p as int);
                assert(k % 4 == k - 4 * p);
            }
        }
        p += 1;
    }
    out
}

} // verus!
