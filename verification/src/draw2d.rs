//! Integer pixel-buffer drawing primitives over RGBA frames: rectangle
//! fills and outlines, alpha blending, masked blits, slice copies and
//! nearest-neighbour scaling. A frame is a byte vector of `stride * height`
//! pixels, four bytes each.

use vstd::prelude::*;

use crate::tileset::{anim_cell, cell_in_grid, TileMap};

verus! {

/// The source pixel an animated-tile blit reads for destination offset
/// `(sx, sy)`: nearest-neighbour scaling of cell `cell` onto a square of
/// `target` pixels.
pub open spec fn tile_src_pixel(
    map: TileMap,
    cell: (usize, usize),
    sx: int,
    sy: int,
    target: usize,
) -> Seq<u8> {
    pixel_at(
        map.pixels@,
        map.width,
        cell.0 * map.grid_size + sx * map.grid_size / (target as int),
        cell.1 * map.grid_size + sy * map.grid_size / (target as int),
    )
}

/// Horizontal text placement inside a rectangle.
#[derive(PartialEq, Eq, Structural)]
pub enum TextAlignment {
    Left,
    Center,
    Right,
}

/// The drawing primitives. The struct carries no state; it groups the
/// operations as methods.
pub struct Draw2D {}

/// The byte index of pixel `(x, y)` in a frame of the given stride.
pub open spec fn pix(stride: usize, x: int, y: int) -> int {
    x * 4 + y * (stride as int) * 4
}

/// Whether `(x, y)` lies inside the rectangle `(left, top, width, height)`.
pub open spec fn in_rect(rect: (usize, usize, usize, usize), x: int, y: int) -> bool {
    rect.0 <= x < rect.0 + rect.2 && rect.1 <= y < rect.1 + rect.3
}

/// Whether byte `i` belongs to some pixel of the rectangle.
pub open spec fn rect_covers(rect: (usize, usize, usize, usize), stride: usize, i: int) -> bool {
    exists|x: int, y: int|
        in_rect(rect, x, y) && #[trigger] pix(stride, x, y) <= i < pix(stride, x, y) + 4
}

/// The four bytes of pixel `(x, y)`.
pub open spec fn pixel_at(f: Seq<u8>, stride: usize, x: int, y: int) -> Seq<u8> {
    f.subrange(pix(stride, x, y), pix(stride, x, y) + 4)
}

/// One blended channel: the background weighted by `255 - m` against the
/// color weighted by `m`, in 255ths, rounded down.
pub open spec fn mix_channel(a: u8, b: u8, m: u8) -> u8 {
    ((((255 - m as int) * a as int + m as int * b as int) / 255) as u8)
}

/// An RGB blend of a background pixel and a color at mask weight `m`; the
/// result is fully opaque.
pub open spec fn mixed_color(bg: Seq<u8>, c: Seq<u8>, m: u8) -> Seq<u8> {
    seq![
        mix_channel(bg[0], c[0], m),
        mix_channel(bg[1], c[1], m),
        mix_channel(bg[2], c[2], m),
        255u8,
    ]
}

/// Pixels of one row never collide: within a row, distinct columns give
/// byte ranges at least four apart.
proof fn lemma_pix_row_bound(stride: usize, x: int, y: int, ymax: int)
    requires
        0 <= x,
        x < stride,
        0 <= y < ymax,
    ensures
        0 <= pix(stride, x, y),
        0 <= y * (stride as int) * 4,
        x * 4 <= pix(stride, x, y),
        pix(stride, x, y) + 4 <= ymax * (stride as int) * 4,
{
    assert(0 <= y * (stride as int) * 4 && x * 4 + y * (stride as int) * 4 + 4 <= ymax * (
    stride as int) * 4) by (nonlinear_arith)
        requires
            0 <= x,
            x < stride,
            0 <= y < ymax,
    ;
    assert(x * 4 + y * (stride as int) * 4 >= 0) by (nonlinear_arith)
        requires
            0 <= x,
            0 <= y,
    ;
}

/// Pixels of earlier rows lie wholly before pixels of later rows.
proof fn lemma_pix_order(stride: usize, a: int, b: int, x: int, y: int)
    requires
        0 <= a,
        a < stride,
        0 <= x,
        0 <= b < y,
    ensures
        pix(stride, a, b) + 4 <= pix(stride, x, y),
{
    assert(a * 4 + b * (stride as int) * 4 + 4 <= x * 4 + y * (stride as int) * 4)
        by (nonlinear_arith)
        requires
            0 <= a,
            a < stride,
            0 <= x,
            0 <= b < y,
    ;
}

/// Two distinct pixels occupy disjoint byte ranges.
proof fn lemma_pix_disjoint(stride: usize, a: int, b: int, x: int, y: int)
    requires
        0 <= a < stride,
        0 <= x < stride,
        0 <= b,
        0 <= y,
        !(a == x && b == y),
    ensures
        pix(stride, a, b) + 4 <= pix(stride, x, y) || pix(stride, x, y) + 4 <= pix(stride, a, b),
{
    if b < y {
        lemma_pix_order(stride, a, b, x, y);
    } else if y < b {
        lemma_pix_order(stride, x, y, a, b);
    }
}

/// Whether byte `i` belongs to a pixel of the rectangle that lies before
/// `(x, y)` in row-major order.
pub open spec fn covered_upto(
    rect: (usize, usize, usize, usize),
    stride: usize,
    x: int,
    y: int,
    i: int,
) -> bool {
    exists|a: int, b: int|
        in_rect(rect, a, b) && (b < y || (b == y && a < x)) && #[trigger] pix(stride, a, b) <= i
            < pix(stride, a, b) + 4
}

/// A byte of pixel `(x, y)` is not covered by any pixel written before it.
proof fn lemma_uncovered_pixel(
    rect: (usize, usize, usize, usize),
    stride: usize,
    x: int,
    y: int,
    i: int,
)
    requires
        rect.0 + rect.2 <= stride,
        in_rect(rect, x, y),
        pix(stride, x, y) <= i < pix(stride, x, y) + 4,
    ensures
        !covered_upto(rect, stride, x, y, i),
{
    if covered_upto(rect, stride, x, y, i) {
        let (a, b) = choose|a: int, b: int|
            in_rect(rect, a, b) && (b < y || (b == y && a < x)) && (#[trigger] pix(
                stride,
                a,
                b,
            )) <= i < pix(stride, a, b) + 4;
        lemma_pix_disjoint(stride, a, b, x, y);
    }
}

/// The color a square-pattern fill gives pixel `(x, y)`: the line color on
/// every `ps`-th row and column, the base color elsewhere.
pub open spec fn pattern_color(
    color: Seq<u8>,
    line_color: Seq<u8>,
    ps: usize,
    x: int,
    y: int,
) -> Seq<u8> {
    if x % (ps as int) == 0 || y % (ps as int) == 0 {
        line_color
    } else {
        color
    }
}

/// Whether `(x, y)` lies on the one-pixel border of the rectangle.
pub open spec fn on_outline(rect: (usize, usize, usize, usize), x: int, y: int) -> bool {
    in_rect(rect, x, y) && (x == rect.0 || x == rect.0 + rect.2 - 1 || y == rect.1 || y == rect.1
        + rect.3 - 1)
}

/// Whether byte `i` belongs to some pixel of the rectangle's border.
pub open spec fn outline_covers(rect: (usize, usize, usize, usize), stride: usize, i: int) -> bool {
    exists|x: int, y: int|
        on_outline(rect, x, y) && #[trigger] pix(stride, x, y) <= i < pix(stride, x, y) + 4
}

/// Whether `(x, y)` lies inside a signed rectangle.
pub open spec fn in_rect_i(rect: (isize, isize, usize, usize), x: int, y: int) -> bool {
    rect.0 <= x < rect.0 + rect.2 && rect.1 <= y < rect.1 + rect.3
}

/// Whether byte `i` belongs to some pixel of the signed rectangle that
/// also lies inside the safe rectangle.
pub open spec fn clip_covers(
    rect: (isize, isize, usize, usize),
    safe: (usize, usize, usize, usize),
    stride: usize,
    i: int,
) -> bool {
    exists|x: int, y: int|
        in_rect_i(rect, x, y) && in_rect(safe, x, y) && #[trigger] pix(stride, x, y) <= i < pix(
            stride,
            x,
            y,
        ) + 4
}

/// Whether source offset `(sx, sy)` of a clipped blit lands inside the
/// safe rectangle.
pub open spec fn slice_vis(
    rect: (isize, isize, usize, usize),
    safe: (usize, usize, usize, usize),
    sx: int,
    sy: int,
) -> bool {
    0 <= sx < rect.2 && 0 <= sy < rect.3 && in_rect(safe, rect.0 + sx, rect.1 + sy)
}

/// Whether byte `i` belongs to some destination pixel of a clipped blit.
pub open spec fn slice_covers(
    rect: (isize, isize, usize, usize),
    safe: (usize, usize, usize, usize),
    stride: usize,
    i: int,
) -> bool {
    exists|sx: int, sy: int|
        slice_vis(rect, safe, sx, sy) && #[trigger] pix(stride, rect.0 + sx, rect.1 + sy) <= i
            < pix(stride, rect.0 + sx, rect.1 + sy) + 4
}

/// Whether byte `i` belongs to a destination pixel of a clipped blit whose
/// source offset lies before `(sx, sy)` in row-major order.
pub open spec fn slice_covered_upto(
    rect: (isize, isize, usize, usize),
    safe: (usize, usize, usize, usize),
    stride: usize,
    sx: int,
    sy: int,
    i: int,
) -> bool {
    exists|a: int, b: int|
        slice_vis(rect, safe, a, b) && (b < sy || (b == sy && a < sx)) && #[trigger] pix(
            stride,
            rect.0 + a,
            rect.1 + b,
        ) <= i < pix(stride, rect.0 + a, rect.1 + b) + 4
}

/// A byte of the destination pixel of source offset `(sx, sy)` is not
/// covered by any destination pixel written before it.
proof fn lemma_slice_uncovered(
    rect: (isize, isize, usize, usize),
    safe: (usize, usize, usize, usize),
    stride: usize,
    sx: int,
    sy: int,
    i: int,
)
    requires
        safe.0 + safe.2 <= stride,
        slice_vis(rect, safe, sx, sy),
        pix(stride, rect.0 + sx, rect.1 + sy) <= i < pix(stride, rect.0 + sx, rect.1 + sy) + 4,
    ensures
        !slice_covered_upto(rect, safe, stride, sx, sy, i),
{
    if slice_covered_upto(rect, safe, stride, sx, sy, i) {
        let (a, b) = choose|a: int, b: int|
            slice_vis(rect, safe, a, b) && (b < sy || (b == sy && a < sx)) && (#[trigger] pix(
                stride,
                rect.0 + a,
                rect.1 + b,
            )) <= i < pix(stride, rect.0 + a, rect.1 + b) + 4;
        lemma_pix_disjoint(stride, rect.0 + a, rect.1 + b, rect.0 + sx, rect.1 + sy);
    }
}

/// Nearest-neighbour source coordinate: scaling `n` source pixels onto `d`
/// destination pixels sends destination offset `sx` to source offset
/// `sx * n / d`, which stays inside the source.
proof fn lemma_scale_bound(sx: int, n: int, d: int)
    requires
        0 <= sx < d,
        0 < n,
    ensures
        0 <= sx * n / d < n,
{
    assert(sx * n < d * n && sx * n >= 0) by (nonlinear_arith)
        requires
            0 <= sx < d,
            0 < n,
    ;
    vstd::arithmetic::div_mod::lemma_multiply_divide_lt(sx * n, d, n);
    vstd::arithmetic::div_mod::lemma_div_of0(d);
    vstd::arithmetic::div_mod::lemma_div_is_ordered(0, sx * n, d);
}

/// Writes one pixel.
fn put_pixel(frame: &mut Vec<u8>, d: usize, color: &[u8; 4])
    requires
        d + 4 <= old(frame)@.len(),
    ensures
        final(frame)@.len() == old(frame)@.len(),
        final(frame)@[d as int] == color@[0],
        final(frame)@[d + 1 as int] == color@[1],
        final(frame)@[d + 2 as int] == color@[2],
        final(frame)@[d + 3 as int] == color@[3],
        forall|i: int|
            0 <= i < old(frame)@.len() && !(d <= i < d + 4) ==> final(frame)@[i] == old(frame)@[i],
{
    let n = frame.len();
    frame.set(d, color[0]);
    frame.set(d + 1, color[1]);
    frame.set(d + 2, color[2]);
    frame.set(d + 3, color[3]);
}

/// One blended channel.
fn mix_channel_exec(a: u8, b: u8, m: u8) -> (r: u8)
    ensures
        r == mix_channel(a, b, m),
{
    proof {
        assert((255 - m as int) * a as int + m as int * b as int <= 255 * 255)
            by (nonlinear_arith)
            requires
                a as int <= 255,
                b as int <= 255,
                0 <= m as int <= 255,
        ;
        assert((255 - m as int) * a as int + m as int * b as int >= 0) by (nonlinear_arith)
            requires
                a as int >= 0,
                b as int >= 0,
                0 <= m as int <= 255,
        ;
    }
    let v: u32 = ((255 - m as u32) * a as u32 + m as u32 * b as u32) / 255;
    v as u8
}

impl Draw2D {
    /// Fills the given rectangle with a color: every pixel inside it
    /// becomes `color`, every byte outside it is untouched.
    pub fn draw_rect(
        &self,
        frame: &mut Vec<u8>,
        rect: &(usize, usize, usize, usize),
        stride: usize,
        color: &[u8; 4],
    )
        requires
            0 < stride,
            rect.0 + rect.2 <= stride,
            (rect.1 + rect.3) * stride * 4 <= old(frame)@.len(),
        ensures
            final(frame)@.len() == old(frame)@.len(),
            forall|x: int, y: int|
                in_rect(*rect, x, y) ==> pixel_at(final(frame)@, stride, x, y) == color@,
            forall|i: int|
                0 <= i < old(frame)@.len() && !rect_covers(*rect, stride, i) ==> final(frame)@[i]
                    == old(frame)@[i],
    {
        let flen0 = frame.len();
        proof {
            assert(rect.1 + rect.3 <= (rect.1 + rect.3) * (stride as int) * 4) by (nonlinear_arith)
                requires
                    stride as int >= 1,
                    rect.1 + rect.3 >= 0,
            ;
        }
        let y_end = rect.1 + rect.3;
        let x_end = rect.0 + rect.2;
        let mut y = rect.1;
        while y < y_end
            invariant
                0 < stride,
                rect.0 + rect.2 <= stride,
                (rect.1 + rect.3) * stride * 4 <= old(frame)@.len(),
                y_end == rect.1 + rect.3,
                x_end == rect.0 + rect.2,
                rect.1 <= y <= y_end,
                frame@.len() == old(frame)@.len(),
                forall|a: int, b: int|
                    in_rect(*rect, a, b) && b < y ==> pixel_at(frame@, stride, a, b) == color@,
                forall|i: int|
                    0 <= i < old(frame)@.len() && !rect_covers(*rect, stride, i) ==> frame@[i]
                        == old(frame)@[i],
            decreases y_end - y,
        {
            let mut x = rect.0;
            while x < x_end
                invariant
                    0 < stride,
                    rect.0 + rect.2 <= stride,
                    (rect.1 + rect.3) * stride * 4 <= old(frame)@.len(),
                    y_end == rect.1 + rect.3,
                    x_end == rect.0 + rect.2,
                    rect.1 <= y < y_end,
                    rect.0 <= x <= x_end,
                    frame@.len() == old(frame)@.len(),
                    forall|a: int, b: int|
                        in_rect(*rect, a, b) && (b < y || (b == y && a < x)) ==> pixel_at(
                            frame@,
                            stride,
                            a,
                            b,
                        ) == color@,
                    forall|i: int|
                        0 <= i < old(frame)@.len() && !rect_covers(*rect, stride, i) ==> frame@[i]
                            == old(frame)@[i],
                decreases x_end - x,
            {
                let flen = frame.len();
                proof {
                    lemma_pix_row_bound(stride, x as int, y as int, (rect.1 + rect.3) as int);
                    assert(x * 4 + y * (stride as int) * 4 + 4 <= flen as int);
                }
                let d = x * 4 + y * stride * 4;
                let ghost fpre = frame@;
                put_pixel(frame, d, color);
                proof {
                    assert(in_rect(*rect, x as int, y as int));
                    assert(rect_covers(*rect, stride, d as int));
                    assert(rect_covers(*rect, stride, d + 1));
                    assert(rect_covers(*rect, stride, d + 2));
                    assert(rect_covers(*rect, stride, d + 3));
                    assert(pixel_at(frame@, stride, x as int, y as int) =~= color@);
                    assert forall|a: int, b: int|
                        in_rect(*rect, a, b) && (b < y || (b == y && a <= x)) implies pixel_at(
                        frame@,
                        stride,
                        a,
                        b,
                    ) == color@ by {
                        if b == y && a == x {
                        } else {
                            if b < y {
                                lemma_pix_order(stride, a, b, x as int, y as int);
                            } else if b == y && a < x {
                                assert(pix(stride, a, b) + 4 <= pix(stride, x as int, y as int));
                            } else if b == y && a > x {
                                assert(pix(stride, x as int, y as int) + 4 <= pix(stride, a, b));
                            } else {
                                lemma_pix_order(stride, x as int, y as int, a, b);
                            }
                            assert(pixel_at(frame@, stride, a, b) =~= pixel_at(fpre, stride, a, b));
                        }
                    }
                }
                x += 1;
            }
            y += 1;
        }
    }

    /// Blends a color over the given rectangle at the weight of the
    /// color's own alpha channel; every byte outside the rectangle is
    /// untouched.
    pub fn blend_rect(
        &self,
        frame: &mut Vec<u8>,
        rect: &(usize, usize, usize, usize),
        stride: usize,
        color: &[u8; 4],
    )
        requires
            0 < stride,
            rect.0 + rect.2 <= stride,
            (rect.1 + rect.3) * stride * 4 <= old(frame)@.len(),
        ensures
            final(frame)@.len() == old(frame)@.len(),
            forall|x: int, y: int|
                in_rect(*rect, x, y) ==> pixel_at(final(frame)@, stride, x, y) == mixed_color(
                    pixel_at(old(frame)@, stride, x, y),
                    color@,
                    color[3],
                ),
            forall|i: int|
                0 <= i < old(frame)@.len() && !rect_covers(*rect, stride, i) ==> final(frame)@[i]
                    == old(frame)@[i],
    {
        let flen0 = frame.len();
        proof {
            assert(rect.1 + rect.3 <= (rect.1 + rect.3) * (stride as int) * 4) by (nonlinear_arith)
                requires
                    stride as int >= 1,
                    rect.1 + rect.3 >= 0,
            ;
        }
        let y_end = rect.1 + rect.3;
        let x_end = rect.0 + rect.2;
        let mut y = rect.1;
        while y < y_end
            invariant
                0 < stride,
                rect.0 + rect.2 <= stride,
                (rect.1 + rect.3) * stride * 4 <= old(frame)@.len(),
                y_end == rect.1 + rect.3,
                x_end == rect.0 + rect.2,
                rect.1 <= y <= y_end,
                frame@.len() == old(frame)@.len(),
                forall|a: int, b: int|
                    in_rect(*rect, a, b) && b < y ==> pixel_at(frame@, stride, a, b)
                        == mixed_color(pixel_at(old(frame)@, stride, a, b), color@, color[3]),
                forall|i: int|
                    0 <= i < old(frame)@.len() && !covered_upto(
                        *rect,
                        stride,
                        rect.0 as int,
                        y as int,
                        i,
                    ) ==> frame@[i] == old(frame)@[i],
            decreases y_end - y,
        {
            let mut x = rect.0;
            while x < x_end
                invariant
                    0 < stride,
                    rect.0 + rect.2 <= stride,
                    (rect.1 + rect.3) * stride * 4 <= old(frame)@.len(),
                    y_end == rect.1 + rect.3,
                    x_end == rect.0 + rect.2,
                    rect.1 <= y < y_end,
                    rect.0 <= x <= x_end,
                    frame@.len() == old(frame)@.len(),
                    forall|a: int, b: int|
                        in_rect(*rect, a, b) && (b < y || (b == y && a < x)) ==> pixel_at(
                            frame@,
                            stride,
                            a,
                            b,
                        ) == mixed_color(pixel_at(old(frame)@, stride, a, b), color@, color[3]),
                    forall|i: int|
                        0 <= i < old(frame)@.len() && !covered_upto(
                            *rect,
                            stride,
                            x as int,
                            y as int,
                            i,
                        ) ==> frame@[i] == old(frame)@[i],
                decreases x_end - x,
            {
                let flen = frame.len();
                proof {
                    lemma_pix_row_bound(stride, x as int, y as int, (rect.1 + rect.3) as int);
                    assert(x * 4 + y * (stride as int) * 4 + 4 <= flen as int);
                    let d0 = pix(stride, x as int, y as int);
                    lemma_uncovered_pixel(*rect, stride, x as int, y as int, d0);
                    lemma_uncovered_pixel(*rect, stride, x as int, y as int, d0 + 1);
                    lemma_uncovered_pixel(*rect, stride, x as int, y as int, d0 + 2);
                    lemma_uncovered_pixel(*rect, stride, x as int, y as int, d0 + 3);
                }
                let d = x * 4 + y * stride * 4;
                let bg0 = frame[d];
                let bg1 = frame[d + 1];
                let bg2 = frame[d + 2];
                let m = color[3];
                let px: [u8; 4] = [
                    mix_channel_exec(bg0, color[0], m),
                    mix_channel_exec(bg1, color[1], m),
                    mix_channel_exec(bg2, color[2], m),
                    255,
                ];
                let ghost fpre = frame@;
                put_pixel(frame, d, &px);
                proof {
                    assert(in_rect(*rect, x as int, y as int));
                    assert(pixel_at(old(frame)@, stride, x as int, y as int)[0] == bg0);
                    assert(pixel_at(old(frame)@, stride, x as int, y as int)[1] == bg1);
                    assert(pixel_at(old(frame)@, stride, x as int, y as int)[2] == bg2);
                    assert(pixel_at(frame@, stride, x as int, y as int) =~= mixed_color(
                        pixel_at(old(frame)@, stride, x as int, y as int),
                        color@,
                        m,
                    ));
                    assert forall|a: int, b: int|
                        in_rect(*rect, a, b) && (b < y || (b == y && a <= x)) implies pixel_at(
                        frame@,
                        stride,
                        a,
                        b,
                    ) == mixed_color(pixel_at(old(frame)@, stride, a, b), color@, color[3]) by {
                        if !(b == y && a == x) {
                            lemma_pix_disjoint(stride, a, b, x as int, y as int);
                            lemma_pix_row_bound(stride, a, b, (rect.1 + rect.3) as int);
                            assert(pixel_at(frame@, stride, a, b) =~= pixel_at(fpre, stride, a, b));
                        }
                    }
                    assert forall|i: int|
                        0 <= i < old(frame)@.len() && !covered_upto(
                            *rect,
                            stride,
                            x + 1 as int,
                            y as int,
                            i,
                        ) implies frame@[i] == old(frame)@[i] by {
                        let d0 = pix(stride, x as int, y as int);
                        if d0 <= i < d0 + 4 {
                            assert(covered_upto(*rect, stride, x + 1 as int, y as int, i));
                        } else {
                            assert(!covered_upto(*rect, stride, x as int, y as int, i));
                        }
                    }
                }
                x += 1;
            }
            proof {
                assert forall|i: int|
                    0 <= i < old(frame)@.len() && !covered_upto(
                        *rect,
                        stride,
                        rect.0 as int,
                        y + 1 as int,
                        i,
                    ) implies frame@[i] == old(frame)@[i] by {
                    if covered_upto(*rect, stride, x_end as int, y as int, i) {
                        let (a, b) = choose|a: int, b: int|
                            in_rect(*rect, a, b) && (b < y || (b == y && a < x_end)) && (
                            #[trigger] pix(stride, a, b)) <= i < pix(stride, a, b) + 4;
                        assert(covered_upto(*rect, stride, rect.0 as int, y + 1 as int, i));
                    }
                }
            }
            y += 1;
        }
        proof {
            assert forall|i: int|
                0 <= i < old(frame)@.len() && !rect_covers(*rect, stride, i) implies frame@[i]
                    == old(frame)@[i] by {
                if covered_upto(*rect, stride, rect.0 as int, y_end as int, i) {
                    let (a, b) = choose|a: int, b: int|
                        in_rect(*rect, a, b) && (b < y_end || (b == y_end && a < rect.0)) && (
                        #[trigger] pix(stride, a, b)) <= i < pix(stride, a, b) + 4;
                    assert(rect_covers(*rect, stride, i));
                }
            }
        }
    }

    /// Draws the one-pixel border of the rectangle: every border pixel
    /// becomes `color`, every byte off the border is untouched.
    pub fn draw_rect_outline(
        &self,
        frame: &mut Vec<u8>,
        rect: &(usize, usize, usize, usize),
        stride: usize,
        color: [u8; 4],
    )
        requires
            0 < stride,
            0 < rect.2,
            0 < rect.3,
            rect.0 + rect.2 <= stride,
            (rect.1 + rect.3) * stride * 4 <= old(frame)@.len(),
        ensures
            final(frame)@.len() == old(frame)@.len(),
            forall|x: int, y: int|
                on_outline(*rect, x, y) ==> pixel_at(final(frame)@, stride, x, y) == color@,
            forall|i: int|
                0 <= i < old(frame)@.len() && !outline_covers(*rect, stride, i) ==> final(frame)@[i]
                    == old(frame)@[i],
    {
        let flen0 = frame.len();
        proof {
            assert(rect.1 + rect.3 <= (rect.1 + rect.3) * (stride as int) * 4) by (nonlinear_arith)
                requires
                    stride as int >= 1,
                    rect.1 + rect.3 >= 0,
            ;
        }
        let top = rect.1;
        let bot = rect.1 + rect.3 - 1;
        let left = rect.0;
        let right = rect.0 + rect.2 - 1;
        let x_end = rect.0 + rect.2;
        let y_end = rect.1 + rect.3;
        let mut x = rect.0;
        while x < x_end
            invariant
                0 < stride,
                0 < rect.2,
                0 < rect.3,
                rect.0 + rect.2 <= stride,
                (rect.1 + rect.3) * stride * 4 <= old(frame)@.len(),
                top == rect.1,
                bot == rect.1 + rect.3 - 1,
                x_end == rect.0 + rect.2,
                rect.0 <= x <= x_end,
                frame@.len() == old(frame)@.len(),
                forall|a: int|
                    rect.0 <= a < x ==> pixel_at(frame@, stride, a, top as int) == color@
                        && pixel_at(frame@, stride, a, bot as int) == color@,
                forall|i: int|
                    0 <= i < old(frame)@.len() && !outline_covers(*rect, stride, i) ==> frame@[i]
                        == old(frame)@[i],
            decreases x_end - x,
        {
            let flen = frame.len();
            proof {
                lemma_pix_row_bound(stride, x as int, top as int, (rect.1 + rect.3) as int);
                lemma_pix_row_bound(stride, x as int, bot as int, (rect.1 + rect.3) as int);
                assert(x * 4 + bot * (stride as int) * 4 + 4 <= flen as int);
            }
            let d1 = x * 4 + top * stride * 4;
            let ghost f0 = frame@;
            put_pixel(frame, d1, &color);
            proof {
                assert(on_outline(*rect, x as int, top as int));
                assert(outline_covers(*rect, stride, d1 as int));
                assert(outline_covers(*rect, stride, d1 + 1));
                assert(outline_covers(*rect, stride, d1 + 2));
                assert(outline_covers(*rect, stride, d1 + 3));
                assert(pixel_at(frame@, stride, x as int, top as int) =~= color@);
                assert forall|a: int|
                    rect.0 <= a < x implies pixel_at(frame@, stride, a, top as int) == color@
                        && pixel_at(frame@, stride, a, bot as int) == color@ by {
                    lemma_pix_disjoint(stride, a, top as int, x as int, top as int);
                    lemma_pix_row_bound(stride, a, top as int, (rect.1 + rect.3) as int);
                    assert(pixel_at(frame@, stride, a, top as int) =~= pixel_at(
                        f0,
                        stride,
                        a,
                        top as int,
                    ));
                    if bot != top {
                        lemma_pix_disjoint(stride, a, bot as int, x as int, top as int);
                    }
                    lemma_pix_row_bound(stride, a, bot as int, (rect.1 + rect.3) as int);
                    assert(pixel_at(frame@, stride, a, bot as int) =~= pixel_at(
                        f0,
                        stride,
                        a,
                        bot as int,
                    ));
                }
            }
            let d2 = x * 4 + bot * stride * 4;
            let ghost f1 = frame@;
            put_pixel(frame, d2, &color);
            proof {
                assert(on_outline(*rect, x as int, bot as int));
                assert(outline_covers(*rect, stride, d2 as int));
                assert(outline_covers(*rect, stride, d2 + 1));
                assert(outline_covers(*rect, stride, d2 + 2));
                assert(outline_covers(*rect, stride, d2 + 3));
                assert(pixel_at(frame@, stride, x as int, bot as int) =~= color@);
                if bot != top {
                    assert(pixel_at(frame@, stride, x as int, top as int) =~= pixel_at(
                        f1,
                        stride,
                        x as int,
                        top as int,
                    )) by {
                        lemma_pix_disjoint(stride, x as int, top as int, x as int, bot as int);
                    }
                }
                assert forall|a: int|
                    rect.0 <= a <= x implies pixel_at(frame@, stride, a, top as int) == color@
                        && pixel_at(frame@, stride, a, bot as int) == color@ by {
                    if a < x {
                        lemma_pix_disjoint(stride, a, bot as int, x as int, bot as int);
                        lemma_pix_row_bound(stride, a, bot as int, (rect.1 + rect.3) as int);
                        assert(pixel_at(frame@, stride, a, bot as int) =~= pixel_at(
                            f1,
                            stride,
                            a,
                            bot as int,
                        ));
                        if top != bot {
                            lemma_pix_disjoint(stride, a, top as int, x as int, bot as int);
                        }
                        lemma_pix_row_bound(stride, a, top as int, (rect.1 + rect.3) as int);
                        assert(pixel_at(frame@, stride, a, top as int) =~= pixel_at(
                            f1,
                            stride,
                            a,
                            top as int,
                        ));
                    }
                }
            }
            x += 1;
        }
        let mut y = rect.1;
        while y < y_end
            invariant
                0 < stride,
                0 < rect.2,
                0 < rect.3,
                rect.0 + rect.2 <= stride,
                (rect.1 + rect.3) * stride * 4 <= old(frame)@.len(),
                top == rect.1,
                bot == rect.1 + rect.3 - 1,
                left == rect.0,
                right == rect.0 + rect.2 - 1,
                y_end == rect.1 + rect.3,
                rect.1 <= y <= y_end,
                frame@.len() == old(frame)@.len(),
                forall|a: int|
                    rect.0 <= a < rect.0 + rect.2 ==> pixel_at(frame@, stride, a, top as int)
                        == color@ && pixel_at(frame@, stride, a, bot as int) == color@,
                forall|b: int|
                    rect.1 <= b < y ==> pixel_at(frame@, stride, left as int, b) == color@
                        && pixel_at(frame@, stride, right as int, b) == color@,
                forall|i: int|
                    0 <= i < old(frame)@.len() && !outline_covers(*rect, stride, i) ==> frame@[i]
                        == old(frame)@[i],
            decreases y_end - y,
        {
            let flen = frame.len();
            proof {
                lemma_pix_row_bound(stride, left as int, y as int, (rect.1 + rect.3) as int);
                lemma_pix_row_bound(stride, right as int, y as int, (rect.1 + rect.3) as int);
                assert(right * 4 + y * (stride as int) * 4 + 4 <= flen as int);
            }
            let d1 = left * 4 + y * stride * 4;
            let ghost f0 = frame@;
            put_pixel(frame, d1, &color);
            proof {
                assert(on_outline(*rect, left as int, y as int));
                assert(outline_covers(*rect, stride, d1 as int));
                assert(outline_covers(*rect, stride, d1 + 1));
                assert(outline_covers(*rect, stride, d1 + 2));
                assert(outline_covers(*rect, stride, d1 + 3));
                assert(pixel_at(frame@, stride, left as int, y as int) =~= color@);
            }
            let d2 = right * 4 + y * stride * 4;
            let ghost f1 = frame@;
            put_pixel(frame, d2, &color);
            proof {
                assert(on_outline(*rect, right as int, y as int));
                assert(outline_covers(*rect, stride, d2 as int));
                assert(outline_covers(*rect, stride, d2 + 1));
                assert(outline_covers(*rect, stride, d2 + 2));
                assert(outline_covers(*rect, stride, d2 + 3));
                assert(pixel_at(frame@, stride, right as int, y as int) =~= color@);
                if left != right {
                    lemma_pix_disjoint(stride, left as int, y as int, right as int, y as int);
                    assert(pixel_at(frame@, stride, left as int, y as int) =~= pixel_at(
                        f1,
                        stride,
                        left as int,
                        y as int,
                    ));
                }
                assert(pixel_at(frame@, stride, left as int, y as int) == color@);
                assert forall|a: int, b: int|
                    0 <= a < stride && 0 <= b < rect.1 + rect.3 && !(a == left && b == y) && !(a
                        == right && b == y) implies pixel_at(frame@, stride, a, b) == pixel_at(
                    f0,
                    stride,
                    a,
                    b,
                ) by {
                    lemma_pix_disjoint(stride, a, b, left as int, y as int);
                    lemma_pix_disjoint(stride, a, b, right as int, y as int);
                    lemma_pix_row_bound(stride, a, b, (rect.1 + rect.3) as int);
                    assert(pixel_at(frame@, stride, a, b) =~= pixel_at(f0, stride, a, b));
                }
                assert forall|a: int|
                    rect.0 <= a < rect.0 + rect.2 implies pixel_at(frame@, stride, a, top as int)
                        == color@ && pixel_at(frame@, stride, a, bot as int) == color@ by {
                    if !((a == left && top == y) || (a == right && top == y)) {
                        assert(pixel_at(frame@, stride, a, top as int) == pixel_at(
                            f0,
                            stride,
                            a,
                            top as int,
                        ));
                    }
                    if !((a == left && bot == y) || (a == right && bot == y)) {
                        assert(pixel_at(frame@, stride, a, bot as int) == pixel_at(
                            f0,
                            stride,
                            a,
                            bot as int,
                        ));
                    }
                }
                assert forall|b: int|
                    rect.1 <= b <= y implies pixel_at(frame@, stride, left as int, b) == color@
                        && pixel_at(frame@, stride, right as int, b) == color@ by {
                    if b < y {
                        assert(pixel_at(frame@, stride, left as int, b) == pixel_at(
                            f0,
                            stride,
                            left as int,
                            b,
                        ));
                        assert(pixel_at(frame@, stride, right as int, b) == pixel_at(
                            f0,
                            stride,
                            right as int,
                            b,
                        ));
                    }
                }
            }
            y += 1;
        }
        proof {
            assert forall|x2: int, y2: int| on_outline(*rect, x2, y2) implies pixel_at(
                frame@,
                stride,
                x2,
                y2,
            ) == color@ by {
                if y2 == rect.1 || y2 == rect.1 + rect.3 - 1 {
                } else {
                    assert(x2 == rect.0 || x2 == rect.0 + rect.2 - 1);
                }
            }
        }
    }

    /// Fills the rectangle with a checked pattern: every `pattern_size`-th
    /// row and column takes `line_color`, every other pixel takes `color`.
    pub fn draw_square_pattern(
        &self,
        frame: &mut Vec<u8>,
        rect: &(usize, usize, usize, usize),
        stride: usize,
        color: &[u8; 4],
        line_color: &[u8; 4],
        pattern_size: usize,
    )
        requires
            0 < stride,
            0 < pattern_size,
            rect.0 + rect.2 <= stride,
            (rect.1 + rect.3) * stride * 4 <= old(frame)@.len(),
        ensures
            final(frame)@.len() == old(frame)@.len(),
            forall|x: int, y: int|
                in_rect(*rect, x, y) ==> pixel_at(final(frame)@, stride, x, y) == pattern_color(
                    color@,
                    line_color@,
                    pattern_size,
                    x,
                    y,
                ),
            forall|i: int|
                0 <= i < old(frame)@.len() && !rect_covers(*rect, stride, i) ==> final(frame)@[i]
                    == old(frame)@[i],
    {
        let flen0 = frame.len();
        proof {
            assert(rect.1 + rect.3 <= (rect.1 + rect.3) * (stride as int) * 4) by (nonlinear_arith)
                requires
                    stride as int >= 1,
                    rect.1 + rect.3 >= 0,
            ;
        }
        let y_end = rect.1 + rect.3;
        let x_end = rect.0 + rect.2;
        let mut y = rect.1;
        while y < y_end
            invariant
                0 < stride,
                0 < pattern_size,
                rect.0 + rect.2 <= stride,
                (rect.1 + rect.3) * stride * 4 <= old(frame)@.len(),
                y_end == rect.1 + rect.3,
                x_end == rect.0 + rect.2,
                rect.1 <= y <= y_end,
                frame@.len() == old(frame)@.len(),
                forall|a: int, b: int|
                    in_rect(*rect, a, b) && b < y ==> pixel_at(frame@, stride, a, b)
                        == pattern_color(color@, line_color@, pattern_size, a, b),
                forall|i: int|
                    0 <= i < old(frame)@.len() && !rect_covers(*rect, stride, i) ==> frame@[i]
                        == old(frame)@[i],
            decreases y_end - y,
        {
            let mut x = rect.0;
            while x < x_end
                invariant
                    0 < stride,
                    0 < pattern_size,
                    rect.0 + rect.2 <= stride,
                    (rect.1 + rect.3) * stride * 4 <= old(frame)@.len(),
                    y_end == rect.1 + rect.3,
                    x_end == rect.0 + rect.2,
                    rect.1 <= y < y_end,
                    rect.0 <= x <= x_end,
                    frame@.len() == old(frame)@.len(),
                    forall|a: int, b: int|
                        in_rect(*rect, a, b) && (b < y || (b == y && a < x)) ==> pixel_at(
                            frame@,
                            stride,
                            a,
                            b,
                        ) == pattern_color(color@, line_color@, pattern_size, a, b),
                    forall|i: int|
                        0 <= i < old(frame)@.len() && !rect_covers(*rect, stride, i) ==> frame@[i]
                            == old(frame)@[i],
                decreases x_end - x,
            {
                let flen = frame.len();
                proof {
                    lemma_pix_row_bound(stride, x as int, y as int, (rect.1 + rect.3) as int);
                    assert(x * 4 + y * (stride as int) * 4 + 4 <= flen as int);
                }
                let d = x * 4 + y * stride * 4;
                let chosen: &[u8; 4] = if x % pattern_size == 0 || y % pattern_size == 0 {
                    line_color
                } else {
                    color
                };
                let ghost fpre = frame@;
                put_pixel(frame, d, chosen);
                proof {
                    assert(in_rect(*rect, x as int, y as int));
                    assert(rect_covers(*rect, stride, d as int));
                    assert(rect_covers(*rect, stride, d + 1));
                    assert(rect_covers(*rect, stride, d + 2));
                    assert(rect_covers(*rect, stride, d + 3));
                    assert(pixel_at(frame@, stride, x as int, y as int) =~= chosen@);
                    assert forall|a: int, b: int|
                        in_rect(*rect, a, b) && (b < y || (b == y && a <= x)) implies pixel_at(
                        frame@,
                        stride,
                        a,
                        b,
                    ) == pattern_color(color@, line_color@, pattern_size, a, b) by {
                        if !(b == y && a == x) {
                            lemma_pix_disjoint(stride, a, b, x as int, y as int);
                            lemma_pix_row_bound(stride, a, b, (rect.1 + rect.3) as int);
                            assert(pixel_at(frame@, stride, a, b) =~= pixel_at(fpre, stride, a, b));
                        }
                    }
                }
                x += 1;
            }
            y += 1;
        }
    }

    /// Copies a rectangle of pixels from a tightly packed source frame
    /// (rows of `rect.2` pixels) into the destination at `(rect.0, rect.1)`.
    pub fn copy_slice(
        &self,
        dest: &mut Vec<u8>,
        source: &Vec<u8>,
        rect: &(usize, usize, usize, usize),
        dest_stride: usize,
    )
        requires
            0 < dest_stride,
            rect.0 + rect.2 <= dest_stride,
            (rect.1 + rect.3) * dest_stride * 4 <= old(dest)@.len(),
            rect.3 * rect.2 * 4 <= source@.len(),
        ensures
            final(dest)@.len() == old(dest)@.len(),
            forall|a: int, b: int|
                in_rect(*rect, a, b) ==> pixel_at(final(dest)@, dest_stride, a, b) == pixel_at(
                    source@,
                    rect.2,
                    a - rect.0,
                    b - rect.1,
                ),
            forall|i: int|
                0 <= i < old(dest)@.len() && !rect_covers(*rect, dest_stride, i) ==> final(dest)@[i]
                    == old(dest)@[i],
    {
        let flen0 = dest.len();
        proof {
            assert(rect.1 + rect.3 <= (rect.1 + rect.3) * (dest_stride as int) * 4)
                by (nonlinear_arith)
                requires
                    dest_stride as int >= 1,
                    rect.1 + rect.3 >= 0,
            ;
        }
        let mut y: usize = 0;
        while y < rect.3
            invariant
                0 < dest_stride,
                rect.0 + rect.2 <= dest_stride,
                (rect.1 + rect.3) * dest_stride * 4 <= old(dest)@.len(),
                rect.3 * rect.2 * 4 <= source@.len(),
                y <= rect.3,
                dest@.len() == old(dest)@.len(),
                forall|a: int, b: int|
                    in_rect(*rect, a, b) && b - rect.1 < y ==> pixel_at(dest@, dest_stride, a, b)
                        == pixel_at(source@, rect.2, a - rect.0, b - rect.1),
                forall|i: int|
                    0 <= i < old(dest)@.len() && !rect_covers(*rect, dest_stride, i) ==> dest@[i]
                        == old(dest)@[i],
            decreases rect.3 - y,
        {
            let mut x: usize = 0;
            while x < rect.2
                invariant
                    0 < dest_stride,
                    rect.0 + rect.2 <= dest_stride,
                    (rect.1 + rect.3) * dest_stride * 4 <= old(dest)@.len(),
                    rect.3 * rect.2 * 4 <= source@.len(),
                    y < rect.3,
                    x <= rect.2,
                    dest@.len() == old(dest)@.len(),
                    forall|a: int, b: int|
                        in_rect(*rect, a, b) && (b - rect.1 < y || (b - rect.1 == y && a - rect.0
                            < x)) ==> pixel_at(dest@, dest_stride, a, b) == pixel_at(
                            source@,
                            rect.2,
                            a - rect.0,
                            b - rect.1,
                        ),
                    forall|i: int|
                        0 <= i < old(dest)@.len() && !rect_covers(*rect, dest_stride, i)
                            ==> dest@[i] == old(dest)@[i],
                decreases rect.2 - x,
            {
                let flen = dest.len();
                let slen = source.len();
                proof {
                    assert(rect.1 + rect.3 <= (rect.1 + rect.3) * (dest_stride as int) * 4)
                        by (nonlinear_arith)
                        requires
                            dest_stride as int >= 1,
                            rect.1 + rect.3 >= 0,
                    ;
                }
                let dx = rect.0 + x;
                let dy = rect.1 + y;
                proof {
                    lemma_pix_row_bound(dest_stride, dx as int, dy as int, (rect.1
                        + rect.3) as int);
                    assert(dx * 4 + dy * (dest_stride as int) * 4 + 4 <= flen as int);
                    lemma_pix_row_bound(rect.2, x as int, y as int, rect.3 as int);
                    assert(x * 4 + y * (rect.2 as int) * 4 + 4 <= slen as int);
                }
                let d = dx * 4 + dy * dest_stride * 4;
                let s = x * 4 + y * rect.2 * 4;
                let px: [u8; 4] = [source[s], source[s + 1], source[s + 2], source[s + 3]];
                let ghost fpre = dest@;
                put_pixel(dest, d, &px);
                proof {
                    assert(in_rect(*rect, dx as int, dy as int));
                    assert(rect_covers(*rect, dest_stride, d as int));
                    assert(rect_covers(*rect, dest_stride, d + 1));
                    assert(rect_covers(*rect, dest_stride, d + 2));
                    assert(rect_covers(*rect, dest_stride, d + 3));
                    assert(pixel_at(source@, rect.2, x as int, y as int) =~= px@);
                    assert(pixel_at(dest@, dest_stride, dx as int, dy as int) =~= px@);
                    assert forall|a: int, b: int|
                        in_rect(*rect, a, b) && (b - rect.1 < y || (b - rect.1 == y && a - rect.0
                            <= x)) implies pixel_at(dest@, dest_stride, a, b) == pixel_at(
                        source@,
                        rect.2,
                        a - rect.0,
                        b - rect.1,
                    ) by {
                        if !(b == dy && a == dx) {
                            lemma_pix_disjoint(dest_stride, a, b, dx as int, dy as int);
                            lemma_pix_row_bound(dest_stride, a, b, (rect.1 + rect.3) as int);
                            assert(pixel_at(dest@, dest_stride, a, b) =~= pixel_at(
                                fpre,
                                dest_stride,
                                a,
                                b,
                            ));
                        }
                    }
                }
                x += 1;
            }
            y += 1;
        }
    }

    /// Blends a rectangle of pixels from a tightly packed source frame
    /// over the destination at `(rect.0, rect.1)`, each source pixel at
    /// the weight of its own alpha channel.
    pub fn blend_slice(
        &self,
        dest: &mut Vec<u8>,
        source: &Vec<u8>,
        rect: &(usize, usize, usize, usize),
        dest_stride: usize,
    )
        requires
            0 < dest_stride,
            rect.0 + rect.2 <= dest_stride,
            (rect.1 + rect.3) * dest_stride * 4 <= old(dest)@.len(),
            rect.3 * rect.2 * 4 <= source@.len(),
        ensures
            final(dest)@.len() == old(dest)@.len(),
            forall|a: int, b: int|
                in_rect(*rect, a, b) ==> pixel_at(final(dest)@, dest_stride, a, b) == mixed_color(
                    pixel_at(old(dest)@, dest_stride, a, b),
                    pixel_at(source@, rect.2, a - rect.0, b - rect.1),
                    pixel_at(source@, rect.2, a - rect.0, b - rect.1)[3],
                ),
            forall|i: int|
                0 <= i < old(dest)@.len() && !rect_covers(*rect, dest_stride, i) ==> final(dest)@[i]
                    == old(dest)@[i],
    {
        let flen0 = dest.len();
        let mut y: usize = 0;
        while y < rect.3
            invariant
                0 < dest_stride,
                rect.0 + rect.2 <= dest_stride,
                (rect.1 + rect.3) * dest_stride * 4 <= old(dest)@.len(),
                rect.3 * rect.2 * 4 <= source@.len(),
                y <= rect.3,
                dest@.len() == old(dest)@.len(),
                forall|a: int, b: int|
                    in_rect(*rect, a, b) && b - rect.1 < y ==> pixel_at(dest@, dest_stride, a, b)
                        == mixed_color(
                        pixel_at(old(dest)@, dest_stride, a, b),
                        pixel_at(source@, rect.2, a - rect.0, b - rect.1),
                        pixel_at(source@, rect.2, a - rect.0, b - rect.1)[3],
                    ),
                forall|i: int|
                    0 <= i < old(dest)@.len() && !covered_upto(
                        *rect,
                        dest_stride,
                        rect.0 as int,
                        rect.1 + y,
                        i,
                    ) ==> dest@[i] == old(dest)@[i],
            decreases rect.3 - y,
        {
            let mut x: usize = 0;
            while x < rect.2
                invariant
                    0 < dest_stride,
                    rect.0 + rect.2 <= dest_stride,
                    (rect.1 + rect.3) * dest_stride * 4 <= old(dest)@.len(),
                    rect.3 * rect.2 * 4 <= source@.len(),
                    y < rect.3,
                    x <= rect.2,
                    dest@.len() == old(dest)@.len(),
                    forall|a: int, b: int|
                        in_rect(*rect, a, b) && (b - rect.1 < y || (b - rect.1 == y && a - rect.0
                            < x)) ==> pixel_at(dest@, dest_stride, a, b) == mixed_color(
                            pixel_at(old(dest)@, dest_stride, a, b),
                            pixel_at(source@, rect.2, a - rect.0, b - rect.1),
                            pixel_at(source@, rect.2, a - rect.0, b - rect.1)[3],
                        ),
                    forall|i: int|
                        0 <= i < old(dest)@.len() && !covered_upto(
                            *rect,
                            dest_stride,
                            rect.0 + x,
                            rect.1 + y,
                            i,
                        ) ==> dest@[i] == old(dest)@[i],
                decreases rect.2 - x,
            {
                let flen = dest.len();
                let slen = source.len();
                proof {
                    assert(rect.1 + rect.3 <= (rect.1 + rect.3) * (dest_stride as int) * 4)
                        by (nonlinear_arith)
                        requires
                            dest_stride as int >= 1,
                            rect.1 + rect.3 >= 0,
                    ;
                }
                let dx = rect.0 + x;
                let dy = rect.1 + y;
                proof {
                    lemma_pix_row_bound(dest_stride, dx as int, dy as int, (rect.1
                        + rect.3) as int);
                    assert(dx * 4 + dy * (dest_stride as int) * 4 + 4 <= flen as int);
                    lemma_pix_row_bound(rect.2, x as int, y as int, rect.3 as int);
                    assert(x * 4 + y * (rect.2 as int) * 4 + 4 <= slen as int);
                    let d0 = pix(dest_stride, dx as int, dy as int);
                    lemma_uncovered_pixel(*rect, dest_stride, dx as int, dy as int, d0);
                    lemma_uncovered_pixel(*rect, dest_stride, dx as int, dy as int, d0 + 1);
                    lemma_uncovered_pixel(*rect, dest_stride, dx as int, dy as int, d0 + 2);
                    lemma_uncovered_pixel(*rect, dest_stride, dx as int, dy as int, d0 + 3);
                }
                let d = dx * 4 + dy * dest_stride * 4;
                let s = x * 4 + y * rect.2 * 4;
                let m = source[s + 3];
                let px: [u8; 4] = [
                    mix_channel_exec(dest[d], source[s], m),
                    mix_channel_exec(dest[d + 1], source[s + 1], m),
                    mix_channel_exec(dest[d + 2], source[s + 2], m),
                    255,
                ];
                let ghost fpre = dest@;
                put_pixel(dest, d, &px);
                proof {
                    assert(in_rect(*rect, dx as int, dy as int));
                    assert(pixel_at(source@, rect.2, x as int, y as int)[0] == source@[s as int]);
                    assert(pixel_at(source@, rect.2, x as int, y as int)[3] == source@[s + 3]);
                    assert(pixel_at(old(dest)@, dest_stride, dx as int, dy as int)[0] == fpre[
                        d as int]);
                    assert(pixel_at(dest@, dest_stride, dx as int, dy as int) =~= mixed_color(
                        pixel_at(old(dest)@, dest_stride, dx as int, dy as int),
                        pixel_at(source@, rect.2, x as int, y as int),
                        m,
                    ));
                    assert forall|a: int, b: int|
                        in_rect(*rect, a, b) && (b - rect.1 < y || (b - rect.1 == y && a - rect.0
                            <= x)) implies pixel_at(dest@, dest_stride, a, b) == mixed_color(
                        pixel_at(old(dest)@, dest_stride, a, b),
                        pixel_at(source@, rect.2, a - rect.0, b - rect.1),
                        pixel_at(source@, rect.2, a - rect.0, b - rect.1)[3],
                    ) by {
                        if !(b == dy && a == dx) {
                            lemma_pix_disjoint(dest_stride, a, b, dx as int, dy as int);
                            lemma_pix_row_bound(dest_stride, a, b, (rect.1 + rect.3) as int);
                            assert(pixel_at(dest@, dest_stride, a, b) =~= pixel_at(
                                fpre,
                                dest_stride,
                                a,
                                b,
                            ));
                        }
                    }
                    assert forall|i: int|
                        0 <= i < old(dest)@.len() && !covered_upto(
                            *rect,
                            dest_stride,
                            rect.0 + x + 1,
                            rect.1 + y,
                            i,
                        ) implies dest@[i] == old(dest)@[i] by {
                        let d0 = pix(dest_stride, dx as int, dy as int);
                        if d0 <= i < d0 + 4 {
                            assert(covered_upto(*rect, dest_stride, rect.0 + x + 1, rect.1 + y, i));
                        } else {
                            assert(!covered_upto(*rect, dest_stride, rect.0 + x, rect.1 + y, i));
                        }
                    }
                }
                x += 1;
            }
            proof {
                assert forall|i: int|
                    0 <= i < old(dest)@.len() && !covered_upto(
                        *rect,
                        dest_stride,
                        rect.0 as int,
                        rect.1 + y + 1,
                        i,
                    ) implies dest@[i] == old(dest)@[i] by {
                    if covered_upto(*rect, dest_stride, rect.0 + rect.2, rect.1 + y, i) {
                        let (a, b) = choose|a: int, b: int|
                            in_rect(*rect, a, b) && (b < rect.1 + y || (b == rect.1 + y && a
                                < rect.0 + rect.2)) && (#[trigger] pix(dest_stride, a, b)) <= i
                                < pix(dest_stride, a, b) + 4;
                        assert(covered_upto(*rect, dest_stride, rect.0 as int, rect.1 + y + 1, i));
                    }
                }
            }
            y += 1;
        }
        proof {
            assert forall|i: int|
                0 <= i < old(dest)@.len() && !rect_covers(*rect, dest_stride, i) implies dest@[i]
                    == old(dest)@[i] by {
                if covered_upto(*rect, dest_stride, rect.0 as int, rect.1 + rect.3, i) {
                    let (a, b) = choose|a: int, b: int|
                        in_rect(*rect, a, b) && (b < rect.1 + rect.3 || (b == rect.1 + rect.3 && a
                            < rect.0)) && (#[trigger] pix(dest_stride, a, b)) <= i < pix(
                            dest_stride,
                            a,
                            b,
                        ) + 4;
                    assert(rect_covers(*rect, dest_stride, i));
                }
            }
        }
    }

    /// Blends a color over the frame at `(rect.0, rect.1)`, weighting each
    /// pixel by the corresponding entry of an alpha mask of
    /// `mask_size.0 x mask_size.1` bytes.
    pub fn blend_mask(
        &self,
        frame: &mut Vec<u8>,
        rect: &(usize, usize, usize, usize),
        stride: usize,
        mask_frame: &Vec<u8>,
        mask_size: &(usize, usize),
        color: &[u8; 4],
    )
        requires
            0 < stride,
            rect.0 + mask_size.0 <= stride,
            (rect.1 + mask_size.1) * stride * 4 <= old(frame)@.len(),
            mask_size.1 * mask_size.0 <= mask_frame@.len(),
        ensures
            final(frame)@.len() == old(frame)@.len(),
            forall|a: int, b: int|
                in_rect((rect.0, rect.1, mask_size.0, mask_size.1), a, b) ==> pixel_at(
                    final(frame)@,
                    stride,
                    a,
                    b,
                ) == mixed_color(
                    pixel_at(old(frame)@, stride, a, b),
                    color@,
                    mask_frame@[(a - rect.0) + (b - rect.1) * mask_size.0],
                ),
            forall|i: int|
                0 <= i < old(frame)@.len() && !rect_covers(
                    (rect.0, rect.1, mask_size.0, mask_size.1),
                    stride,
                    i,
                ) ==> final(frame)@[i] == old(frame)@[i],
    {
        let ghost mrect: (usize, usize, usize, usize) = (
            rect.0,
            rect.1,
            mask_size.0,
            mask_size.1,
        );
        let flen0 = frame.len();
        let mut y: usize = 0;
        while y < mask_size.1
            invariant
                0 < stride,
                mrect == (rect.0, rect.1, mask_size.0, mask_size.1),
                rect.0 + mask_size.0 <= stride,
                (rect.1 + mask_size.1) * stride * 4 <= old(frame)@.len(),
                mask_size.1 * mask_size.0 <= mask_frame@.len(),
                y <= mask_size.1,
                frame@.len() == old(frame)@.len(),
                forall|a: int, b: int|
                    in_rect(mrect, a, b) && b - rect.1 < y ==> pixel_at(frame@, stride, a, b)
                        == mixed_color(
                        pixel_at(old(frame)@, stride, a, b),
                        color@,
                        mask_frame@[(a - rect.0) + (b - rect.1) * mask_size.0],
                    ),
                forall|i: int|
                    0 <= i < old(frame)@.len() && !covered_upto(
                        mrect,
                        stride,
                        rect.0 as int,
                        rect.1 + y,
                        i,
                    ) ==> frame@[i] == old(frame)@[i],
            decreases mask_size.1 - y,
        {
            let mut x: usize = 0;
            while x < mask_size.0
                invariant
                    0 < stride,
                    mrect == (rect.0, rect.1, mask_size.0, mask_size.1),
                    rect.0 + mask_size.0 <= stride,
                    (rect.1 + mask_size.1) * stride * 4 <= old(frame)@.len(),
                    mask_size.1 * mask_size.0 <= mask_frame@.len(),
                    y < mask_size.1,
                    x <= mask_size.0,
                    frame@.len() == old(frame)@.len(),
                    forall|a: int, b: int|
                        in_rect(mrect, a, b) && (b - rect.1 < y || (b - rect.1 == y && a - rect.0
                            < x)) ==> pixel_at(frame@, stride, a, b) == mixed_color(
                            pixel_at(old(frame)@, stride, a, b),
                            color@,
                            mask_frame@[(a - rect.0) + (b - rect.1) * mask_size.0],
                        ),
                    forall|i: int|
                        0 <= i < old(frame)@.len() && !covered_upto(
                            mrect,
                            stride,
                            rect.0 + x,
                            rect.1 + y,
                            i,
                        ) ==> frame@[i] == old(frame)@[i],
                decreases mask_size.0 - x,
            {
                let flen = frame.len();
                let mlen = mask_frame.len();
                proof {
                    assert(rect.1 + mask_size.1 <= (rect.1 + mask_size.1) * (stride as int) * 4)
                        by (nonlinear_arith)
                        requires
                            stride as int >= 1,
                            rect.1 + mask_size.1 >= 0,
                    ;
                    assert(x + y * (mask_size.0 as int) + 1 <= (mask_size.1 as int) * (
                    mask_size.0 as int)) by (nonlinear_arith)
                        requires
                            0 <= x < mask_size.0,
                            0 <= y < mask_size.1,
                    ;
                }
                let dx = rect.0 + x;
                let dy = rect.1 + y;
                proof {
                    lemma_pix_row_bound(stride, dx as int, dy as int, (rect.1
                        + mask_size.1) as int);
                    assert(dx * 4 + dy * (stride as int) * 4 + 4 <= flen as int);
                    let d0 = pix(stride, dx as int, dy as int);
                    lemma_uncovered_pixel(mrect, stride, dx as int, dy as int, d0);
                    lemma_uncovered_pixel(mrect, stride, dx as int, dy as int, d0 + 1);
                    lemma_uncovered_pixel(mrect, stride, dx as int, dy as int, d0 + 2);
                    lemma_uncovered_pixel(mrect, stride, dx as int, dy as int, d0 + 3);
                }
                let d = dx * 4 + dy * stride * 4;
                let m = mask_frame[x + y * mask_size.0];
                let px: [u8; 4] = [
                    mix_channel_exec(frame[d], color[0], m),
                    mix_channel_exec(frame[d + 1], color[1], m),
                    mix_channel_exec(frame[d + 2], color[2], m),
                    255,
                ];
                let ghost fpre = frame@;
                put_pixel(frame, d, &px);
                proof {
                    assert(in_rect(mrect, dx as int, dy as int));
                    assert(pixel_at(old(frame)@, stride, dx as int, dy as int)[0] == fpre[
                        d as int]);
                    assert(pixel_at(frame@, stride, dx as int, dy as int) =~= mixed_color(
                        pixel_at(old(frame)@, stride, dx as int, dy as int),
                        color@,
                        m,
                    ));
                    assert forall|a: int, b: int|
                        in_rect(mrect, a, b) && (b - rect.1 < y || (b - rect.1 == y && a - rect.0
                            <= x)) implies pixel_at(frame@, stride, a, b) == mixed_color(
                        pixel_at(old(frame)@, stride, a, b),
                        color@,
                        mask_frame@[(a - rect.0) + (b - rect.1) * mask_size.0],
                    ) by {
                        if !(b == dy && a == dx) {
                            lemma_pix_disjoint(stride, a, b, dx as int, dy as int);
                            lemma_pix_row_bound(stride, a, b, (rect.1 + mask_size.1) as int);
                            assert(pixel_at(frame@, stride, a, b) =~= pixel_at(fpre, stride, a, b));
                        }
                    }
                    assert forall|i: int|
                        0 <= i < old(frame)@.len() && !covered_upto(
                            mrect,
                            stride,
                            rect.0 + x + 1,
                            rect.1 + y,
                            i,
                        ) implies frame@[i] == old(frame)@[i] by {
                        let d0 = pix(stride, dx as int, dy as int);
                        if d0 <= i < d0 + 4 {
                            assert(covered_upto(mrect, stride, rect.0 + x + 1, rect.1 + y, i));
                        } else {
                            assert(!covered_upto(mrect, stride, rect.0 + x, rect.1 + y, i));
                        }
                    }
                }
                x += 1;
            }
            proof {
                assert forall|i: int|
                    0 <= i < old(frame)@.len() && !covered_upto(
                        mrect,
                        stride,
                        rect.0 as int,
                        rect.1 + y + 1,
                        i,
                    ) implies frame@[i] == old(frame)@[i] by {
                    if covered_upto(mrect, stride, rect.0 + mask_size.0, rect.1 + y, i) {
                        let (a, b) = choose|a: int, b: int|
                            in_rect(mrect, a, b) && (b < rect.1 + y || (b == rect.1 + y && a
                                < rect.0 + mask_size.0)) && (#[trigger] pix(stride, a, b)) <= i
                                < pix(stride, a, b) + 4;
                        assert(covered_upto(mrect, stride, rect.0 as int, rect.1 + y + 1, i));
                    }
                }
            }
            y += 1;
        }
        proof {
            assert forall|i: int|
                0 <= i < old(frame)@.len() && !rect_covers(mrect, stride, i) implies frame@[i]
                    == old(frame)@[i] by {
                if covered_upto(mrect, stride, rect.0 as int, rect.1 + mask_size.1, i) {
                    let (a, b) = choose|a: int, b: int|
                        in_rect(mrect, a, b) && (b < rect.1 + mask_size.1 || (b == rect.1
                            + mask_size.1 && a < rect.0)) && (#[trigger] pix(stride, a, b)) <= i
                            < pix(stride, a, b) + 4;
                    assert(rect_covers(mrect, stride, i));
                }
            }
        }
    }

    /// Fills a signed rectangle with a color, clipped against the safe
    /// rectangle: exactly the pixels inside both become `color`.
    pub fn draw_rect_safe(
        &self,
        frame: &mut Vec<u8>,
        rect: &(isize, isize, usize, usize),
        stride: usize,
        color: &[u8; 4],
        safe_rect: &(usize, usize, usize, usize),
    )
        requires
            0 < stride,
            safe_rect.0 + safe_rect.2 <= stride,
            safe_rect.0 + safe_rect.2 <= isize::MAX,
            safe_rect.1 + safe_rect.3 <= isize::MAX,
            (safe_rect.1 + safe_rect.3) * stride * 4 <= old(frame)@.len(),
            rect.2 <= isize::MAX,
            rect.3 <= isize::MAX,
            rect.0 + rect.2 <= isize::MAX,
            rect.1 + rect.3 <= isize::MAX,
        ensures
            final(frame)@.len() == old(frame)@.len(),
            forall|x: int, y: int|
                in_rect_i(*rect, x, y) && in_rect(*safe_rect, x, y) ==> pixel_at(
                    final(frame)@,
                    stride,
                    x,
                    y,
                ) == color@,
            forall|i: int|
                0 <= i < old(frame)@.len() && !clip_covers(*rect, *safe_rect, stride, i)
                    ==> final(frame)@[i] == old(frame)@[i],
    {
        let y_end: isize = rect.1 + rect.3 as isize;
        let x_end: isize = rect.0 + rect.2 as isize;
        let safe_x0: isize = safe_rect.0 as isize;
        let safe_x1: isize = (safe_rect.0 + safe_rect.2) as isize;
        let safe_y0: isize = safe_rect.1 as isize;
        let safe_y1: isize = (safe_rect.1 + safe_rect.3) as isize;
        let mut y = rect.1;
        while y < y_end
            invariant
                0 < stride,
                safe_rect.0 + safe_rect.2 <= stride,
                (safe_rect.1 + safe_rect.3) * stride * 4 <= old(frame)@.len(),
                y_end == rect.1 + rect.3,
                x_end == rect.0 + rect.2,
                safe_x0 == safe_rect.0,
                safe_x1 == safe_rect.0 + safe_rect.2,
                safe_y0 == safe_rect.1,
                safe_y1 == safe_rect.1 + safe_rect.3,
                rect.1 <= y <= y_end || (rect.1 > y_end && y == rect.1),
                frame@.len() == old(frame)@.len(),
                forall|a: int, b: int|
                    in_rect_i(*rect, a, b) && in_rect(*safe_rect, a, b) && b < y ==> pixel_at(
                        frame@,
                        stride,
                        a,
                        b,
                    ) == color@,
                forall|i: int|
                    0 <= i < old(frame)@.len() && !clip_covers(*rect, *safe_rect, stride, i)
                        ==> frame@[i] == old(frame)@[i],
            decreases y_end - y,
        {
            if y >= safe_y0 && y < safe_y1 {
                let mut x = rect.0;
                while x < x_end
                    invariant
                        0 < stride,
                        safe_rect.0 + safe_rect.2 <= stride,
                        (safe_rect.1 + safe_rect.3) * stride * 4 <= old(frame)@.len(),
                        y_end == rect.1 + rect.3,
                        x_end == rect.0 + rect.2,
                        safe_x0 == safe_rect.0,
                        safe_x1 == safe_rect.0 + safe_rect.2,
                        safe_y0 == safe_rect.1,
                        safe_y1 == safe_rect.1 + safe_rect.3,
                        rect.1 <= y < y_end,
                        safe_rect.1 <= y < safe_rect.1 + safe_rect.3,
                        rect.0 <= x <= x_end || (rect.0 > x_end && x == rect.0),
                        frame@.len() == old(frame)@.len(),
                        forall|a: int, b: int|
                            in_rect_i(*rect, a, b) && in_rect(*safe_rect, a, b) && (b < y || (b
                                == y && a < x)) ==> pixel_at(frame@, stride, a, b) == color@,
                        forall|i: int|
                            0 <= i < old(frame)@.len() && !clip_covers(
                                *rect,
                                *safe_rect,
                                stride,
                                i,
                            ) ==> frame@[i] == old(frame)@[i],
                    decreases x_end - x,
                {
                    if x >= safe_x0 && x < safe_x1 {
                        let ux = x as usize;
                        let uy = y as usize;
                        let flen = frame.len();
                        proof {
                            lemma_pix_row_bound(stride, ux as int, uy as int, (safe_rect.1
                                + safe_rect.3) as int);
                            assert(ux * 4 + uy * (stride as int) * 4 + 4 <= flen as int);
                        }
                        let d = ux * 4 + uy * stride * 4;
                        let ghost fpre = frame@;
                        put_pixel(frame, d, color);
                        proof {
                            assert(in_rect_i(*rect, x as int, y as int) && in_rect(
                                *safe_rect,
                                x as int,
                                y as int,
                            ));
                            assert(clip_covers(*rect, *safe_rect, stride, d as int));
                            assert(clip_covers(*rect, *safe_rect, stride, d + 1));
                            assert(clip_covers(*rect, *safe_rect, stride, d + 2));
                            assert(clip_covers(*rect, *safe_rect, stride, d + 3));
                            assert(pixel_at(frame@, stride, x as int, y as int) =~= color@);
                            assert forall|a: int, b: int|
                                in_rect_i(*rect, a, b) && in_rect(*safe_rect, a, b) && (b < y || (
                                b == y && a <= x)) implies pixel_at(frame@, stride, a, b)
                                == color@ by {
                                if !(b == y && a == x) {
                                    lemma_pix_disjoint(stride, a, b, x as int, y as int);
                                    lemma_pix_row_bound(stride, a, b, (safe_rect.1
                                        + safe_rect.3) as int);
                                    assert(pixel_at(frame@, stride, a, b) =~= pixel_at(
                                        fpre,
                                        stride,
                                        a,
                                        b,
                                    ));
                                }
                            }
                        }
                    }
                    x += 1;
                }
            }
            y += 1;
        }
    }

    /// Blends a rectangle of pixels from a tightly packed source frame over
    /// the destination at the signed position `(rect.0, rect.1)`, clipped
    /// against the safe rectangle, each source pixel at the weight of its
    /// own alpha channel.
    pub fn blend_slice_safe(
        &self,
        dest: &mut Vec<u8>,
        source: &Vec<u8>,
        rect: &(isize, isize, usize, usize),
        dest_stride: usize,
        safe_rect: &(usize, usize, usize, usize),
    )
        requires
            0 < dest_stride,
            safe_rect.0 + safe_rect.2 <= dest_stride,
            safe_rect.0 + safe_rect.2 <= isize::MAX,
            safe_rect.1 + safe_rect.3 <= isize::MAX,
            (safe_rect.1 + safe_rect.3) * dest_stride * 4 <= old(dest)@.len(),
            rect.2 <= isize::MAX,
            rect.3 <= isize::MAX,
            rect.0 + rect.2 <= isize::MAX,
            rect.1 + rect.3 <= isize::MAX,
            rect.3 * rect.2 * 4 <= source@.len(),
        ensures
            final(dest)@.len() == old(dest)@.len(),
            forall|sx: int, sy: int|
                slice_vis(*rect, *safe_rect, sx, sy) ==> pixel_at(
                    final(dest)@,
                    dest_stride,
                    rect.0 + sx,
                    rect.1 + sy,
                ) == mixed_color(
                    pixel_at(old(dest)@, dest_stride, rect.0 + sx, rect.1 + sy),
                    pixel_at(source@, rect.2, sx, sy),
                    pixel_at(source@, rect.2, sx, sy)[3],
                ),
            forall|i: int|
                0 <= i < old(dest)@.len() && !slice_covers(*rect, *safe_rect, dest_stride, i)
                    ==> final(dest)@[i] == old(dest)@[i],
    {
        let safe_x0: isize = safe_rect.0 as isize;
        let safe_x1: isize = (safe_rect.0 + safe_rect.2) as isize;
        let safe_y0: isize = safe_rect.1 as isize;
        let safe_y1: isize = (safe_rect.1 + safe_rect.3) as isize;
        let mut sy: usize = 0;
        while sy < rect.3
            invariant
                0 < dest_stride,
                safe_rect.0 + safe_rect.2 <= dest_stride,
                (safe_rect.1 + safe_rect.3) * dest_stride * 4 <= old(dest)@.len(),
                rect.2 <= isize::MAX,
                rect.3 <= isize::MAX,
                rect.0 + rect.2 <= isize::MAX,
                rect.1 + rect.3 <= isize::MAX,
                rect.3 * rect.2 * 4 <= source@.len(),
                safe_x0 == safe_rect.0,
                safe_x1 == safe_rect.0 + safe_rect.2,
                safe_y0 == safe_rect.1,
                safe_y1 == safe_rect.1 + safe_rect.3,
                sy <= rect.3,
                dest@.len() == old(dest)@.len(),
                forall|a: int, b: int|
                    slice_vis(*rect, *safe_rect, a, b) && b < sy ==> pixel_at(
                        dest@,
                        dest_stride,
                        rect.0 + a,
                        rect.1 + b,
                    ) == mixed_color(
                        pixel_at(old(dest)@, dest_stride, rect.0 + a, rect.1 + b),
                        pixel_at(source@, rect.2, a, b),
                        pixel_at(source@, rect.2, a, b)[3],
                    ),
                forall|i: int|
                    0 <= i < old(dest)@.len() && !slice_covered_upto(
                        *rect,
                        *safe_rect,
                        dest_stride,
                        0,
                        sy as int,
                        i,
                    ) ==> dest@[i] == old(dest)@[i],
            decreases rect.3 - sy,
        {
            let dy: isize = rect.1 + sy as isize;
            if dy >= safe_y0 && dy < safe_y1 {
                let mut sx: usize = 0;
                while sx < rect.2
                    invariant
                        0 < dest_stride,
                        safe_rect.0 + safe_rect.2 <= dest_stride,
                        (safe_rect.1 + safe_rect.3) * dest_stride * 4 <= old(dest)@.len(),
                        rect.2 <= isize::MAX,
                        rect.3 <= isize::MAX,
                        rect.0 + rect.2 <= isize::MAX,
                        rect.1 + rect.3 <= isize::MAX,
                        rect.3 * rect.2 * 4 <= source@.len(),
                        safe_x0 == safe_rect.0,
                        safe_x1 == safe_rect.0 + safe_rect.2,
                        safe_y0 == safe_rect.1,
                        safe_y1 == safe_rect.1 + safe_rect.3,
                        sy < rect.3,
                        dy == rect.1 + sy,
                        safe_rect.1 <= dy < safe_rect.1 + safe_rect.3,
                        sx <= rect.2,
                        dest@.len() == old(dest)@.len(),
                        forall|a: int, b: int|
                            slice_vis(*rect, *safe_rect, a, b) && (b < sy || (b == sy && a < sx))
                                ==> pixel_at(dest@, dest_stride, rect.0 + a, rect.1 + b)
                                == mixed_color(
                                pixel_at(old(dest)@, dest_stride, rect.0 + a, rect.1 + b),
                                pixel_at(source@, rect.2, a, b),
                                pixel_at(source@, rect.2, a, b)[3],
                            ),
                        forall|i: int|
                            0 <= i < old(dest)@.len() && !slice_covered_upto(
                                *rect,
                                *safe_rect,
                                dest_stride,
                                sx as int,
                                sy as int,
                                i,
                            ) ==> dest@[i] == old(dest)@[i],
                    decreases rect.2 - sx,
                {
                    let dx: isize = rect.0 + sx as isize;
                    if dx >= safe_x0 && dx < safe_x1 {
                        let ux = dx as usize;
                        let uy = dy as usize;
                        let flen = dest.len();
                        let slen = source.len();
                        proof {
                            lemma_pix_row_bound(dest_stride, ux as int, uy as int, (safe_rect.1
                                + safe_rect.3) as int);
                            assert(ux * 4 + uy * (dest_stride as int) * 4 + 4 <= flen as int);
                            lemma_pix_row_bound(rect.2, sx as int, sy as int, rect.3 as int);
                            assert(sx * 4 + sy * (rect.2 as int) * 4 + 4 <= slen as int);
                            let d0 = pix(dest_stride, ux as int, uy as int);
                            assert(slice_vis(*rect, *safe_rect, sx as int, sy as int));
                            lemma_slice_uncovered(*rect, *safe_rect, dest_stride, sx as int,
                                sy as int, d0);
                            lemma_slice_uncovered(*rect, *safe_rect, dest_stride, sx as int,
                                sy as int, d0 + 1);
                            lemma_slice_uncovered(*rect, *safe_rect, dest_stride, sx as int,
                                sy as int, d0 + 2);
                            lemma_slice_uncovered(*rect, *safe_rect, dest_stride, sx as int,
                                sy as int, d0 + 3);
                        }
                        let d = ux * 4 + uy * dest_stride * 4;
                        let s = sx * 4 + sy * rect.2 * 4;
                        let m = source[s + 3];
                        let px: [u8; 4] = [
                            mix_channel_exec(dest[d], source[s], m),
                            mix_channel_exec(dest[d + 1], source[s + 1], m),
                            mix_channel_exec(dest[d + 2], source[s + 2], m),
                            255,
                        ];
                        let ghost fpre = dest@;
                        put_pixel(dest, d, &px);
                        proof {
                            assert(pixel_at(source@, rect.2, sx as int, sy as int)[0] == source@[
                                s as int]);
                            assert(pixel_at(source@, rect.2, sx as int, sy as int)[3] == source@[s
                                + 3]);
                            assert(pixel_at(old(dest)@, dest_stride, ux as int, uy as int)[0]
                                == fpre[d as int]);
                            assert(pixel_at(dest@, dest_stride, rect.0 + sx as int, rect.1
                                + sy as int) =~= mixed_color(
                                pixel_at(old(dest)@, dest_stride, rect.0 + sx as int, rect.1
                                    + sy as int),
                                pixel_at(source@, rect.2, sx as int, sy as int),
                                m,
                            ));
                            assert forall|a: int, b: int|
                                slice_vis(*rect, *safe_rect, a, b) && (b < sy || (b == sy && a
                                    <= sx)) implies pixel_at(
                                dest@,
                                dest_stride,
                                rect.0 + a,
                                rect.1 + b,
                            ) == mixed_color(
                                pixel_at(old(dest)@, dest_stride, rect.0 + a, rect.1 + b),
                                pixel_at(source@, rect.2, a, b),
                                pixel_at(source@, rect.2, a, b)[3],
                            ) by {
                                if !(b == sy && a == sx) {
                                    lemma_pix_disjoint(
                                        dest_stride,
                                        rect.0 + a,
                                        rect.1 + b,
                                        ux as int,
                                        uy as int,
                                    );
                                    lemma_pix_row_bound(dest_stride, rect.0 + a, rect.1 + b, (
                                    safe_rect.1 + safe_rect.3) as int);
                                    assert(pixel_at(dest@, dest_stride, rect.0 + a, rect.1 + b)
                                        =~= pixel_at(fpre, dest_stride, rect.0 + a, rect.1 + b));
                                }
                            }
                            assert forall|i: int|
                                0 <= i < old(dest)@.len() && !slice_covered_upto(
                                    *rect,
                                    *safe_rect,
                                    dest_stride,
                                    sx + 1 as int,
                                    sy as int,
                                    i,
                                ) implies dest@[i] == old(dest)@[i] by {
                                let d0 = pix(dest_stride, ux as int, uy as int);
                                if d0 <= i < d0 + 4 {
                                    assert(slice_covered_upto(
                                        *rect,
                                        *safe_rect,
                                        dest_stride,
                                        sx + 1 as int,
                                        sy as int,
                                        i,
                                    ));
                                } else {
                                    assert(!slice_covered_upto(
                                        *rect,
                                        *safe_rect,
                                        dest_stride,
                                        sx as int,
                                        sy as int,
                                        i,
                                    ));
                                }
                            }
                        }
                    } else {
                        proof {
                            assert forall|i: int|
                                0 <= i < old(dest)@.len() && !slice_covered_upto(
                                    *rect,
                                    *safe_rect,
                                    dest_stride,
                                    sx + 1 as int,
                                    sy as int,
                                    i,
                                ) implies dest@[i] == old(dest)@[i] by {
                                assert(!slice_covered_upto(
                                    *rect,
                                    *safe_rect,
                                    dest_stride,
                                    sx as int,
                                    sy as int,
                                    i,
                                ));
                            }
                        }
                    }
                    sx += 1;
                }
                proof {
                    assert forall|i: int|
                        0 <= i < old(dest)@.len() && !slice_covered_upto(
                            *rect,
                            *safe_rect,
                            dest_stride,
                            0,
                            sy + 1 as int,
                            i,
                        ) implies dest@[i] == old(dest)@[i] by {
                        if slice_covered_upto(
                            *rect,
                            *safe_rect,
                            dest_stride,
                            rect.2 as int,
                            sy as int,
                            i,
                        ) {
                            let (a, b) = choose|a: int, b: int|
                                slice_vis(*rect, *safe_rect, a, b) && (b < sy || (b == sy && a
                                    < rect.2)) && (#[trigger] pix(
                                    dest_stride,
                                    rect.0 + a,
                                    rect.1 + b,
                                )) <= i < pix(dest_stride, rect.0 + a, rect.1 + b) + 4;
                            assert(slice_covered_upto(
                                *rect,
                                *safe_rect,
                                dest_stride,
                                0,
                                sy + 1 as int,
                                i,
                            ));
                        }
                    }
                }
            } else {
                proof {
                    assert forall|i: int|
                        0 <= i < old(dest)@.len() && !slice_covered_upto(
                            *rect,
                            *safe_rect,
                            dest_stride,
                            0,
                            sy + 1 as int,
                            i,
                        ) implies dest@[i] == old(dest)@[i] by {
                        if slice_covered_upto(*rect, *safe_rect, dest_stride, 0, sy as int, i) {
                            let (a, b) = choose|a: int, b: int|
                                slice_vis(*rect, *safe_rect, a, b) && (b < sy || (b == sy && a
                                    < 0)) && (#[trigger] pix(dest_stride, rect.0 + a, rect.1 + b))
                                    <= i < pix(dest_stride, rect.0 + a, rect.1 + b) + 4;
                            assert(slice_covered_upto(
                                *rect,
                                *safe_rect,
                                dest_stride,
                                0,
                                sy + 1 as int,
                                i,
                            ));
                        }
                    }
                    assert forall|a: int, b: int|
                        slice_vis(*rect, *safe_rect, a, b) && b <= sy implies b < sy by {
                        if b == sy {
                            assert(in_rect(*safe_rect, rect.0 + a, rect.1 + b));
                        }
                    }
                }
            }
            sy += 1;
        }
        proof {
            assert forall|i: int|
                0 <= i < old(dest)@.len() && !slice_covers(*rect, *safe_rect, dest_stride, i)
                    implies dest@[i] == old(dest)@[i] by {
                if slice_covered_upto(*rect, *safe_rect, dest_stride, 0, rect.3 as int, i) {
                    let (a, b) = choose|a: int, b: int|
                        slice_vis(*rect, *safe_rect, a, b) && (b < rect.3 || (b == rect.3 && a
                            < 0)) && (#[trigger] pix(dest_stride, rect.0 + a, rect.1 + b)) <= i
                            < pix(dest_stride, rect.0 + a, rect.1 + b) + 4;
                    assert(slice_covers(*rect, *safe_rect, dest_stride, i));
                }
            }
        }
    }

    /// Blends one animated tile cell onto a square of `target_size` pixels
    /// at `pos`: the cell shown is the one the animation counter selects,
    /// scaled nearest-neighbour, each source pixel blended at the weight of
    /// its own alpha channel.
    pub fn draw_animated_tile(
        &self,
        frame: &mut Vec<u8>,
        pos: &(usize, usize),
        map: &TileMap,
        stride: usize,
        grid_pos: &(usize, usize),
        anim_counter: usize,
        target_size: usize,
    )
        requires
            0 < stride,
            0 < target_size,
            map.wf(),
            cell_in_grid(*map, *grid_pos),
            pos.0 + target_size <= stride,
            (pos.1 + target_size) * stride * 4 <= old(frame)@.len(),
            target_size * map.grid_size <= usize::MAX,
        ensures
            final(frame)@.len() == old(frame)@.len(),
            forall|sx: int, sy: int|
                0 <= sx < target_size && 0 <= sy < target_size ==> pixel_at(
                    final(frame)@,
                    stride,
                    pos.0 + sx,
                    pos.1 + sy,
                ) == mixed_color(
                    pixel_at(old(frame)@, stride, pos.0 + sx, pos.1 + sy),
                    tile_src_pixel(*map, anim_cell(*map, *grid_pos, anim_counter), sx, sy, target_size),
                    tile_src_pixel(
                        *map,
                        anim_cell(*map, *grid_pos, anim_counter),
                        sx,
                        sy,
                        target_size,
                    )[3],
                ),
            forall|i: int|
                0 <= i < old(frame)@.len() && !rect_covers(
                    (pos.0, pos.1, target_size, target_size),
                    stride,
                    i,
                ) ==> final(frame)@[i] == old(frame)@[i],
    {
        let ghost mrect: (usize, usize, usize, usize) = (pos.0, pos.1, target_size, target_size);
        let tile = map.get_tile(grid_pos);
        let cg: (usize, usize) = if tile.anim_tiles.len() > 0 {
            tile.anim_tiles[anim_counter % tile.anim_tiles.len()]
        } else {
            *grid_pos
        };
        proof {
            assert(cg == anim_cell(*map, *grid_pos, anim_counter));
            if map.has_tile(*grid_pos) && map.tile_at(*grid_pos).anim_tiles@.len() > 0 {
                assert(map.tiles@[map.tile_index(*grid_pos)].1 == map.tile_at(*grid_pos));
                assert(cell_in_grid(*map, cg));
            }
        }
        let gx = cg.0 * map.grid_size;
        let gy = cg.1 * map.grid_size;
        let mut sy: usize = 0;
        while sy < target_size
            invariant
                0 < stride,
                0 < target_size,
                map.wf(),
                mrect == (pos.0, pos.1, target_size, target_size),
                cg == anim_cell(*map, *grid_pos, anim_counter),
                cell_in_grid(*map, cg),
                gx == cg.0 * map.grid_size,
                gy == cg.1 * map.grid_size,
                pos.0 + target_size <= stride,
                (pos.1 + target_size) * stride * 4 <= old(frame)@.len(),
                target_size * map.grid_size <= usize::MAX,
                sy <= target_size,
                frame@.len() == old(frame)@.len(),
                forall|a: int, b: int|
                    in_rect(mrect, a, b) && b - pos.1 < sy ==> pixel_at(frame@, stride, a, b)
                        == mixed_color(
                        pixel_at(old(frame)@, stride, a, b),
                        tile_src_pixel(*map, cg, a - pos.0, b - pos.1, target_size),
                        tile_src_pixel(*map, cg, a - pos.0, b - pos.1, target_size)[3],
                    ),
                forall|i: int|
                    0 <= i < old(frame)@.len() && !covered_upto(
                        mrect,
                        stride,
                        pos.0 as int,
                        pos.1 + sy,
                        i,
                    ) ==> frame@[i] == old(frame)@[i],
            decreases target_size - sy,
        {
            let mut sx: usize = 0;
            while sx < target_size
                invariant
                    0 < stride,
                    0 < target_size,
                    map.wf(),
                    mrect == (pos.0, pos.1, target_size, target_size),
                    cg == anim_cell(*map, *grid_pos, anim_counter),
                    cell_in_grid(*map, cg),
                    gx == cg.0 * map.grid_size,
                    gy == cg.1 * map.grid_size,
                    pos.0 + target_size <= stride,
                    (pos.1 + target_size) * stride * 4 <= old(frame)@.len(),
                    target_size * map.grid_size <= usize::MAX,
                    sy < target_size,
                    sx <= target_size,
                    frame@.len() == old(frame)@.len(),
                    forall|a: int, b: int|
                        in_rect(mrect, a, b) && (b - pos.1 < sy || (b - pos.1 == sy && a - pos.0
                            < sx)) ==> pixel_at(frame@, stride, a, b) == mixed_color(
                            pixel_at(old(frame)@, stride, a, b),
                            tile_src_pixel(*map, cg, a - pos.0, b - pos.1, target_size),
                            tile_src_pixel(*map, cg, a - pos.0, b - pos.1, target_size)[3],
                        ),
                    forall|i: int|
                        0 <= i < old(frame)@.len() && !covered_upto(
                            mrect,
                            stride,
                            pos.0 + sx,
                            pos.1 + sy,
                            i,
                        ) ==> frame@[i] == old(frame)@[i],
                decreases target_size - sx,
            {
                let flen = frame.len();
                let plen = map.pixels.len();
                proof {
                    assert(pos.1 + target_size <= (pos.1 + target_size) * (stride as int) * 4)
                        by (nonlinear_arith)
                        requires
                            stride as int >= 1,
                            pos.1 + target_size >= 0,
                    ;
                    lemma_scale_bound(sx as int, map.grid_size as int, target_size as int);
                    lemma_scale_bound(sy as int, map.grid_size as int, target_size as int);
                    assert(sx * (map.grid_size as int) <= (target_size as int) * (
                    map.grid_size as int)) by (nonlinear_arith)
                        requires
                            0 <= sx <= target_size,
                            0 <= map.grid_size,
                    ;
                    assert(sy * (map.grid_size as int) <= (target_size as int) * (
                    map.grid_size as int)) by (nonlinear_arith)
                        requires
                            0 <= sy <= target_size,
                            0 <= map.grid_size,
                    ;
                }
                let x = sx * map.grid_size / target_size;
                let y = sy * map.grid_size / target_size;
                let dx = pos.0 + sx;
                let dy = pos.1 + sy;
                proof {
                    lemma_pix_row_bound(stride, dx as int, dy as int, (pos.1
                        + target_size) as int);
                    assert(dx * 4 + dy * (stride as int) * 4 + 4 <= flen as int);
                    lemma_pix_row_bound(map.width, gx + x as int, gy + y as int, map.height as int);
                    assert((gx + x) * 4 + (gy + y) * (map.width as int) * 4 + 4 <= plen as int);
                    let d0 = pix(stride, dx as int, dy as int);
                    lemma_uncovered_pixel(mrect, stride, dx as int, dy as int, d0);
                    lemma_uncovered_pixel(mrect, stride, dx as int, dy as int, d0 + 1);
                    lemma_uncovered_pixel(mrect, stride, dx as int, dy as int, d0 + 2);
                    lemma_uncovered_pixel(mrect, stride, dx as int, dy as int, d0 + 3);
                }
                let d = dx * 4 + dy * stride * 4;
                let s = (gx + x) * 4 + (gy + y) * map.width * 4;
                let m = map.pixels[s + 3];
                let px: [u8; 4] = [
                    mix_channel_exec(frame[d], map.pixels[s], m),
                    mix_channel_exec(frame[d + 1], map.pixels[s + 1], m),
                    mix_channel_exec(frame[d + 2], map.pixels[s + 2], m),
                    255,
                ];
                let ghost fpre = frame@;
                put_pixel(frame, d, &px);
                proof {
                    assert(in_rect(mrect, dx as int, dy as int));
                    let spx = tile_src_pixel(*map, cg, sx as int, sy as int, target_size);
                    assert(spx[0] == map.pixels@[s as int]);
                    assert(spx[3] == map.pixels@[s + 3]);
                    assert(pixel_at(old(frame)@, stride, dx as int, dy as int)[0] == fpre[
                        d as int]);
                    assert(pixel_at(frame@, stride, dx as int, dy as int) =~= mixed_color(
                        pixel_at(old(frame)@, stride, dx as int, dy as int),
                        spx,
                        m,
                    ));
                    assert forall|a: int, b: int|
                        in_rect(mrect, a, b) && (b - pos.1 < sy || (b - pos.1 == sy && a - pos.0
                            <= sx)) implies pixel_at(frame@, stride, a, b) == mixed_color(
                        pixel_at(old(frame)@, stride, a, b),
                        tile_src_pixel(*map, cg, a - pos.0, b - pos.1, target_size),
                        tile_src_pixel(*map, cg, a - pos.0, b - pos.1, target_size)[3],
                    ) by {
                        if !(b == dy && a == dx) {
                            lemma_pix_disjoint(stride, a, b, dx as int, dy as int);
                            lemma_pix_row_bound(stride, a, b, (pos.1 + target_size) as int);
                            assert(pixel_at(frame@, stride, a, b) =~= pixel_at(fpre, stride, a, b));
                        }
                    }
                    assert forall|i: int|
                        0 <= i < old(frame)@.len() && !covered_upto(
                            mrect,
                            stride,
                            pos.0 + sx + 1,
                            pos.1 + sy,
                            i,
                        ) implies frame@[i] == old(frame)@[i] by {
                        let d0 = pix(stride, dx as int, dy as int);
                        if d0 <= i < d0 + 4 {
                            assert(covered_upto(mrect, stride, pos.0 + sx + 1, pos.1 + sy, i));
                        } else {
                            assert(!covered_upto(mrect, stride, pos.0 + sx, pos.1 + sy, i));
                        }
                    }
                }
                sx += 1;
            }
            proof {
                assert forall|i: int|
                    0 <= i < old(frame)@.len() && !covered_upto(
                        mrect,
                        stride,
                        pos.0 as int,
                        pos.1 + sy + 1,
                        i,
                    ) implies frame@[i] == old(frame)@[i] by {
                    if covered_upto(mrect, stride, pos.0 + target_size, pos.1 + sy, i) {
                        let (a, b) = choose|a: int, b: int|
                            in_rect(mrect, a, b) && (b < pos.1 + sy || (b == pos.1 + sy && a
                                < pos.0 + target_size)) && (#[trigger] pix(stride, a, b)) <= i
                                < pix(stride, a, b) + 4;
                        assert(covered_upto(mrect, stride, pos.0 as int, pos.1 + sy + 1, i));
                    }
                }
            }
            sy += 1;
        }
        proof {
            assert forall|i: int|
                0 <= i < old(frame)@.len() && !rect_covers(mrect, stride, i) implies frame@[i]
                    == old(frame)@[i] by {
                if covered_upto(mrect, stride, pos.0 as int, pos.1 + target_size, i) {
                    let (a, b) = choose|a: int, b: int|
                        in_rect(mrect, a, b) && (b < pos.1 + target_size || (b == pos.1
                            + target_size && a < pos.0)) && (#[trigger] pix(stride, a, b)) <= i
                            < pix(stride, a, b) + 4;
                    assert(rect_covers(mrect, stride, i));
                }
            }
            assert forall|sx: int, sy: int|
                0 <= sx < target_size && 0 <= sy < target_size implies pixel_at(
                frame@,
                stride,
                pos.0 + sx,
                pos.1 + sy,
            ) == mixed_color(
                pixel_at(old(frame)@, stride, pos.0 + sx, pos.1 + sy),
                tile_src_pixel(*map, cg, sx, sy, target_size),
                tile_src_pixel(*map, cg, sx, sy, target_size)[3],
            ) by {
                assert(in_rect(mrect, pos.0 + sx, pos.1 + sy));
                assert(pixel_at(frame@, stride, pos.0 + sx, pos.1 + sy) == mixed_color(
                    pixel_at(old(frame)@, stride, pos.0 + sx, pos.1 + sy),
                    tile_src_pixel(*map, cg, (pos.0 + sx) - pos.0, (pos.1 + sy) - pos.1, target_size),
                    tile_src_pixel(
                        *map,
                        cg,
                        (pos.0 + sx) - pos.0,
                        (pos.1 + sy) - pos.1,
                        target_size,
                    )[3],
                ));
            }
        }
    }

    /// Scales a source frame of `source_size` pixels onto the rectangle
    /// with nearest-neighbour sampling, copying each sampled pixel
    /// verbatim.
    pub fn _scale_chunk(
        &self,
        frame: &mut Vec<u8>,
        rect: &(usize, usize, usize, usize),
        stride: usize,
        source_frame: &Vec<u8>,
        source_size: &(usize, usize),
    )
        requires
            0 < stride,
            0 < rect.2,
            0 < rect.3,
            0 < source_size.0,
            0 < source_size.1,
            rect.0 + rect.2 <= stride,
            (rect.1 + rect.3) * stride * 4 <= old(frame)@.len(),
            source_size.1 * source_size.0 * 4 <= source_frame@.len(),
            rect.2 * source_size.0 <= usize::MAX,
            rect.3 * source_size.1 <= usize::MAX,
        ensures
            final(frame)@.len() == old(frame)@.len(),
            forall|a: int, b: int|
                in_rect(*rect, a, b) ==> pixel_at(final(frame)@, stride, a, b) == pixel_at(
                    source_frame@,
                    source_size.0,
                    (a - rect.0) * source_size.0 / (rect.2 as int),
                    (b - rect.1) * source_size.1 / (rect.3 as int),
                ),
            forall|i: int|
                0 <= i < old(frame)@.len() && !rect_covers(*rect, stride, i) ==> final(frame)@[i]
                    == old(frame)@[i],
    {
        let flen0 = frame.len();
        let mut sy: usize = 0;
        while sy < rect.3
            invariant
                0 < stride,
                0 < rect.2,
                0 < rect.3,
                0 < source_size.0,
                0 < source_size.1,
                rect.0 + rect.2 <= stride,
                (rect.1 + rect.3) * stride * 4 <= old(frame)@.len(),
                source_size.1 * source_size.0 * 4 <= source_frame@.len(),
                rect.2 * source_size.0 <= usize::MAX,
                rect.3 * source_size.1 <= usize::MAX,
                sy <= rect.3,
                frame@.len() == old(frame)@.len(),
                forall|a: int, b: int|
                    in_rect(*rect, a, b) && b - rect.1 < sy ==> pixel_at(frame@, stride, a, b)
                        == pixel_at(
                        source_frame@,
                        source_size.0,
                        (a - rect.0) * source_size.0 / (rect.2 as int),
                        (b - rect.1) * source_size.1 / (rect.3 as int),
                    ),
                forall|i: int|
                    0 <= i < old(frame)@.len() && !rect_covers(*rect, stride, i) ==> frame@[i]
                        == old(frame)@[i],
            decreases rect.3 - sy,
        {
            let mut sx: usize = 0;
            while sx < rect.2
                invariant
                    0 < stride,
                    0 < rect.2,
                    0 < rect.3,
                    0 < source_size.0,
                    0 < source_size.1,
                    rect.0 + rect.2 <= stride,
                    (rect.1 + rect.3) * stride * 4 <= old(frame)@.len(),
                    source_size.1 * source_size.0 * 4 <= source_frame@.len(),
                    rect.2 * source_size.0 <= usize::MAX,
                    rect.3 * source_size.1 <= usize::MAX,
                    sy < rect.3,
                    sx <= rect.2,
                    frame@.len() == old(frame)@.len(),
                    forall|a: int, b: int|
                        in_rect(*rect, a, b) && (b - rect.1 < sy || (b - rect.1 == sy && a - rect.0
                            < sx)) ==> pixel_at(frame@, stride, a, b) == pixel_at(
                            source_frame@,
                            source_size.0,
                            (a - rect.0) * source_size.0 / (rect.2 as int),
                            (b - rect.1) * source_size.1 / (rect.3 as int),
                        ),
                    forall|i: int|
                        0 <= i < old(frame)@.len() && !rect_covers(*rect, stride, i) ==> frame@[i]
                            == old(frame)@[i],
                decreases rect.2 - sx,
            {
                let flen = frame.len();
                let slen = source_frame.len();
                proof {
                    assert(rect.1 + rect.3 <= (rect.1 + rect.3) * (stride as int) * 4)
                        by (nonlinear_arith)
                        requires
                            stride as int >= 1,
                            rect.1 + rect.3 >= 0,
                    ;
                    lemma_scale_bound(sx as int, source_size.0 as int, rect.2 as int);
                    lemma_scale_bound(sy as int, source_size.1 as int, rect.3 as int);
                    assert(sx * (source_size.0 as int) <= (rect.2 as int) * (
                    source_size.0 as int)) by (nonlinear_arith)
                        requires
                            0 <= sx <= rect.2,
                            0 <= source_size.0,
                    ;
                    assert(sy * (source_size.1 as int) <= (rect.3 as int) * (
                    source_size.1 as int)) by (nonlinear_arith)
                        requires
                            0 <= sy <= rect.3,
                            0 <= source_size.1,
                    ;
                }
                let x = sx * source_size.0 / rect.2;
                let y = sy * source_size.1 / rect.3;
                let dx = rect.0 + sx;
                let dy = rect.1 + sy;
                proof {
                    lemma_pix_row_bound(stride, dx as int, dy as int, (rect.1 + rect.3) as int);
                    assert(dx * 4 + dy * (stride as int) * 4 + 4 <= flen as int);
                    lemma_pix_row_bound(source_size.0, x as int, y as int, source_size.1 as int);
                    assert(x * 4 + y * (source_size.0 as int) * 4 + 4 <= slen as int);
                }
                let d = dx * 4 + dy * stride * 4;
                let s = x * 4 + y * source_size.0 * 4;
                let px: [u8; 4] = [
                    source_frame[s],
                    source_frame[s + 1],
                    source_frame[s + 2],
                    source_frame[s + 3],
                ];
                let ghost fpre = frame@;
                put_pixel(frame, d, &px);
                proof {
                    assert(in_rect(*rect, dx as int, dy as int));
                    assert(rect_covers(*rect, stride, d as int));
                    assert(rect_covers(*rect, stride, d + 1));
                    assert(rect_covers(*rect, stride, d + 2));
                    assert(rect_covers(*rect, stride, d + 3));
                    assert(pixel_at(source_frame@, source_size.0, x as int, y as int) =~= px@);
                    assert(pixel_at(frame@, stride, dx as int, dy as int) =~= px@);
                    assert forall|a: int, b: int|
                        in_rect(*rect, a, b) && (b - rect.1 < sy || (b - rect.1 == sy && a - rect.0
                            <= sx)) implies pixel_at(frame@, stride, a, b) == pixel_at(
                        source_frame@,
                        source_size.0,
                        (a - rect.0) * source_size.0 / (rect.2 as int),
                        (b - rect.1) * source_size.1 / (rect.3 as int),
                    ) by {
                        if !(b == dy && a == dx) {
                            lemma_pix_disjoint(stride, a, b, dx as int, dy as int);
                            lemma_pix_row_bound(stride, a, b, (rect.1 + rect.3) as int);
                            assert(pixel_at(frame@, stride, a, b) =~= pixel_at(fpre, stride, a, b));
                        }
                    }
                }
                sx += 1;
            }
            sy += 1;
        }
    }
}

} // verus!
