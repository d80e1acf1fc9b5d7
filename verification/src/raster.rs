//! Pixel work on RGBA8 buffers for the preview: painting a square outline,
//! cutting out the zoom view, and a nearest-neighbour downscale.
use vstd::prelude::*;
use crate::catalog::{clamp_int, max_int, round_div};

verus! {

/// Pixel `(x, y)` lies in a `w`×`h` image.
pub open spec fn inside(x: int, y: int, w: int, h: int) -> bool {
    0 <= x < w && 0 <= y < h
}

/// Offset of the first byte of pixel `(x, y)` in a row-major RGBA8 buffer.
pub open spec fn px_index(x: int, y: int, w: int) -> int {
    (y * w + x) * 4
}

/// Byte `ch` of an opaque pixel of colour `c`.
pub open spec fn paint_byte(c: [u8; 3], ch: int) -> u8 {
    if ch == 3 {
        255
    } else {
        c@[ch]
    }
}

/// Paints pixel `(x, y)` with colour `c` (opaque) when it lies in the image;
/// otherwise leaves the buffer as it is.
pub fn set_px(px: &mut [u8], w: usize, h: usize, x: i64, y: i64, c: [u8; 3])
    requires
        inside(x as int, y as int, w as int, h as int) ==> px_index(x as int, y as int, w as int)
            + 4 <= old(px)@.len(),
    ensures
        final(px)@.len() == old(px)@.len(),
        forall|k: int|
            0 <= k < old(px)@.len() ==> final(px)@[k] == if inside(
                x as int,
                y as int,
                w as int,
                h as int,
            ) && px_index(x as int, y as int, w as int) <= k < px_index(x as int, y as int, w as int)
                + 4 {
                paint_byte(c, k - px_index(x as int, y as int, w as int))
            } else {
                old(px)@[k]
            },
{
    if x < 0 || y < 0 || x as u64 >= w as u64 || y as u64 >= h as u64 {
        return;
    }
    assert(inside(x as int, y as int, w as int, h as int));
    let xs = x as usize;
    let ys = y as usize;
    assert(xs == x && ys == y);
    assert(px_index(x as int, y as int, w as int) + 4 <= px@.len());
    let n = px.len();
    assert(n == px@.len());
    assert(ys * w <= (ys * w + xs) * 4) by (nonlinear_arith)
        requires
            ys >= 0,
            w >= 0,
            xs >= 0,
    ;
    let i = (ys * w + xs) * 4;
    px[i] = c[0];
    px[i + 1] = c[1];
    px[i + 2] = c[2];
    px[i + 3] = 255;
}

/// Pixels of the two-pixel outline that `draw_rect` paints for a square of
/// side `size` at `(x, y)`: the rows `y`, `y+1`, `y+size-1`, `y+size-2`
/// across the square and the columns `x`, `x+1`, `x+size-1`, `x+size-2` down it.
pub open spec fn rect_mark(x: int, y: int, size: int, a: int, b: int) -> bool {
    ||| (x <= a < x + size && (b == y || b == y + 1 || b == y + size - 1 || b == y + size - 2))
    ||| (y <= b < y + size && (a == x || a == x + 1 || a == x + size - 1 || a == x + size - 2))
}

/// Column of the pixel that byte `k` belongs to.
pub open spec fn byte_x(k: int, w: int) -> int {
    (k / 4) % w
}

/// Row of the pixel that byte `k` belongs to.
pub open spec fn byte_y(k: int, w: int) -> int {
    (k / 4) / w
}

/// Byte `k` of `old` after every pixel of the `w`×`h` image that satisfies
/// `marked` has been painted with colour `c`.
pub open spec fn painted(
    old: Seq<u8>,
    w: int,
    h: int,
    c: [u8; 3],
    marked: spec_fn(int, int) -> bool,
    k: int,
) -> u8 {
    if 0 <= k < w * h * 4 && marked(byte_x(k, w), byte_y(k, w)) {
        paint_byte(c, k % 4)
    } else {
        old[k]
    }
}

proof fn lemma_byte_pixel(k: int, w: int, a: int, b: int)
    requires
        w > 0,
        0 <= a < w,
        0 <= b,
        0 <= k,
    ensures
        (byte_x(k, w) == a && byte_y(k, w) == b) <==> (px_index(a, b, w) <= k < px_index(a, b, w)
            + 4),
        px_index(a, b, w) <= k < px_index(a, b, w) + 4 ==> k % 4 == k - px_index(a, b, w),
{
    let p = k / 4;
    vstd::arithmetic::div_mod::lemma_fundamental_div_mod(k, 4);
    vstd::arithmetic::div_mod::lemma_mod_bound(k, 4);
    let base = b * w + a;
    if px_index(a, b, w) <= k < px_index(a, b, w) + 4 {
        vstd::arithmetic::div_mod::lemma_fundamental_div_mod_converse(k, 4, base, k - 4 * base);
        vstd::arithmetic::div_mod::lemma_fundamental_div_mod_converse(p, w, b, a);
    }
    if byte_x(k, w) == a && byte_y(k, w) == b {
        vstd::arithmetic::div_mod::lemma_fundamental_div_mod(p, w);
        assert(p == w * b + a);
        assert(p == base) by (nonlinear_arith)
            requires
                p == w * b + a,
                base == b * w + a,
        ;
    }
}

proof fn lemma_byte_in_image(k: int, w: int, h: int)
    requires
        w > 0,
        0 <= k < w * h * 4,
    ensures
        inside(byte_x(k, w), byte_y(k, w), w, h),
{
    let p = k / 4;
    vstd::arithmetic::div_mod::lemma_fundamental_div_mod(k, 4);
    vstd::arithmetic::div_mod::lemma_mod_bound(k, 4);
    vstd::arithmetic::div_mod::lemma_mod_bound(p, w);
    vstd::arithmetic::div_mod::lemma_fundamental_div_mod(p, w);
    assert(p < w * h) by (nonlinear_arith)
        requires
            k == 4 * p + k % 4,
            0 <= k % 4 < 4,
            k < w * h * 4,
    ;
    assert(p / w < h) by (nonlinear_arith)
        requires
            p == w * (p / w) + p % w,
            0 <= p % w,
            p < w * h,
            w > 0,
    ;
    assert(p / w >= 0) by (nonlinear_arith)
        requires
            p >= 0,
            w > 0,
    {
        vstd::arithmetic::div_mod::lemma_div_pos_is_pos(p, w);
    }
}

proof fn lemma_pixel_in_buffer(a: int, b: int, w: int, h: int)
    requires
        inside(a, b, w, h),
    ensures
        px_index(a, b, w) + 4 <= w * h * 4,
        px_index(a, b, w) >= 0,
{
    assert(px_index(a, b, w) + 4 <= w * h * 4 && px_index(a, b, w) >= 0) by (nonlinear_arith)
        requires
            0 <= a < w,
            0 <= b < h,
    ;
}

/// Painting one more pixel `(a, b)` extends the painted set by that pixel.
proof fn lemma_paint_step(
    old: Seq<u8>,
    w: int,
    h: int,
    c: [u8; 3],
    marked: spec_fn(int, int) -> bool,
    before: Seq<u8>,
    after: Seq<u8>,
    a: int,
    b: int,
)
    requires
        w >= 0,
        h >= 0,
        before.len() == old.len(),
        after.len() == old.len(),
        forall|k: int| 0 <= k < old.len() ==> before[k] == painted(old, w, h, c, marked, k),
        forall|k: int|
            0 <= k < old.len() ==> after[k] == if inside(a, b, w, h) && px_index(a, b, w) <= k
                < px_index(a, b, w) + 4 {
                paint_byte(c, k - px_index(a, b, w))
            } else {
                before[k]
            },
    ensures
        forall|k: int|
            0 <= k < old.len() ==> after[k] == painted(
                old,
                w,
                h,
                c,
                |u: int, v: int| marked(u, v) || (u == a && v == b),
                k,
            ),
{
    let m2 = |u: int, v: int| marked(u, v) || (u == a && v == b);
    assert forall|k: int| 0 <= k < old.len() implies after[k] == painted(old, w, h, c, m2, k) by {
        let in_a = inside(a, b, w, h) && px_index(a, b, w) <= k < px_index(a, b, w) + 4;
        if in_a {
            lemma_pixel_in_buffer(a, b, w, h);
            lemma_byte_pixel(k, w, a, b);
            assert(m2(byte_x(k, w), byte_y(k, w)));
            assert(painted(old, w, h, c, m2, k) == paint_byte(c, k % 4));
        } else {
            assert(after[k] == painted(old, w, h, c, marked, k));
            if 0 <= k < w * h * 4 {
                assert(w > 0) by (nonlinear_arith)
                    requires
                        0 <= k < w * h * 4,
                        w >= 0,
                        h >= 0,
                ;
                lemma_byte_in_image(k, w, h);
                let bx = byte_x(k, w);
                let by = byte_y(k, w);
                if bx == a && by == b {
                    lemma_byte_pixel(k, w, a, b);
                    assert(false);
                }
                assert(m2(bx, by) == marked(bx, by));
            }
        }
    }
}

proof fn lemma_painted_ext(
    old: Seq<u8>,
    w: int,
    h: int,
    c: [u8; 3],
    p: spec_fn(int, int) -> bool,
    q: spec_fn(int, int) -> bool,
)
    requires
        forall|a: int, b: int| #[trigger] p(a, b) == q(a, b),
    ensures
        forall|k: int| painted(old, w, h, c, p, k) == painted(old, w, h, c, q, k),
{
}

/// One side pair of the outline at depth `d` (0 or 1).
pub open spec fn side_marks(x: int, y: int, size: int, d: int, a: int, b: int) -> bool {
    ||| (x <= a < x + size && (b == y + d || b == y + size - 1 - d))
    ||| (y <= b < y + size && (a == x + d || a == x + size - 1 - d))
}

/// Outline pixels painted once depth `d` has done its rows up to `rows_to`
/// and its columns up to `cols_to`.
pub open spec fn outline_progress(
    x: int,
    y: int,
    size: int,
    d: int,
    rows_to: int,
    cols_to: int,
    a: int,
    b: int,
) -> bool {
    ||| (d >= 1 && side_marks(x, y, size, 0, a, b))
    ||| (d >= 2 && side_marks(x, y, size, 1, a, b))
    ||| (x <= a < rows_to && (b == y + d || b == y + size - 1 - d))
    ||| (y <= b < cols_to && (a == x + d || a == x + size - 1 - d))
}

/// Paints the two-pixel outline of the `size`×`size` square at `(x, y)` in
/// colour `c`; pixels outside the image are skipped.
pub fn draw_rect(px: &mut [u8], w: usize, h: usize, x: i64, y: i64, size: i64, c: [u8; 3])
    requires
        x + size <= i64::MAX,
        y + size <= i64::MAX,
        size > 0 ==> x + size - 2 >= i64::MIN && y + size - 2 >= i64::MIN,
        forall|a: int, b: int|
            inside(a, b, w as int, h as int) && rect_mark(x as int, y as int, size as int, a, b)
                ==> px_index(a, b, w as int) + 4 <= old(px)@.len(),
    ensures
        final(px)@.len() == old(px)@.len(),
        forall|k: int|
            0 <= k < old(px)@.len() ==> final(px)@[k] == painted(
                old(px)@,
                w as int,
                h as int,
                c,
                |a: int, b: int| rect_mark(x as int, y as int, size as int, a, b),
                k,
            ),
{
    let ghost old_px = px@;
    let ghost (xi, yi, si, wi, hi) = (x as int, y as int, size as int, w as int, h as int);
    if size <= 0 {
        return;
    }
    let mut d: i64 = 0;
    while d < 2
        invariant
            size > 0,
            xi == x && yi == y && si == size && wi == w && hi == h,
            x + size <= i64::MAX,
            y + size <= i64::MAX,
            x + size - 2 >= i64::MIN,
            y + size - 2 >= i64::MIN,
            forall|a: int, b: int|
                inside(a, b, wi, hi) && rect_mark(xi, yi, si, a, b) ==> px_index(a, b, wi) + 4
                    <= old_px.len(),
            0 <= d <= 2,
            px@.len() == old_px.len(),
            forall|k: int|
                0 <= k < old_px.len() ==> px@[k] == painted(
                    old_px,
                    wi,
                    hi,
                    c,
                    |a: int, b: int| outline_progress(xi, yi, si, d as int, xi, yi, a, b),
                    k,
                ),
        decreases 2 - d,
    {
        let mut xx = x;
        while xx < x + size
            invariant
                size > 0,
                xi == x && yi == y && si == size && wi == w && hi == h,
                x + size <= i64::MAX,
                y + size <= i64::MAX,
                x + size - 2 >= i64::MIN,
                y + size - 2 >= i64::MIN,
                forall|a: int, b: int|
                    inside(a, b, wi, hi) && rect_mark(xi, yi, si, a, b) ==> px_index(a, b, wi) + 4
                        <= old_px.len(),
                0 <= d < 2,
                x <= xx <= x + size,
                px@.len() == old_px.len(),
                forall|k: int|
                    0 <= k < old_px.len() ==> px@[k] == painted(
                        old_px,
                        wi,
                        hi,
                        c,
                        |a: int, b: int| outline_progress(xi, yi, si, d as int, xx as int, yi, a, b),
                        k,
                    ),
            decreases x + size - xx,
        {
            let ghost p0 = px@;
            let ghost m0 = |a: int, b: int| outline_progress(xi, yi, si, d as int, xx as int, yi, a, b);
            assert(rect_mark(xi, yi, si, xx as int, y + d));
            set_px(px, w, h, xx, y + d, c);
            proof {
                lemma_paint_step(old_px, wi, hi, c, m0, p0, px@, xx as int, y + d);
            }
            let ghost p1 = px@;
            let ghost m1 = |u: int, v: int| m0(u, v) || (u == xx && v == y + d);
            assert(rect_mark(xi, yi, si, xx as int, y + size - 1 - d));
            set_px(px, w, h, xx, y + size - 1 - d, c);
            proof {
                lemma_paint_step(old_px, wi, hi, c, m1, p1, px@, xx as int, y + size - 1 - d);
                let m2 = |u: int, v: int| m1(u, v) || (u == xx && v == y + size - 1 - d);
                let m3 = |a: int, b: int|
                    outline_progress(xi, yi, si, d as int, xx + 1, yi, a, b);
                assert forall|a: int, b: int| #[trigger] m2(a, b) == m3(a, b) by {}
                lemma_painted_ext(old_px, wi, hi, c, m2, m3);
            }
            xx = xx + 1;
        }
        let mut yy = y;
        while yy < y + size
            invariant
                size > 0,
                xi == x && yi == y && si == size && wi == w && hi == h,
                x + size <= i64::MAX,
                y + size <= i64::MAX,
                x + size - 2 >= i64::MIN,
                y + size - 2 >= i64::MIN,
                forall|a: int, b: int|
                    inside(a, b, wi, hi) && rect_mark(xi, yi, si, a, b) ==> px_index(a, b, wi) + 4
                        <= old_px.len(),
                0 <= d < 2,
                y <= yy <= y + size,
                px@.len() == old_px.len(),
                forall|k: int|
                    0 <= k < old_px.len() ==> px@[k] == painted(
                        old_px,
                        wi,
                        hi,
                        c,
                        |a: int, b: int|
                            outline_progress(xi, yi, si, d as int, xi + si, yy as int, a, b),
                        k,
                    ),
            decreases y + size - yy,
        {
            let ghost p0 = px@;
            let ghost m0 = |a: int, b: int|
                outline_progress(xi, yi, si, d as int, xi + si, yy as int, a, b);
            assert(rect_mark(xi, yi, si, x + d, yy as int));
            set_px(px, w, h, x + d, yy, c);
            proof {
                lemma_paint_step(old_px, wi, hi, c, m0, p0, px@, x + d, yy as int);
            }
            let ghost p1 = px@;
            let ghost m1 = |u: int, v: int| m0(u, v) || (u == x + d && v == yy);
            assert(rect_mark(xi, yi, si, x + size - 1 - d, yy as int));
            set_px(px, w, h, x + size - 1 - d, yy, c);
            proof {
                lemma_paint_step(old_px, wi, hi, c, m1, p1, px@, x + size - 1 - d, yy as int);
                let m2 = |u: int, v: int| m1(u, v) || (u == x + size - 1 - d && v == yy);
                let m3 = |a: int, b: int|
                    outline_progress(xi, yi, si, d as int, xi + si, yy + 1, a, b);
                assert forall|a: int, b: int| #[trigger] m2(a, b) == m3(a, b) by {}
                lemma_painted_ext(old_px, wi, hi, c, m2, m3);
            }
            yy = yy + 1;
        }
        proof {
            let m2 = |a: int, b: int| outline_progress(xi, yi, si, d as int, xi + si, yi + si, a, b);
            let m3 = |a: int, b: int| outline_progress(xi, yi, si, d + 1, xi, yi, a, b);
            assert forall|a: int, b: int| #[trigger] m2(a, b) == m3(a, b) by {}
            lemma_painted_ext(old_px, wi, hi, c, m2, m3);
        }
        d = d + 1;
    }
    proof {
        let m2 = |a: int, b: int| outline_progress(xi, yi, si, 2, xi, yi, a, b);
        let m3 = |a: int, b: int| rect_mark(xi, yi, si, a, b);
        assert forall|a: int, b: int| #[trigger] m2(a, b) == m3(a, b) by {}
        lemma_painted_ext(old_px, wi, hi, c, m2, m3);
    }
}

/// Preview side for an image side `v` when the longer side `m` exceeds `max`:
/// `v·max/m` rounded to the nearest integer (halves up), at least 1. The
/// quotient is exact; a scale factor kept in binary floating point is rounded
/// first and can land on the other side of a half (a 46×23 image capped at 7
/// gives 7×4 here, 7×3 with an `f32` scale).
pub open spec fn fit_side(v: int, max: int, m: int) -> int {
    max_int(round_div(v * max, m), 1)
}

/// Preview dimensions of a `w`×`h` image capped at `max` on its longer side.
pub open spec fn fit_dims(w: int, h: int, max: int) -> (int, int) {
    let m = max_int(w, h);
    if m <= max {
        (w, h)
    } else {
        (fit_side(w, max, m), fit_side(h, max, m))
    }
}

/// Source row (or column) sampled for preview row `i` of `n`, from a side of
/// `src_n` pixels.
pub open spec fn sample(i: int, n: int, src_n: int) -> int {
    let s = i * src_n / n;
    if s < src_n - 1 {
        s
    } else {
        src_n - 1
    }
}

/// Offset in the source buffer of the pixel shown at preview pixel number `q`
/// (row-major) of a `pw`×`ph` preview of a `w`×`h` image.
pub open spec fn sample_index(q: int, pw: int, ph: int, w: int, h: int) -> int {
    px_index(sample(q % pw, pw, w), sample(q / pw, ph, h), w)
}

/// The inputs on which `fit_rgba` samples within the buffer and its index
/// arithmetic stays within `usize`.
pub open spec fn fit_ok(src_len: int, w: int, h: int, max: int) -> bool {
    let (pw, ph) = fit_dims(w, h, max);
    max_int(w, h) > max ==> {
        &&& w > 0
        &&& h > 0
        &&& (ph - 1) * h <= usize::MAX
        &&& (pw - 1) * w <= usize::MAX
        &&& pw * ph * 4 <= usize::MAX
        &&& px_index(sample(pw - 1, pw, w), sample(ph - 1, ph, h), w) + 4 <= src_len
    }
}

proof fn lemma_round_div_parts(n: int, d: int, q: int, r: int)
    requires
        n >= 0,
        d > 0,
        q == n / d,
        r == n % d,
    ensures
        round_div(n, d) == if 2 * r >= d { q + 1 } else { q },
{
    vstd::arithmetic::div_mod::lemma_fundamental_div_mod(n, d);
    vstd::arithmetic::div_mod::lemma_mod_bound(n, d);
    if 2 * r >= d {
        assert(2 * n + d == (q + 1) * (2 * d) + (2 * r - d)) by (nonlinear_arith)
            requires
                n == d * q + r,
        ;
        vstd::arithmetic::div_mod::lemma_fundamental_div_mod_converse(
            2 * n + d,
            2 * d,
            q + 1,
            2 * r - d,
        );
    } else {
        assert(2 * n + d == q * (2 * d) + (2 * r + d)) by (nonlinear_arith)
            requires
                n == d * q + r,
        ;
        vstd::arithmetic::div_mod::lemma_fundamental_div_mod_converse(
            2 * n + d,
            2 * d,
            q,
            2 * r + d,
        );
    }
}

fn fit_side_exec(v: usize, max: usize, m: usize) -> (r: usize)
    requires
        v <= m,
        max < m,
    ensures
        r == fit_side(v as int, max as int, m as int),
        1 <= r <= max_int(max as int, 1),
{
    assert((v as int) * (max as int) <= (m as int) * (max as int) && (m as int) * (max as int) == (
    max as int) * (m as int)) by (nonlinear_arith)
        requires
            v <= m,
            max >= 0,
    ;
    assert((m as int) * (max as int) <= 0xffff_ffff_ffff_ffff * 0xffff_ffff_ffff_ffff) by (nonlinear_arith)
        requires
            m <= 0xffff_ffff_ffff_ffff,
            max <= 0xffff_ffff_ffff_ffff,
            m >= 0,
            max >= 0,
    ;
    let n = (v as u128) * (max as u128);
    let q = n / (m as u128);
    let rem = n % (m as u128);
    proof {
        lemma_round_div_parts(n as int, m as int, q as int, rem as int);
        vstd::arithmetic::div_mod::lemma_div_is_ordered(n as int, (max as int) * (m as int), m as int);
        vstd::arithmetic::div_mod::lemma_div_by_multiple(max as int, m as int);
        vstd::arithmetic::div_mod::lemma_fundamental_div_mod(n as int, m as int);
        vstd::arithmetic::div_mod::lemma_mod_bound(n as int, m as int);
        assert(q <= max);
        if q == max {
            assert(rem == 0) by (nonlinear_arith)
                requires
                    n == m * q + rem,
                    q == max,
                    n <= m * max,
                    rem >= 0,
            ;
        }
    }
    let rounded = if 2 * rem >= m as u128 {
        q + 1
    } else {
        q
    };
    assert(rounded <= max);
    if rounded < 1 {
        1
    } else {
        rounded as usize
    }
}

/// Nearest-neighbour downscale of a `w`×`h` RGBA8 image so that its longer
/// side is at most `max` (the full-resolution result is what gets saved).
/// Returns the preview's width, height and pixels; an image that already fits
/// is copied unchanged.
pub fn fit_rgba(src: &[u8], w: usize, h: usize, max: usize) -> (r: (usize, usize, Vec<u8>))
    requires
        fit_ok(src@.len() as int, w as int, h as int, max as int),
    ensures
        (r.0 as int, r.1 as int) == fit_dims(w as int, h as int, max as int),
        max >= 1 ==> r.0 <= max && r.1 <= max,
        max_int(w as int, h as int) <= max ==> r.2@ == src@,
        max_int(w as int, h as int) > max ==> {
            &&& r.2@.len() == r.0 * r.1 * 4
            &&& forall|q: int, ch: int|
                0 <= q < r.0 * r.1 && 0 <= ch < 4 ==> #[trigger] r.2@[q * 4 + ch] == src@[sample_index(
                    q,
                    r.0 as int,
                    r.1 as int,
                    w as int,
                    h as int,
                ) + ch]
        },
{
    let m = if w > h {
        w
    } else {
        h
    };
    if m <= max {
        let v = vstd::slice::slice_to_vec(src);
        return (w, h, v);
    }
    let pw = fit_side_exec(w, max, m);
    let ph = fit_side_exec(h, max, m);
    let ghost (wi, hi, pwi, phi) = (w as int, h as int, pw as int, ph as int);
    let n = pw * ph;
    let slen = src.len();
    let mut out: Vec<u8> = vec![0u8; n * 4];
    let mut q: usize = 0;
    while q < n
        invariant
            wi == w && hi == h && pwi == pw && phi == ph,
            w > 0,
            h > 0,
            pw >= 1,
            ph >= 1,
            n == pw * ph,
            (ph - 1) * h <= usize::MAX,
            (pw - 1) * w <= usize::MAX,
            n * 4 <= usize::MAX,
            px_index(sample(pwi - 1, pwi, wi), sample(phi - 1, phi, hi), wi) + 4 <= src@.len(),
            out@.len() == n * 4,
            slen == src@.len(),
            0 <= q <= n,
            forall|p: int, ch: int|
                0 <= p < q && 0 <= ch < 4 ==> #[trigger] out@[p * 4 + ch] == src@[sample_index(
                    p,
                    pwi,
                    phi,
                    wi,
                    hi,
                ) + ch],
        decreases n - q,
    {
        let y = q / pw;
        let x = q % pw;
        proof {
            vstd::arithmetic::div_mod::lemma_fundamental_div_mod(q as int, pw as int);
            vstd::arithmetic::div_mod::lemma_mod_bound(q as int, pw as int);
            vstd::arithmetic::div_mod::lemma_div_pos_is_pos(q as int, pw as int);
            assert(y < ph) by (nonlinear_arith)
                requires
                    q == pw * y + x,
                    0 <= x,
                    q < pw * ph,
                    pw > 0,
            ;
            vstd::arithmetic::mul::lemma_mul_inequality(y as int, ph - 1, h as int);
            vstd::arithmetic::mul::lemma_mul_inequality(x as int, pw - 1, w as int);
        }
        let ys0 = y * h / ph;
        let sy = if ys0 < h - 1 {
            ys0
        } else {
            h - 1
        };
        let xs0 = x * w / pw;
        let sx = if xs0 < w - 1 {
            xs0
        } else {
            w - 1
        };
        proof {
            vstd::arithmetic::div_mod::lemma_div_is_ordered(y * h, (ph - 1) * h, ph as int);
            vstd::arithmetic::div_mod::lemma_div_is_ordered(x * w, (pw - 1) * w, pw as int);
            vstd::arithmetic::mul::lemma_mul_inequality(sy as int, sample(phi - 1, phi, hi), w as int);
            assert(sy == sample(y as int, phi, hi));
            assert(sx == sample(x as int, pwi, wi));
            assert(sy <= sample(phi - 1, phi, hi));
            assert(sx <= sample(pwi - 1, pwi, wi));
            assert(px_index(sx as int, sy as int, wi) <= px_index(
                sample(pwi - 1, pwi, wi),
                sample(phi - 1, phi, hi),
                wi,
            ));
            assert(sample_index(q as int, pwi, phi, wi, hi) == px_index(sx as int, sy as int, wi));
            assert(sy * w <= (sy * w + sx) * 4) by (nonlinear_arith)
                requires
                    sy >= 0,
                    w >= 0,
                    sx >= 0,
            ;
        }
        let si = (sy * w + sx) * 4;
        let di = q * 4;
        out.set(di, src[si]);
        out.set(di + 1, src[si + 1]);
        out.set(di + 2, src[si + 2]);
        out.set(di + 3, src[si + 3]);
        proof {
            assert forall|p: int, ch: int| 0 <= p < q + 1 && 0 <= ch < 4 implies #[trigger] out@[p
                * 4 + ch] == src@[sample_index(p, pwi, phi, wi, hi) + ch] by {
                if p < q {
                } else {
                    assert(p * 4 + ch == di + ch);
                }
            }
        }
        q = q + 1;
    }
    (pw, ph, out)
}

/// The zoom view around a `t`-pixel tile at `(ox, oy)`: the tile and `pad`
/// pixels on each side, clipped to the `w`×`h` image. Returns the view's
/// top-left corner and its width and height, each at least 1.
pub fn zoom_window(ox: i64, oy: i64, t: i64, pad: i64, w: usize, h: usize) -> (r: (
    i64,
    i64,
    usize,
    usize,
))
    requires
        w <= i64::MAX,
        h <= i64::MAX,
        i64::MIN <= ox - pad <= i64::MAX,
        i64::MIN <= oy - pad <= i64::MAX,
        i64::MIN <= ox + t <= i64::MAX,
        i64::MIN <= oy + t <= i64::MAX,
        i64::MIN <= ox + t + pad <= i64::MAX,
        i64::MIN <= oy + t + pad <= i64::MAX,
    ensures
        r.0 == clamp_int(ox - pad, 0, w as int),
        r.1 == clamp_int(oy - pad, 0, h as int),
        r.2 == max_int(clamp_int(ox + t + pad, 0, w as int) - r.0, 1),
        r.3 == max_int(clamp_int(oy + t + pad, 0, h as int) - r.1, 1),
{
    let wi = w as i64;
    let hi = h as i64;
    let x0 = clamp_i64(ox - pad, wi);
    let y0 = clamp_i64(oy - pad, hi);
    let x1 = clamp_i64(ox + t + pad, wi);
    let y1 = clamp_i64(oy + t + pad, hi);
    let cw = if x1 - x0 < 1 {
        1
    } else {
        x1 - x0
    };
    let ch = if y1 - y0 < 1 {
        1
    } else {
        y1 - y0
    };
    (x0, y0, cw as usize, ch as usize)
}

/// The zoom view of a tile that lies inside the image contains the whole tile,
/// and never reaches outside the image.
pub proof fn lemma_zoom_window_contains_tile(ox: int, oy: int, t: int, pad: int, w: int, h: int)
    requires
        pad >= 0,
        t >= 1,
        0 <= ox,
        ox + t <= w,
        0 <= oy,
        oy + t <= h,
    ensures
        ({
            let x0 = clamp_int(ox - pad, 0, w);
            let y0 = clamp_int(oy - pad, 0, h);
            let cw = max_int(clamp_int(ox + t + pad, 0, w) - x0, 1);
            let ch = max_int(clamp_int(oy + t + pad, 0, h) - y0, 1);
            &&& 0 <= x0 <= ox
            &&& 0 <= y0 <= oy
            &&& ox + t <= x0 + cw <= w
            &&& oy + t <= y0 + ch <= h
        }),
{
}

fn clamp_i64(v: i64, hi: i64) -> (r: i64)
    requires
        hi >= 0,
    ensures
        r == clamp_int(v as int, 0, hi as int),
{
    if v < 0 {
        0
    } else if v > hi {
        hi
    } else {
        v
    }
}

/// Offset in the source of the pixel shown at crop pixel number `q` (row-major)
/// of a `cw`-wide crop whose top-left pixel is `(x0, y0)` in a `w`-wide image.
pub open spec fn crop_index(q: int, cw: int, x0: int, y0: int, w: int) -> int {
    px_index(x0 + q % cw, y0 + q / cw, w)
}

/// Copies the `cw`×`ch` block of pixels whose top-left is `(x0, y0)` out of a
/// row-major RGBA8 image `w` pixels wide.
pub fn crop_rgba(src: &[u8], w: usize, x0: usize, y0: usize, cw: usize, ch: usize) -> (r: Vec<u8>)
    requires
        cw * ch * 4 <= usize::MAX,
        cw > 0 && ch > 0 ==> y0 + ch - 1 <= usize::MAX,
        cw > 0 && ch > 0 ==> px_index(x0 + cw - 1, y0 + ch - 1, w as int) + 4 <= src@.len(),
    ensures
        r@.len() == cw * ch * 4,
        forall|q: int, c: int|
            0 <= q < cw * ch && 0 <= c < 4 ==> #[trigger] r@[q * 4 + c] == src@[crop_index(
                q,
                cw as int,
                x0 as int,
                y0 as int,
                w as int,
            ) + c],
{
    let n = cw * ch;
    let slen = src.len();
    let mut out: Vec<u8> = vec![0u8; n * 4];
    let mut q: usize = 0;
    while q < n
        invariant
            n == cw * ch,
            n * 4 <= usize::MAX,
            slen == src@.len(),
            cw > 0 && ch > 0 ==> y0 + ch - 1 <= usize::MAX,
            cw > 0 && ch > 0 ==> px_index(x0 + cw - 1, y0 + ch - 1, w as int) + 4 <= src@.len(),
            out@.len() == n * 4,
            0 <= q <= n,
            forall|p: int, c: int|
                0 <= p < q && 0 <= c < 4 ==> #[trigger] out@[p * 4 + c] == src@[crop_index(
                    p,
                    cw as int,
                    x0 as int,
                    y0 as int,
                    w as int,
                ) + c],
        decreases n - q,
    {
        assert(cw > 0 && ch > 0) by (nonlinear_arith)
            requires
                q < n,
                n == cw * ch,
        ;
        let y = q / cw;
        let x = q % cw;
        proof {
            vstd::arithmetic::div_mod::lemma_fundamental_div_mod(q as int, cw as int);
            vstd::arithmetic::div_mod::lemma_mod_bound(q as int, cw as int);
            vstd::arithmetic::div_mod::lemma_div_pos_is_pos(q as int, cw as int);
            assert(y < ch) by (nonlinear_arith)
                requires
                    q == cw * y + x,
                    0 <= x,
                    q < cw * ch,
                    cw > 0,
            ;
            assert(px_index(x0 + x, y0 + y, w as int) <= px_index(x0 + cw - 1, y0 + ch - 1, w as int))
                by (nonlinear_arith)
                requires
                    x <= cw - 1,
                    y <= ch - 1,
                    w >= 0,
                    x0 >= 0,
                    y0 >= 0,
                    x >= 0,
                    y >= 0,
            ;
            assert((y0 + y) * w <= px_index(x0 + x, y0 + y, w as int)) by (nonlinear_arith)
                requires
                    w >= 0,
                    x0 + x >= 0,
                    y0 + y >= 0,
            ;
            assert(crop_index(q as int, cw as int, x0 as int, y0 as int, w as int) == px_index(
                x0 + x,
                y0 + y,
                w as int,
            ));
        }
        let si = ((y0 + y) * w + (x0 + x)) * 4;
        let di = q * 4;
        out.set(di, src[si]);
        out.set(di + 1, src[si + 1]);
        out.set(di + 2, src[si + 2]);
        out.set(di + 3, src[si + 3]);
        proof {
            assert forall|p: int, c: int| 0 <= p < q + 1 && 0 <= c < 4 implies #[trigger] out@[p
                * 4 + c] == src@[crop_index(p, cw as int, x0 as int, y0 as int, w as int) + c] by {
                if p < q {
                } else {
                    assert(p * 4 + c == di + c);
                }
            }
        }
        q = q + 1;
    }
    out
}

} // verus!
