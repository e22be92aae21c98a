//! Layout of an RGBA image in a byte buffer: rows one after another, four
//! bytes (red, green, blue, alpha) per pixel.
use vstd::prelude::*;

verus! {

/// Position of channel `c` of the pixel at column `x`, row `y` in an RGBA
/// buffer whose rows are `w` pixels wide (four bytes per pixel, rows stored
/// one after another).
pub open spec fn pixel_index(w: int, y: int, x: int, c: int) -> int {
    (y * w + x) * 4 + c
}

/// Number of bytes of a `w` by `h` RGBA image.
pub open spec fn rgba_len_spec(w: int, h: int) -> int {
    w * h * 4
}

/// Every channel of every pixel of a `w` by `h` image lies inside the
/// image's bytes.
pub proof fn lemma_pixel_index_bounds(w: int, h: int, y: int, x: int, c: int)
    requires
        0 <= y < h,
        0 <= x < w,
        0 <= c < 4,
    ensures
        0 <= pixel_index(w, y, x, c) < rgba_len_spec(w, h),
        y * w * 4 <= pixel_index(w, y, x, c) < (y + 1) * w * 4,
{
    assert(0 <= y * w) by (nonlinear_arith)
        requires
            0 <= y,
            0 <= w,
    ;
    assert((y + 1) * w == y * w + w) by (nonlinear_arith);
    assert(y * w + w <= h * w) by (nonlinear_arith)
        requires
            y < h,
            0 <= w,
    ;
    assert(h * w * 4 == w * h * 4) by (nonlinear_arith);
    assert(y * w * 4 == (y * w) * 4) by (nonlinear_arith);
}

/// A byte position inside the image belongs to exactly the pixel and
/// channel that `pixel_index` names.
pub proof fn lemma_pixel_index_decompose(w: int, y: int, x: int, c: int)
    requires
        0 <= y,
        0 <= x < w,
        0 <= c < 4,
    ensures
        pixel_index(w, y, x, c) / 4 == y * w + x,
        pixel_index(w, y, x, c) % 4 == c,
        (y * w + x) / w == y,
        (y * w + x) % w == x,
{
    let i = pixel_index(w, y, x, c);
    vstd::arithmetic::div_mod::lemma_fundamental_div_mod_converse(i, 4, y * w + x, c);
    assert(y * w + x == w * y + x) by (nonlinear_arith);
    vstd::arithmetic::div_mod::lemma_fundamental_div_mod_converse(y * w + x, w, y, x);
}

/// Two pixel/channel triples inside the image name the same byte only when
/// they are the same triple.
pub proof fn lemma_pixel_index_injective(w: int, y1: int, x1: int, c1: int, y2: int, x2: int, c2: int)
    requires
        0 <= y1,
        0 <= x1 < w,
        0 <= c1 < 4,
        0 <= y2,
        0 <= x2 < w,
        0 <= c2 < 4,
        pixel_index(w, y1, x1, c1) == pixel_index(w, y2, x2, c2),
    ensures
        y1 == y2 && x1 == x2 && c1 == c2,
{
    lemma_pixel_index_decompose(w, y1, x1, c1);
    lemma_pixel_index_decompose(w, y2, x2, c2);
}

/// Every byte position below `rgba_len_spec(w, h)` is the position of some
/// pixel and channel: row `i / 4 / w`, column `i / 4 % w`, channel `i % 4`.
pub proof fn lemma_index_recompose(w: int, h: int, i: int)
    requires
        0 < w,
        0 <= h,
        0 <= i < rgba_len_spec(w, h),
    ensures
        0 <= (i / 4) / w < h,
        0 <= (i / 4) % w < w,
        0 <= i % 4 < 4,
        pixel_index(w, (i / 4) / w, (i / 4) % w, i % 4) == i,
{
    let p = i / 4;
    vstd::arithmetic::div_mod::lemma_fundamental_div_mod(i, 4);
    vstd::arithmetic::div_mod::lemma_fundamental_div_mod(p, w);
    vstd::arithmetic::div_mod::lemma_mod_pos_bound(i, 4);
    vstd::arithmetic::div_mod::lemma_mod_pos_bound(p, w);
    assert(p < w * h) by (nonlinear_arith)
        requires
            i == 4 * p + i % 4,
            0 <= i % 4,
            i < w * h * 4,
    ;
    assert(0 <= p);
    vstd::arithmetic::div_mod::lemma_div_pos_is_pos(p, w);
    assert(p / w < h) by (nonlinear_arith)
        requires
            p == w * (p / w) + p % w,
            0 <= p % w,
            p < w * h,
            0 < w,
    ;
    assert(w * (p / w) == (p / w) * w) by (nonlinear_arith);
}

/// Number of bytes of a `width` by `height` RGBA image, or `None` where that
/// number does not fit in a `usize`.
pub fn rgba_buffer_len(width: u32, height: u32) -> (len: Option<usize>)
    ensures
        match len {
            Some(n) => n == rgba_len_spec(width as int, height as int),
            None => rgba_len_spec(width as int, height as int) > usize::MAX,
        },
{
    let w = width as usize;
    let h = height as usize;
    match w.checked_mul(h) {
        Some(pixels) => {
            let r = pixels.checked_mul(4);
            proof {
                assert(rgba_len_spec(width as int, height as int) == (w * h) * 4) by (nonlinear_arith)
                    requires
                        w == width,
                        h == height,
                ;
            }
            r
        },
        None => {
            proof {
                assert((w * h) * 4 >= w * h) by (nonlinear_arith)
                    requires
                        w * h >= 0,
                ;
                assert(rgba_len_spec(width as int, height as int) == (w * h) * 4) by (nonlinear_arith)
                    requires
                        w == width,
                        h == height,
                ;
            }
            None
        },
    }
}

} // verus!
