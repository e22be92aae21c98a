//! Box blur: the horizontal and vertical passes, which replace each channel
//! by its mean over a window of the row or column, and the iterated blur.
use vstd::prelude::*;
use crate::mirror::mirrored_horizontally;
use crate::layout::{
    lemma_index_recompose, lemma_pixel_index_bounds, lemma_pixel_index_decompose,
    lemma_pixel_index_injective, pixel_index, rgba_len_spec,
};

verus! {

/// Sum of `line[lo]`, ..., `line[hi - 1]` (zero for an empty range).
pub open spec fn span_sum(line: Seq<u8>, lo: int, hi: int) -> int
    decreases hi - lo,
{
    if hi <= lo {
        0
    } else {
        span_sum(line, lo, hi - 1) + line[hi - 1]
    }
}

/// First position of the blur window of radius `r` around position `i`.
pub open spec fn window_start(i: int, r: int) -> int {
    if i - r > 0 {
        i - r
    } else {
        0
    }
}

/// Last position (inclusive) of the blur window of radius `r` around
/// position `i` on a line of `n` samples.
pub open spec fn window_end(i: int, r: int, n: int) -> int {
    if i + r < n - 1 {
        i + r
    } else {
        n - 1
    }
}

/// Mean, rounded down, of the samples of `line` in the window of radius `r`
/// around position `i`; the window is cut off at both ends of the line.
pub open spec fn box_mean(line: Seq<u8>, r: int, i: int) -> int {
    let lo = window_start(i, r);
    let hi = window_end(i, r, line.len() as int);
    span_sum(line, lo, hi + 1) / (hi - lo + 1)
}

/// The samples `s[base]`, `s[base + stride]`, ..., `count` of them.
pub open spec fn strided(s: Seq<u8>, base: int, stride: int, count: int) -> Seq<u8> {
    Seq::new(count as nat, |k: int| s[base + k * stride])
}

/// Channel `c` of row `y` of an image `w` pixels wide.
pub open spec fn row_line(img: Seq<u8>, w: int, y: int, c: int) -> Seq<u8> {
    Seq::new(w as nat, |x: int| img[pixel_index(w, y, x, c)])
}

/// Channel `c` of column `x` of a `w` by `h` image.
pub open spec fn column_line(img: Seq<u8>, w: int, h: int, x: int, c: int) -> Seq<u8> {
    Seq::new(h as nat, |y: int| img[pixel_index(w, y, x, c)])
}

/// `i` lies on the strided line that starts at `base`.
pub open spec fn on_line(i: int, base: int, stride: int, count: int) -> bool {
    &&& base <= i
    &&& (i - base) % stride == 0
    &&& (i - base) / stride < count
}

proof fn lemma_span_sum_first(line: Seq<u8>, lo: int, hi: int)
    requires
        lo < hi,
    ensures
        span_sum(line, lo, hi) == line[lo] + span_sum(line, lo + 1, hi),
    decreases hi - lo,
{
    if lo + 1 < hi {
        lemma_span_sum_first(line, lo, hi - 1);
        assert(span_sum(line, lo + 1, hi) == span_sum(line, lo + 1, hi - 1) + line[hi - 1]);
    } else {
        assert(span_sum(line, lo, hi - 1) == 0);
        assert(span_sum(line, lo + 1, hi) == 0);
    }
}

proof fn lemma_span_sum_bounds(line: Seq<u8>, lo: int, hi: int)
    requires
        lo <= hi,
    ensures
        0 <= span_sum(line, lo, hi) <= 255 * (hi - lo),
    decreases hi - lo,
{
    if lo < hi {
        lemma_span_sum_bounds(line, lo, hi - 1);
    }
}

proof fn lemma_mean_fits(sum: int, n: int)
    requires
        0 < n,
        0 <= sum <= 255 * n,
    ensures
        0 <= sum / n <= 255,
{
    assert(sum / n <= 255) by (nonlinear_arith)
        requires
            0 < n,
            0 <= sum <= 255 * n,
    ;
    vstd::arithmetic::div_mod::lemma_div_pos_is_pos(sum, n);
}

proof fn lemma_mul_le(k: int, m: int, s: int)
    requires
        0 <= k <= m,
        0 <= s,
    ensures
        k * s <= m * s,
        0 <= k * s,
{
    assert(k * s <= m * s) by (nonlinear_arith)
        requires
            0 <= k <= m,
            0 <= s,
    ;
    assert(0 <= k * s) by (nonlinear_arith)
        requires
            0 <= k,
            0 <= s,
    ;
}

proof fn lemma_on_line_at(base: int, stride: int, count: int, k: int)
    requires
        0 < stride,
        0 <= k < count,
        0 <= base,
    ensures
        on_line(base + k * stride, base, stride, count),
        (base + k * stride - base) / stride == k,
{
    assert(base + k * stride - base == k * stride);
    vstd::arithmetic::div_mod::lemma_mod_multiples_basic(k, stride);
    vstd::arithmetic::div_mod::lemma_div_multiples_vanish(k, stride);
    assert(k * stride == stride * k) by (nonlinear_arith);
}

proof fn lemma_on_line_is_at(i: int, base: int, stride: int, count: int)
    requires
        0 < stride,
        on_line(i, base, stride, count),
    ensures
        i == base + ((i - base) / stride) * stride,
        0 <= (i - base) / stride < count,
{
    vstd::arithmetic::div_mod::lemma_fundamental_div_mod(i - base, stride);
    vstd::arithmetic::div_mod::lemma_div_pos_is_pos(i - base, stride);
    assert(stride * ((i - base) / stride) == ((i - base) / stride) * stride) by (nonlinear_arith);
}

/// Writes, for every `k < count`, the box mean of radius `radius` around
/// `k` of the strided line of `src` that starts at `base` into the same
/// position of `dst`; every other byte of `dst` stays as it was.
fn blur_line(src: &[u8], dst: &mut [u8], base: usize, stride: usize, count: usize, radius: usize)
    requires
        0 < count,
        0 < stride,
        base + (count - 1) * stride < src@.len(),
        base + (count - 1) * stride < old(dst)@.len(),
        count * 255 <= u64::MAX,
    ensures
        final(dst)@.len() == old(dst)@.len(),
        forall|i: int|
            0 <= i < final(dst)@.len() ==> #[trigger] final(dst)@[i] == if on_line(
                i,
                base as int,
                stride as int,
                count as int,
            ) {
                box_mean(strided(src@, base as int, stride as int, count as int), radius as int, (i - base) / (stride as int)) as u8
            } else {
                old(dst)@[i]
            },
{
    let src_len = src.len();
    let dst_len = dst.len();
    let ghost line = strided(src@, base as int, stride as int, count as int);
    let ghost r = radius as int;
    let ghost n = count as int;
    let mut start: usize = 0;
    let mut end: usize = if radius < count - 1 {
        radius
    } else {
        count - 1
    };
    let mut sum: u64 = 0;
    let mut j: usize = 0;
    while j <= end
        invariant
            end < count,
            j <= end + 1,
            sum == span_sum(line, 0, j as int),
            line == strided(src@, base as int, stride as int, count as int),
            base + (count - 1) * stride < src@.len(),
            src_len == src@.len(),
            count * 255 <= u64::MAX,
            0 < stride,
        decreases end + 1 - j,
    {
        proof {
            lemma_span_sum_bounds(line, 0, j as int);
            lemma_mul_le(j as int, (count - 1) as int, stride as int);
        }
        let v = src[base + j * stride];
        assert(v == line[j as int]);
        sum = sum + v as u64;
        j = j + 1;
    }
    let mut k: usize = 0;
    while k < count
        invariant
            k <= count,
            0 < count,
            0 < stride,
            src_len == src@.len(),
            dst_len == old(dst)@.len(),
            base + (count - 1) * stride < src@.len(),
            base + (count - 1) * stride < old(dst)@.len(),
            count * 255 <= u64::MAX,
            line == strided(src@, base as int, stride as int, count as int),
            r == radius,
            n == count,
            dst@.len() == old(dst)@.len(),
            k < count ==> start == window_start(k as int, r),
            k < count ==> end == window_end(k as int, r, n),
            k < count ==> sum == span_sum(line, start as int, end + 1),
            forall|i: int|
                0 <= i < dst@.len() ==> #[trigger] dst@[i] == if on_line(
                    i,
                    base as int,
                    stride as int,
                    k as int,
                ) {
                    box_mean(line, r, (i - base) / (stride as int)) as u8
                } else {
                    old(dst)@[i]
                },
        decreases count - k,
    {
        proof {
            lemma_span_sum_bounds(line, start as int, end + 1);
            lemma_mean_fits(sum as int, end - start + 1);
            lemma_mul_le(k as int, (count - 1) as int, stride as int);
            lemma_on_line_at(base as int, stride as int, count as int, k as int);
        }
        let width_of_window = (end - start + 1) as u64;
        let mean = (sum / width_of_window) as u8;
        let pos = base + k * stride;
        let ghost before = dst@;
        dst[pos] = mean;
        proof {
            assert forall|i: int| 0 <= i < dst@.len() implies #[trigger] dst@[i] == if on_line(
                i,
                base as int,
                stride as int,
                (k + 1) as int,
            ) {
                box_mean(line, r, (i - base) / (stride as int)) as u8
            } else {
                old(dst)@[i]
            } by {
                if i == pos {
                    lemma_on_line_at(base as int, stride as int, (k + 1) as int, k as int);
                } else {
                    if on_line(i, base as int, stride as int, (k + 1) as int) {
                        lemma_on_line_is_at(i, base as int, stride as int, (k + 1) as int);
                        assert(on_line(i, base as int, stride as int, k as int));
                    } else {
                        assert(!on_line(i, base as int, stride as int, k as int));
                    }
                }
            }
        }
        if k + 1 < count {
            let next_start = (k + 1).saturating_sub(radius);
            let next_end = if radius >= (count - 1) - (k + 1) {
                count - 1
            } else {
                k + 1 + radius
            };
            proof {
                lemma_span_sum_bounds(line, start as int, end + 1);
            }
            if next_start > start {
                proof {
                    lemma_span_sum_first(line, start as int, end + 1);
                    lemma_span_sum_bounds(line, start + 1, end + 1);
                    lemma_mul_le(start as int, (count - 1) as int, stride as int);
                }
                let v = src[base + start * stride];
                assert(v == line[start as int]);
                sum = sum - v as u64;
            }
            if next_end > end {
                proof {
                    lemma_span_sum_bounds(line, next_start as int, end + 1);
                    lemma_mul_le(next_end as int, (count - 1) as int, stride as int);
                }
                let v = src[base + next_end * stride];
                assert(v == line[next_end as int]);
                sum = sum + v as u64;
            }
            start = next_start;
            end = next_end;
        }
        k = k + 1;
    }
}


/// The image that one horizontal box pass of radius `r` makes of the
/// `w` by `h` image `img`: every channel of every pixel becomes the mean of
/// the same channel over the pixels of its row at most `r` columns away.
pub open spec fn horizontal_pass(img: Seq<u8>, w: int, h: int, r: int) -> Seq<u8> {
    Seq::new(
        rgba_len_spec(w, h) as nat,
        |i: int| box_mean(row_line(img, w, (i / 4) / w, i % 4), r, (i / 4) % w) as u8,
    )
}

/// The image that one vertical box pass of radius `r` makes of the `w` by
/// `h` image `img`: every channel of every pixel becomes the mean of the same
/// channel over the pixels of its column at most `r` rows away.
pub open spec fn vertical_pass(img: Seq<u8>, w: int, h: int, r: int) -> Seq<u8> {
    Seq::new(
        rgba_len_spec(w, h) as nat,
        |i: int| box_mean(column_line(img, w, h, (i / 4) % w, i % 4), r, (i / 4) / w) as u8,
    )
}

/// How a `blur_line` along row `y`, channel `c`, acts on the byte of each
/// pixel and channel, and on the bytes past the image.
proof fn lemma_row_line_positions(w: int, h: int, y: int, c: int)
    requires
        0 <= y < h,
        0 <= c < 4,
        0 < w,
    ensures
        forall|y2: int, x2: int, c2: int|
            0 <= y2 < h && 0 <= x2 < w && 0 <= c2 < 4 ==> (on_line(
                #[trigger] pixel_index(w, y2, x2, c2),
                pixel_index(w, y, 0, c),
                4,
                w,
            ) <==> (y2 == y && c2 == c)),
        forall|x2: int|
            0 <= x2 < w ==> (#[trigger] pixel_index(w, y, x2, c) - pixel_index(w, y, 0, c)) / 4
                == x2,
        forall|i: int| rgba_len_spec(w, h) <= i ==> !#[trigger] on_line(i, pixel_index(w, y, 0, c), 4, w),
        forall|k: int| 0 <= k < w ==> pixel_index(w, y, 0, c) + #[trigger] (k * 4) == pixel_index(w, y, k, c),
{
    let base = pixel_index(w, y, 0, c);
    assert(base >= 0) by {
        lemma_pixel_index_bounds(w, h, y, 0, c);
    }
    assert forall|y2: int, x2: int, c2: int|
        0 <= y2 < h && 0 <= x2 < w && 0 <= c2 < 4 implies (on_line(
            #[trigger] pixel_index(w, y2, x2, c2),
            base,
            4,
            w,
        ) <==> (y2 == y && c2 == c)) by {
        let i = pixel_index(w, y2, x2, c2);
        if y2 == y && c2 == c {
            assert(i == base + x2 * 4);
            lemma_on_line_at(base, 4, w, x2);
        }
        if on_line(i, base, 4, w) {
            lemma_on_line_is_at(i, base, 4, w);
            let k = (i - base) / 4;
            assert(i == pixel_index(w, y, k, c));
            lemma_pixel_index_injective(w, y2, x2, c2, y, k, c);
        }
    }
    assert forall|x2: int| 0 <= x2 < w implies (#[trigger] pixel_index(w, y, x2, c) - base) / 4
        == x2 by {
        assert(pixel_index(w, y, x2, c) == base + x2 * 4);
        lemma_on_line_at(base, 4, w, x2);
    }
    assert forall|i: int| rgba_len_spec(w, h) <= i implies !#[trigger] on_line(i, base, 4, w) by {
        if on_line(i, base, 4, w) {
            lemma_on_line_is_at(i, base, 4, w);
            let k = (i - base) / 4;
            assert(i == pixel_index(w, y, k, c));
            lemma_pixel_index_bounds(w, h, y, k, c);
        }
    }
}

/// How a `blur_line` along column `x`, channel `c`, acts on the byte of each
/// pixel and channel, and on the bytes past the image.
proof fn lemma_column_line_positions(w: int, h: int, x: int, c: int)
    requires
        0 <= x < w,
        0 <= c < 4,
        0 < h,
    ensures
        forall|y2: int, x2: int, c2: int|
            0 <= y2 < h && 0 <= x2 < w && 0 <= c2 < 4 ==> (on_line(
                #[trigger] pixel_index(w, y2, x2, c2),
                pixel_index(w, 0, x, c),
                w * 4,
                h,
            ) <==> (x2 == x && c2 == c)),
        forall|y2: int|
            0 <= y2 < h ==> (#[trigger] pixel_index(w, y2, x, c) - pixel_index(w, 0, x, c)) / (w
                * 4) == y2,
        forall|i: int|
            rgba_len_spec(w, h) <= i ==> !#[trigger] on_line(i, pixel_index(w, 0, x, c), w * 4, h),
        forall|k: int|
            0 <= k < h ==> pixel_index(w, 0, x, c) + #[trigger] (k * (w * 4)) == pixel_index(
                w,
                k,
                x,
                c,
            ),
{
    let base = pixel_index(w, 0, x, c);
    let stride = w * 4;
    assert(base == x * 4 + c);
    assert forall|k: int| 0 <= k < h implies base + #[trigger] (k * (w * 4)) == pixel_index(
        w,
        k,
        x,
        c,
    ) by {
        assert(k * (w * 4) == (k * w) * 4) by (nonlinear_arith);
    }
    assert forall|y2: int, x2: int, c2: int|
        0 <= y2 < h && 0 <= x2 < w && 0 <= c2 < 4 implies (on_line(
            #[trigger] pixel_index(w, y2, x2, c2),
            base,
            stride,
            h,
        ) <==> (x2 == x && c2 == c)) by {
        let i = pixel_index(w, y2, x2, c2);
        if x2 == x && c2 == c {
            assert(base + y2 * (w * 4) == i);
            lemma_on_line_at(base, stride, h, y2);
        }
        if on_line(i, base, stride, h) {
            lemma_on_line_is_at(i, base, stride, h);
            let k = (i - base) / stride;
            assert(base + k * (w * 4) == pixel_index(w, k, x, c));
            lemma_pixel_index_injective(w, y2, x2, c2, k, x, c);
        }
    }
    assert forall|y2: int| 0 <= y2 < h implies (#[trigger] pixel_index(w, y2, x, c) - base) / (w
        * 4) == y2 by {
        assert(base + y2 * (w * 4) == pixel_index(w, y2, x, c));
        lemma_on_line_at(base, stride, h, y2);
    }
    assert forall|i: int| rgba_len_spec(w, h) <= i implies !#[trigger] on_line(
        i,
        base,
        stride,
        h,
    ) by {
        if on_line(i, base, stride, h) {
            lemma_on_line_is_at(i, base, stride, h);
            let k = (i - base) / stride;
            assert(base + k * (w * 4) == pixel_index(w, k, x, c));
            lemma_pixel_index_bounds(w, h, k, x, c);
        }
    }
}

/// One horizontal box-blur pass: writes into the first
/// `width * height * 4` bytes of `dst` the image that `horizontal_pass`
/// makes of `src`, and leaves the rest of `dst` as it was.
pub fn horizontal_box_pass(src: &[u8], dst: &mut [u8], width: usize, height: usize, radius: usize)
    requires
        height > 0 ==> width > 0,
        src@.len() >= rgba_len_spec(width as int, height as int),
        old(dst)@.len() >= rgba_len_spec(width as int, height as int),
        height > 0 ==> width * 255 <= u64::MAX,
    ensures
        final(dst)@.len() == old(dst)@.len(),
        final(dst)@.subrange(0, rgba_len_spec(width as int, height as int)) == horizontal_pass(
            src@,
            width as int,
            height as int,
            radius as int,
        ),
        final(dst)@.subrange(rgba_len_spec(width as int, height as int), old(dst)@.len() as int)
            == old(dst)@.subrange(rgba_len_spec(width as int, height as int), old(dst)@.len() as int),
{
    let ghost w = width as int;
    let ghost h = height as int;
    let ghost r = radius as int;
    let ghost n = rgba_len_spec(w, h);
    let ghost len = old(dst)@.len() as int;
    let dst_len = dst.len();
    let mut y: usize = 0;
    while y < height
        invariant
            w == width,
            h == height,
            r == radius,
            n == rgba_len_spec(w, h),
            len == old(dst)@.len(),
            dst_len == len,
            height > 0 ==> width > 0,
            src@.len() >= n,
            len >= n,
            height > 0 ==> width * 255 <= u64::MAX,
            y <= height,
            dst@.len() == len,
            forall|y2: int, x2: int, c2: int|
                0 <= y2 < h && 0 <= x2 < w && 0 <= c2 < 4 ==> #[trigger] dst@[pixel_index(
                    w,
                    y2,
                    x2,
                    c2,
                )] == if y2 < y {
                    box_mean(row_line(src@, w, y2, c2), r, x2) as u8
                } else {
                    old(dst)@[pixel_index(w, y2, x2, c2)]
                },
            forall|i: int| n <= i < len ==> #[trigger] dst@[i] == old(dst)@[i],
        decreases height - y,
    {
        let mut c: usize = 0;
        while c < 4
            invariant
                w == width,
                h == height,
                r == radius,
                n == rgba_len_spec(w, h),
                len == old(dst)@.len(),
                dst_len == len,
                0 < width,
                src@.len() >= n,
                len >= n,
                width * 255 <= u64::MAX,
                y < height,
                c <= 4,
                dst@.len() == len,
                forall|y2: int, x2: int, c2: int|
                    0 <= y2 < h && 0 <= x2 < w && 0 <= c2 < 4 ==> #[trigger] dst@[pixel_index(
                        w,
                        y2,
                        x2,
                        c2,
                    )] == if y2 < y || (y2 == y && c2 < c) {
                        box_mean(row_line(src@, w, y2, c2), r, x2) as u8
                    } else {
                        old(dst)@[pixel_index(w, y2, x2, c2)]
                    },
                forall|i: int| n <= i < len ==> #[trigger] dst@[i] == old(dst)@[i],
            decreases 4 - c,
        {
            proof {
                lemma_pixel_index_bounds(w, h, y as int, 0, c as int);
                lemma_pixel_index_bounds(w, h, y as int, w - 1, c as int);
                lemma_row_line_positions(w, h, y as int, c as int);
            }
            assert(pixel_index(w, y as int, 0, c as int) == (y * width) * 4 + c);
            let base = (y * width) * 4 + c;
            let ghost before = dst@;
            assert(base + (width - 1) * 4 == pixel_index(w, y as int, w - 1, c as int));
            blur_line(src, dst, base, 4, width, radius);
            proof {
                assert(strided(src@, base as int, 4, w) =~= row_line(src@, w, y as int, c as int));
                assert forall|y2: int, x2: int, c2: int|
                    0 <= y2 < h && 0 <= x2 < w && 0 <= c2 < 4 implies #[trigger] dst@[pixel_index(
                        w,
                        y2,
                        x2,
                        c2,
                    )] == if y2 < y || (y2 == y && c2 < c + 1) {
                        box_mean(row_line(src@, w, y2, c2), r, x2) as u8
                    } else {
                        old(dst)@[pixel_index(w, y2, x2, c2)]
                    } by {
                    lemma_pixel_index_bounds(w, h, y2, x2, c2);
                    let i = pixel_index(w, y2, x2, c2);
                    assert(dst@[i] == if on_line(i, base as int, 4, w) {
                        box_mean(strided(src@, base as int, 4, w), r, (i - base) / 4) as u8
                    } else {
                        before[i]
                    });
                }
                assert forall|i: int| n <= i < len implies #[trigger] dst@[i] == old(dst)@[i] by {
                    assert(!on_line(i, base as int, 4, w));
                    assert(dst@[i] == before[i]);
                }
            }
            c = c + 1;
        }
        y = y + 1;
    }
    proof {
        assert forall|i: int| 0 <= i < n implies #[trigger] dst@.subrange(0, n)[i] == horizontal_pass(
            src@,
            w,
            h,
            r,
        )[i] by {
            lemma_index_recompose(w, h, i);
            let y2 = (i / 4) / w;
            let x2 = (i / 4) % w;
            let c2 = i % 4;
            assert(dst@[pixel_index(w, y2, x2, c2)] == box_mean(row_line(src@, w, y2, c2), r, x2) as u8);
        }
        assert(dst@.subrange(0, n) =~= horizontal_pass(src@, w, h, r));
        assert(dst@.subrange(n, len) =~= old(dst)@.subrange(n, len));
    }
}


/// One vertical box-blur pass: writes into the first
/// `width * height * 4` bytes of `dst` the image that `vertical_pass`
/// makes of `src`, and leaves the rest of `dst` as it was.
pub fn vertical_box_pass(src: &[u8], dst: &mut [u8], width: usize, height: usize, radius: usize)
    requires
        width > 0 ==> height > 0,
        src@.len() >= rgba_len_spec(width as int, height as int),
        old(dst)@.len() >= rgba_len_spec(width as int, height as int),
        width > 0 ==> height * 255 <= u64::MAX,
    ensures
        final(dst)@.len() == old(dst)@.len(),
        final(dst)@.subrange(0, rgba_len_spec(width as int, height as int)) == vertical_pass(
            src@,
            width as int,
            height as int,
            radius as int,
        ),
        final(dst)@.subrange(rgba_len_spec(width as int, height as int), old(dst)@.len() as int)
            == old(dst)@.subrange(rgba_len_spec(width as int, height as int), old(dst)@.len() as int),
{
    let ghost w = width as int;
    let ghost h = height as int;
    let ghost r = radius as int;
    let ghost n = rgba_len_spec(w, h);
    let ghost len = old(dst)@.len() as int;
    let dst_len = dst.len();
    let mut x: usize = 0;
    while x < width
        invariant
            w == width,
            h == height,
            r == radius,
            n == rgba_len_spec(w, h),
            len == old(dst)@.len(),
            dst_len == len,
            width > 0 ==> height > 0,
            src@.len() >= n,
            len >= n,
            width > 0 ==> height * 255 <= u64::MAX,
            x <= width,
            dst@.len() == len,
            forall|y2: int, x2: int, c2: int|
                0 <= y2 < h && 0 <= x2 < w && 0 <= c2 < 4 ==> #[trigger] dst@[pixel_index(
                    w,
                    y2,
                    x2,
                    c2,
                )] == if x2 < x {
                    box_mean(column_line(src@, w, h, x2, c2), r, y2) as u8
                } else {
                    old(dst)@[pixel_index(w, y2, x2, c2)]
                },
            forall|i: int| n <= i < len ==> #[trigger] dst@[i] == old(dst)@[i],
        decreases width - x,
    {
        let mut c: usize = 0;
        while c < 4
            invariant
                w == width,
                h == height,
                r == radius,
                n == rgba_len_spec(w, h),
                len == old(dst)@.len(),
                dst_len == len,
                0 < height,
                src@.len() >= n,
                len >= n,
                height * 255 <= u64::MAX,
                x < width,
                c <= 4,
                dst@.len() == len,
                forall|y2: int, x2: int, c2: int|
                    0 <= y2 < h && 0 <= x2 < w && 0 <= c2 < 4 ==> #[trigger] dst@[pixel_index(
                        w,
                        y2,
                        x2,
                        c2,
                    )] == if x2 < x || (x2 == x && c2 < c) {
                        box_mean(column_line(src@, w, h, x2, c2), r, y2) as u8
                    } else {
                        old(dst)@[pixel_index(w, y2, x2, c2)]
                    },
                forall|i: int| n <= i < len ==> #[trigger] dst@[i] == old(dst)@[i],
            decreases 4 - c,
        {
            proof {
                lemma_pixel_index_bounds(w, h, 0, x as int, c as int);
                lemma_pixel_index_bounds(w, h, h - 1, x as int, c as int);
                lemma_column_line_positions(w, h, x as int, c as int);
                assert((h - 1) * (w * 4) == ((h - 1) * w) * 4) by (nonlinear_arith);
                assert(0 <= (h - 1) * w) by (nonlinear_arith)
                    requires
                        0 < h,
                        0 < w,
                ;
            }
            assert(pixel_index(w, 0, x as int, c as int) == x * 4 + c);
            let base = x * 4 + c;
            assert(w * 4 <= w * h * 4) by (nonlinear_arith)
                requires
                    0 < h,
                    0 < w,
            ;
            let stride = width * 4;
            let ghost before = dst@;
            assert(base + (height - 1) * stride == pixel_index(w, h - 1, x as int, c as int));
            blur_line(src, dst, base, stride, height, radius);
            proof {
                assert(strided(src@, base as int, stride as int, h) =~= column_line(
                    src@,
                    w,
                    h,
                    x as int,
                    c as int,
                ));
                assert forall|y2: int, x2: int, c2: int|
                    0 <= y2 < h && 0 <= x2 < w && 0 <= c2 < 4 implies #[trigger] dst@[pixel_index(
                        w,
                        y2,
                        x2,
                        c2,
                    )] == if x2 < x || (x2 == x && c2 < c + 1) {
                        box_mean(column_line(src@, w, h, x2, c2), r, y2) as u8
                    } else {
                        old(dst)@[pixel_index(w, y2, x2, c2)]
                    } by {
                    lemma_pixel_index_bounds(w, h, y2, x2, c2);
                    let i = pixel_index(w, y2, x2, c2);
                    assert(dst@[i] == if on_line(i, base as int, stride as int, h) {
                        box_mean(
                            strided(src@, base as int, stride as int, h),
                            r,
                            (i - base) / (stride as int),
                        ) as u8
                    } else {
                        before[i]
                    });
                }
                assert forall|i: int| n <= i < len implies #[trigger] dst@[i] == old(dst)@[i] by {
                    assert(!on_line(i, base as int, stride as int, h));
                    assert(dst@[i] == before[i]);
                }
            }
            c = c + 1;
        }
        x = x + 1;
    }
    proof {
        assert forall|i: int| 0 <= i < n implies #[trigger] dst@.subrange(0, n)[i] == vertical_pass(
            src@,
            w,
            h,
            r,
        )[i] by {
            lemma_index_recompose(w, h, i);
            let y2 = (i / 4) / w;
            let x2 = (i / 4) % w;
            let c2 = i % 4;
            assert(dst@[pixel_index(w, y2, x2, c2)] == box_mean(
                column_line(src@, w, h, x2, c2),
                r,
                y2,
            ) as u8);
        }
        assert(dst@.subrange(0, n) =~= vertical_pass(src@, w, h, r));
        assert(dst@.subrange(n, len) =~= old(dst)@.subrange(n, len));
    }
}


/// One round of the weighted blur: a horizontal pass followed by a
/// vertical pass over its result.
pub open spec fn blur_round(img: Seq<u8>, w: int, h: int, r: int) -> Seq<u8> {
    vertical_pass(horizontal_pass(img, w, h, r), w, h, r)
}

/// What one round of `apply_weighted_blur` makes of the whole buffer: the
/// image bytes become `blur_round` of the image, the bytes past the image
/// become zero.
pub open spec fn blur_step(data: Seq<u8>, w: int, h: int, r: int) -> Seq<u8> {
    blur_round(data, w, h, r) + Seq::new(
        (data.len() - rgba_len_spec(w, h)) as nat,
        |i: int| 0u8,
    )
}

/// The buffer after `k` rounds of `blur_step`.
pub open spec fn blurred(data: Seq<u8>, w: int, h: int, r: int, k: nat) -> Seq<u8>
    decreases k,
{
    if k == 0 {
        data
    } else {
        blur_step(blurred(data, w, h, r, (k - 1) as nat), w, h, r)
    }
}

/// A vertical pass reads nothing of its input past the image.
proof fn lemma_vertical_pass_reads_image(a: Seq<u8>, b: Seq<u8>, w: int, h: int, r: int)
    requires
        0 <= w,
        0 <= h,
        a.len() >= rgba_len_spec(w, h),
        b.len() >= rgba_len_spec(w, h),
        a.subrange(0, rgba_len_spec(w, h)) == b.subrange(0, rgba_len_spec(w, h)),
    ensures
        vertical_pass(a, w, h, r) == vertical_pass(b, w, h, r),
{
    let n = rgba_len_spec(w, h);
    assert forall|i: int| 0 <= i < n implies #[trigger] vertical_pass(a, w, h, r)[i]
        == vertical_pass(b, w, h, r)[i] by {
        if w > 0 {
            lemma_index_recompose(w, h, i);
        } else {
            assert(n == 0) by (nonlinear_arith)
                requires
                    w == 0,
                    n == w * h * 4,
            ;
        }
        let x = (i / 4) % w;
        let c = i % 4;
        assert forall|y: int| 0 <= y < h implies #[trigger] a[pixel_index(w, y, x, c)] == b[pixel_index(
            w,
            y,
            x,
            c,
        )] by {
            lemma_pixel_index_bounds(w, h, y, x, c);
            assert(a.subrange(0, n)[pixel_index(w, y, x, c)] == b.subrange(0, n)[pixel_index(
                w,
                y,
                x,
                c,
            )]);
        }
        assert(column_line(a, w, h, x, c) =~= column_line(b, w, h, x, c));
    }
    assert(vertical_pass(a, w, h, r) =~= vertical_pass(b, w, h, r));
}

/// Blurs the `width` by `height` RGBA image at the front of `data` in
/// place, `iterations` times over, each time with a horizontal and then a
/// vertical box pass of radius `radius`; bytes past the image are cleared
/// by the first round.
pub fn apply_weighted_blur(
    data: &mut [u8],
    width: usize,
    height: usize,
    radius: usize,
    iterations: usize,
)
    requires
        iterations > 0 ==> {
            &&& (width == 0) == (height == 0)
            &&& old(data)@.len() >= rgba_len_spec(width as int, height as int)
            &&& width * 255 <= u64::MAX
            &&& height * 255 <= u64::MAX
        },
    ensures
        final(data)@ == blurred(
            old(data)@,
            width as int,
            height as int,
            radius as int,
            iterations as nat,
        ),
{
    let ghost w = width as int;
    let ghost h = height as int;
    let ghost r = radius as int;
    let ghost n = rgba_len_spec(w, h);
    let len = data.len();
    let mut tmp: Vec<u8> = vec![0u8; len];
    let mut dst: Vec<u8> = vec![0u8; len];
    let mut round: usize = 0;
    while round < iterations
        invariant
            w == width,
            h == height,
            r == radius,
            n == rgba_len_spec(w, h),
            iterations > 0 ==> {
                &&& (width == 0) == (height == 0)
                &&& len >= n
                &&& width * 255 <= u64::MAX
                &&& height * 255 <= u64::MAX
            },
            round <= iterations,
            len == data@.len(),
            tmp@.len() == len,
            dst@.len() == len,
            forall|i: int| n <= i < len ==> #[trigger] tmp@[i] == 0u8,
            forall|i: int| n <= i < len ==> #[trigger] dst@[i] == 0u8,
            data@ == blurred(old(data)@, w, h, r, round as nat),
        decreases iterations - round,
    {
        let ghost before = data@;
        let ghost tmp_before = tmp@;
        let ghost dst_before = dst@;
        horizontal_box_pass(data, tmp.as_mut_slice(), width, height, radius);
        vertical_box_pass(tmp.as_slice(), dst.as_mut_slice(), width, height, radius);
        proof {
            assert forall|i: int| n <= i < len implies #[trigger] tmp@[i] == 0u8 by {
                assert(tmp@.subrange(n, len as int)[i - n] == tmp_before.subrange(n, len as int)[i
                    - n]);
            }
            assert forall|i: int| n <= i < len implies #[trigger] dst@[i] == 0u8 by {
                assert(dst@.subrange(n, len as int)[i - n] == dst_before.subrange(n, len as int)[i
                    - n]);
            }
            assert(tmp@.subrange(0, n) =~= horizontal_pass(before, w, h, r).subrange(0, n));
            lemma_vertical_pass_reads_image(tmp@, horizontal_pass(before, w, h, r), w, h, r);
        }
        let mut i: usize = 0;
        while i < len
            invariant
                len == data@.len(),
                dst@.len() == len,
                i <= len,
                forall|j: int| 0 <= j < i ==> #[trigger] data@[j] == dst@[j],
            decreases len - i,
        {
            data[i] = dst[i as usize];
            i = i + 1;
        }
        proof {
            assert(data@ =~= dst@);
            let step = blur_step(before, w, h, r);
            assert forall|j: int| 0 <= j < len implies #[trigger] dst@[j] == step[j] by {
                if j < n {
                    assert(dst@.subrange(0, n)[j] == blur_round(before, w, h, r)[j]);
                }
            }
            assert(dst@ =~= step);
        }
        round = round + 1;
    }
}


/// Every pixel of the `w` by `h` image `img` has the same value in each
/// channel as the top-left pixel.
pub open spec fn is_uniform(img: Seq<u8>, w: int, h: int) -> bool {
    forall|y: int, x: int, c: int|
        0 <= y < h && 0 <= x < w && 0 <= c < 4 ==> #[trigger] img[pixel_index(w, y, x, c)]
            == img[pixel_index(w, 0, 0, c)]
}

proof fn lemma_span_sum_constant(line: Seq<u8>, v: u8, lo: int, hi: int)
    requires
        0 <= lo <= hi <= line.len(),
        forall|k: int| 0 <= k < line.len() ==> #[trigger] line[k] == v,
    ensures
        span_sum(line, lo, hi) == v * (hi - lo),
    decreases hi - lo,
{
    if lo < hi {
        lemma_span_sum_constant(line, v, lo, hi - 1);
        assert(line[hi - 1] == v);
        assert(v * (hi - 1 - lo) + v == v * (hi - lo)) by (nonlinear_arith);
    } else {
        assert(v * (hi - lo) == 0) by (nonlinear_arith)
            requires
                hi == lo,
        ;
    }
}

/// The box mean of a line whose samples are all `v` is `v`.
proof fn lemma_box_mean_constant(line: Seq<u8>, v: u8, r: int, i: int)
    requires
        0 <= r,
        0 <= i < line.len(),
        forall|k: int| 0 <= k < line.len() ==> #[trigger] line[k] == v,
    ensures
        box_mean(line, r, i) == v,
{
    let lo = window_start(i, r);
    let hi = window_end(i, r, line.len() as int);
    lemma_span_sum_constant(line, v, lo, hi + 1);
    vstd::arithmetic::div_mod::lemma_div_multiples_vanish(v as int, hi + 1 - lo);
    assert(v * (hi + 1 - lo) == (hi + 1 - lo) * v) by (nonlinear_arith);
}

proof fn lemma_horizontal_pass_uniform_channel(img: Seq<u8>, w: int, h: int, r: int, c: int, v: u8)
    requires
        0 < w,
        0 < h,
        0 <= r,
        0 <= c < 4,
        img.len() >= rgba_len_spec(w, h),
        forall|y: int, x: int|
            0 <= y < h && 0 <= x < w ==> #[trigger] img[pixel_index(w, y, x, c)] == v,
    ensures
        horizontal_pass(img, w, h, r).len() == rgba_len_spec(w, h),
        forall|y: int, x: int|
            0 <= y < h && 0 <= x < w ==> #[trigger] horizontal_pass(img, w, h, r)[pixel_index(
                w,
                y,
                x,
                c,
            )] == v,
{
    assert forall|y: int, x: int| 0 <= y < h && 0 <= x < w implies #[trigger] horizontal_pass(
        img,
        w,
        h,
        r,
    )[pixel_index(w, y, x, c)] == v by {
        lemma_pixel_index_bounds(w, h, y, x, c);
        lemma_pixel_index_decompose(w, y, x, c);
        lemma_box_mean_constant(row_line(img, w, y, c), v, r, x);
    }
}

proof fn lemma_vertical_pass_uniform_channel(img: Seq<u8>, w: int, h: int, r: int, c: int, v: u8)
    requires
        0 < w,
        0 < h,
        0 <= r,
        0 <= c < 4,
        img.len() >= rgba_len_spec(w, h),
        forall|y: int, x: int|
            0 <= y < h && 0 <= x < w ==> #[trigger] img[pixel_index(w, y, x, c)] == v,
    ensures
        vertical_pass(img, w, h, r).len() == rgba_len_spec(w, h),
        forall|y: int, x: int|
            0 <= y < h && 0 <= x < w ==> #[trigger] vertical_pass(img, w, h, r)[pixel_index(
                w,
                y,
                x,
                c,
            )] == v,
{
    assert forall|y: int, x: int| 0 <= y < h && 0 <= x < w implies #[trigger] vertical_pass(
        img,
        w,
        h,
        r,
    )[pixel_index(w, y, x, c)] == v by {
        lemma_pixel_index_bounds(w, h, y, x, c);
        lemma_pixel_index_decompose(w, y, x, c);
        lemma_box_mean_constant(column_line(img, w, h, x, c), v, r, y);
    }
}

/// A channel that has the same value `v` in every pixel keeps that value in
/// every pixel through any number of blur rounds, of any radius (so an
/// opaque image stays opaque).
pub proof fn lemma_blur_keeps_uniform_channel(
    img: Seq<u8>,
    w: int,
    h: int,
    r: int,
    k: nat,
    c: int,
    v: u8,
)
    requires
        0 < w,
        0 < h,
        0 <= r,
        0 <= c < 4,
        img.len() == rgba_len_spec(w, h),
        forall|y: int, x: int|
            0 <= y < h && 0 <= x < w ==> #[trigger] img[pixel_index(w, y, x, c)] == v,
    ensures
        blurred(img, w, h, r, k).len() == img.len(),
        forall|y: int, x: int|
            0 <= y < h && 0 <= x < w ==> #[trigger] blurred(img, w, h, r, k)[pixel_index(
                w,
                y,
                x,
                c,
            )] == v,
    decreases k,
{
    if k > 0 {
        lemma_blur_keeps_uniform_channel(img, w, h, r, (k - 1) as nat, c, v);
        let b = blurred(img, w, h, r, (k - 1) as nat);
        lemma_horizontal_pass_uniform_channel(b, w, h, r, c, v);
        let hp = horizontal_pass(b, w, h, r);
        lemma_vertical_pass_uniform_channel(hp, w, h, r, c, v);
        let step = blur_step(b, w, h, r);
        assert(step.len() == img.len());
        assert forall|y: int, x: int| 0 <= y < h && 0 <= x < w implies #[trigger] step[pixel_index(
            w,
            y,
            x,
            c,
        )] == v by {
            lemma_pixel_index_bounds(w, h, y, x, c);
            assert(vertical_pass(hp, w, h, r)[pixel_index(w, y, x, c)] == v);
        }
    }
}

/// An image whose pixels all have the same colour comes out of any number
/// of blur rounds, of any radius, unchanged; in particular a one-pixel
/// image is never changed by the blur.
pub proof fn lemma_blur_keeps_uniform_image(img: Seq<u8>, w: int, h: int, r: int, k: nat)
    requires
        0 < w,
        0 < h,
        0 <= r,
        img.len() == rgba_len_spec(w, h),
        is_uniform(img, w, h),
    ensures
        blurred(img, w, h, r, k) == img,
{
    let b = blurred(img, w, h, r, k);
    lemma_blur_keeps_uniform_channel(img, w, h, r, k, 0, img[pixel_index(w, 0, 0, 0)]);
    assert forall|i: int| 0 <= i < img.len() implies #[trigger] b[i] == img[i] by {
        lemma_index_recompose(w, h, i);
        let y = (i / 4) / w;
        let x = (i / 4) % w;
        let c = i % 4;
        lemma_blur_keeps_uniform_channel(img, w, h, r, k, c, img[pixel_index(w, 0, 0, c)]);
        assert(b[pixel_index(w, y, x, c)] == img[pixel_index(w, 0, 0, c)]);
        assert(img[pixel_index(w, y, x, c)] == img[pixel_index(w, 0, 0, c)]);
    }
    assert(b =~= img);
}


/// `a` rounds of blur followed by `b` more rounds are `a + b` rounds, and
/// no rounds leave the buffer as it was.
pub proof fn lemma_blurred_add(data: Seq<u8>, w: int, h: int, r: int, a: nat, b: nat)
    ensures
        blurred(data, w, h, r, 0) == data,
        blurred(blurred(data, w, h, r, a), w, h, r, b) == blurred(data, w, h, r, a + b),
    decreases b,
{
    if b > 0 {
        lemma_blurred_add(data, w, h, r, a, (b - 1) as nat);
        assert((a + b - 1) as nat == a + (b - 1) as nat);
    }
}

/// `s` read back to front.
pub open spec fn reversed(s: Seq<u8>) -> Seq<u8> {
    Seq::new(s.len(), |k: int| s[s.len() - 1 - k])
}

proof fn lemma_span_sum_reversed(s: Seq<u8>, a: int, b: int)
    requires
        0 <= a <= b <= s.len(),
    ensures
        span_sum(reversed(s), a, b) == span_sum(s, s.len() - b, s.len() - a),
    decreases b - a,
{
    if a < b {
        lemma_span_sum_reversed(s, a, b - 1);
        lemma_span_sum_first(s, s.len() - b, s.len() - a);
    } else {
        assert(span_sum(s, s.len() - b, s.len() - a) == 0);
    }
}

/// The box mean at position `x` of a reversed line is the box mean at the
/// mirrored position of the line.
proof fn lemma_box_mean_reversed(s: Seq<u8>, r: int, x: int)
    requires
        0 <= r,
        0 <= x < s.len(),
    ensures
        box_mean(reversed(s), r, x) == box_mean(s, r, s.len() - 1 - x),
{
    let n = s.len() as int;
    let lo = window_start(x, r);
    let hi = window_end(x, r, n);
    assert(window_start(n - 1 - x, r) == n - 1 - hi);
    assert(window_end(n - 1 - x, r, n) == n - 1 - lo);
    lemma_span_sum_reversed(s, lo, hi + 1);
}

/// The horizontal pass commutes with mirroring left to right.
pub proof fn lemma_horizontal_pass_mirror(img: Seq<u8>, w: int, h: int, r: int)
    requires
        0 < w,
        0 <= h,
        0 <= r,
        img.len() >= rgba_len_spec(w, h),
    ensures
        horizontal_pass(mirrored_horizontally(img, w, h), w, h, r) == mirrored_horizontally(
            horizontal_pass(img, w, h, r),
            w,
            h,
        ),
{
    let n = rgba_len_spec(w, h);
    let m = mirrored_horizontally(img, w, h);
    let lhs = horizontal_pass(m, w, h, r);
    let hp = horizontal_pass(img, w, h, r);
    let rhs = mirrored_horizontally(hp, w, h);
    assert forall|i: int| 0 <= i < n implies #[trigger] lhs[i] == rhs[i] by {
        lemma_index_recompose(w, h, i);
        let y = (i / 4) / w;
        let x = (i / 4) % w;
        let c = i % 4;
        let line = row_line(img, w, y, c);
        assert forall|k: int| 0 <= k < w implies #[trigger] row_line(m, w, y, c)[k] == reversed(
            line,
        )[k] by {
            lemma_pixel_index_bounds(w, h, y, k, c);
            lemma_pixel_index_decompose(w, y, k, c);
        }
        assert(row_line(m, w, y, c) =~= reversed(line));
        lemma_box_mean_reversed(line, r, x);
        let j = pixel_index(w, y, w - 1 - x, c);
        lemma_pixel_index_bounds(w, h, y, w - 1 - x, c);
        lemma_pixel_index_decompose(w, y, w - 1 - x, c);
        assert(rhs[i] == hp[j]);
    }
    assert(lhs =~= rhs);
}

/// The `w` by `h` image `img` turned about its main diagonal: an `h` wide,
/// `w` tall image whose pixel at row `x`, column `y` is the pixel of `img` at
/// row `y`, column `x`.
pub open spec fn transposed(img: Seq<u8>, w: int, h: int) -> Seq<u8> {
    Seq::new(
        rgba_len_spec(w, h) as nat,
        |i: int| img[pixel_index(w, (i / 4) % h, (i / 4) / h, i % 4)],
    )
}

/// The vertical pass is the horizontal pass of the transposed image,
/// transposed back.
pub proof fn lemma_vertical_pass_is_transposed_horizontal(img: Seq<u8>, w: int, h: int, r: int)
    requires
        0 < w,
        0 < h,
        0 <= r,
        img.len() >= rgba_len_spec(w, h),
    ensures
        transposed(vertical_pass(img, w, h, r), w, h) == horizontal_pass(
            transposed(img, w, h),
            h,
            w,
            r,
        ),
{
    let n = rgba_len_spec(w, h);
    assert(h * w * 4 == w * h * 4) by (nonlinear_arith);
    assert(rgba_len_spec(h, w) == n);
    let t = transposed(img, w, h);
    let vp = vertical_pass(img, w, h, r);
    let lhs = transposed(vp, w, h);
    let rhs = horizontal_pass(t, h, w, r);
    assert forall|i: int| 0 <= i < n implies #[trigger] lhs[i] == rhs[i] by {
        lemma_index_recompose(h, w, i);
        let yt = (i / 4) / h;
        let xt = (i / 4) % h;
        let c = i % 4;
        let j = pixel_index(w, xt, yt, c);
        lemma_pixel_index_bounds(w, h, xt, yt, c);
        lemma_pixel_index_decompose(w, xt, yt, c);
        assert(lhs[i] == vp[j]);
        assert forall|k: int| 0 <= k < h implies #[trigger] row_line(t, h, yt, c)[k]
            == column_line(img, w, h, yt, c)[k] by {
            lemma_pixel_index_bounds(h, w, yt, k, c);
            lemma_pixel_index_decompose(h, yt, k, c);
        }
        assert(row_line(t, h, yt, c) =~= column_line(img, w, h, yt, c));
    }
    assert(lhs =~= rhs);
}


/// Sum of channel `c` over the pixels `lo`, ..., `hi - 1` of an RGBA image
/// that is one pixel wide or one pixel tall, whose pixel `k` has channel `c`
/// at byte `4 * k + c` (zero for an empty range).
pub open spec fn channel_column_sum(img: Seq<u8>, c: int, lo: int, hi: int) -> int
    decreases hi - lo,
{
    if hi <= lo {
        0
    } else {
        channel_column_sum(img, c, lo, hi - 1) + img[4 * (hi - 1) + c]
    }
}

proof fn lemma_column_sum_matches(img: Seq<u8>, line: Seq<u8>, c: int, lo: int, hi: int)
    requires
        0 <= lo,
        hi <= line.len(),
        forall|k: int| 0 <= k < line.len() ==> #[trigger] line[k] == img[4 * k + c],
    ensures
        span_sum(line, lo, hi) == channel_column_sum(img, c, lo, hi),
    decreases hi - lo,
{
    if lo < hi {
        lemma_column_sum_matches(img, line, c, lo, hi - 1);
    }
}

/// One blur round keeps the length of the buffer and, over the image, is
/// the vertical box pass of radius `r` applied to the horizontal box pass
/// of the same radius `r`.
pub proof fn lemma_blur_round_radius_both_ways(img: Seq<u8>, w: int, h: int, r: int)
    requires
        0 <= w,
        0 <= h,
        img.len() >= rgba_len_spec(w, h),
    ensures
        blurred(img, w, h, r, 1).len() == img.len(),
        blurred(img, w, h, r, 1).subrange(0, rgba_len_spec(w, h)) == vertical_pass(
            horizontal_pass(img, w, h, r),
            w,
            h,
            r,
        ),
{
    assert(blurred(img, w, h, r, 0) == img);
    let n = rgba_len_spec(w, h);
    assert(0 <= n) by (nonlinear_arith)
        requires
            0 <= w,
            0 <= h,
            n == w * h * 4,
    ;
    assert(blurred(img, w, h, r, 1).subrange(0, n) =~= vertical_pass(
        horizontal_pass(img, w, h, r),
        w,
        h,
        r,
    ));
}

/// One blur round of radius `r` over a one-pixel-wide image replaces
/// channel `c` of the pixel in row `y` by the mean, rounded down, of that
/// channel over all the rows at most `r` away from `y` (the window cut off
/// at the top and the bottom of the image).
pub proof fn lemma_one_column_round_is_window_mean(img: Seq<u8>, h: int, r: int, y: int, c: int)
    requires
        0 <= r,
        img.len() >= 4 * h,
        0 <= y < h,
        0 <= c < 4,
    ensures
        ({
            let lo = if y - r > 0 {
                y - r
            } else {
                0
            };
            let hi = if y + r < h - 1 {
                y + r
            } else {
                h - 1
            };
            blurred(img, 1, h, r, 1)[4 * y + c] as int == channel_column_sum(img, c, lo, hi + 1)
                / (hi - lo + 1)
        }),
{
    let n = rgba_len_spec(1, h);
    assert(n == 4 * h);
    let hp = horizontal_pass(img, 1, h, r);
    assert forall|i: int| 0 <= i < n implies #[trigger] hp[i] == img[i] by {
        let line = row_line(img, 1, (i / 4) / 1, i % 4);
        assert(line.len() == 1);
        assert(window_start(0, r) == 0);
        assert(window_end(0, r, 1) == 0);
        assert(span_sum(line, 0, 1) == line[0]) by {
            assert(span_sum(line, 0, 0) == 0);
        }
        assert(pixel_index(1, (i / 4) / 1, 0, i % 4) == i);
    }
    let i = 4 * y + c;
    assert(i / 4 == y);
    assert(i % 4 == c);
    let line = column_line(hp, 1, h, (i / 4) % 1, i % 4);
    assert(line.len() == h);
    assert forall|k: int| 0 <= k < line.len() implies #[trigger] line[k] == img[4 * k + c] by {
        assert(pixel_index(1, k, 0, c) == 4 * k + c);
        assert(0 <= 4 * k + c < n);
    }
    let lo = window_start(y, r);
    let hi = window_end(y, r, h);
    lemma_column_sum_matches(img, line, c, lo, hi + 1);
    lemma_span_sum_bounds(line, lo, hi + 1);
    lemma_mean_fits(span_sum(line, lo, hi + 1), hi - lo + 1);
    lemma_blur_round_radius_both_ways(img, 1, h, r);
    assert(blurred(img, 1, h, r, 1)[i] == blurred(img, 1, h, r, 1).subrange(0, n)[i]);
    assert(vertical_pass(hp, 1, h, r)[i] == box_mean(line, r, y) as u8);
}


/// One blur round of radius `r` over a one-pixel-tall image replaces
/// channel `c` of the pixel in column `x` by the mean, rounded down, of that
/// channel over all the columns at most `r` away from `x` (the window cut
/// off at the left and the right of the image).
#[verifier::spinoff_prover]
pub proof fn lemma_one_row_round_is_window_mean(img: Seq<u8>, w: int, r: int, x: int, c: int)
    requires
        0 <= r,
        img.len() >= 4 * w,
        0 <= x < w,
        0 <= c < 4,
    ensures
        ({
            let lo = if x - r > 0 {
                x - r
            } else {
                0
            };
            let hi = if x + r < w - 1 {
                x + r
            } else {
                w - 1
            };
            blurred(img, w, 1, r, 1)[4 * x + c] as int == channel_column_sum(img, c, lo, hi + 1)
                / (hi - lo + 1)
        }),
{
    let n = rgba_len_spec(w, 1);
    assert(n == 4 * w);
    let hp = horizontal_pass(img, w, 1, r);
    let i = 4 * x + c;
    assert(i / 4 == x);
    assert(i % 4 == c);
    assert((i / 4) / w == 0) by {
        vstd::arithmetic::div_mod::lemma_basic_div(x, w);
    }
    assert((i / 4) % w == x) by {
        vstd::arithmetic::div_mod::lemma_small_mod(x as nat, w as nat);
    }
    let line = row_line(img, w, 0, c);
    assert forall|k: int| 0 <= k < line.len() implies #[trigger] line[k] == img[4 * k + c] by {
        assert(pixel_index(w, 0, k, c) == 4 * k + c);
    }
    let lo = window_start(x, r);
    let hi = window_end(x, r, w);
    lemma_column_sum_matches(img, line, c, lo, hi + 1);
    lemma_span_sum_bounds(line, lo, hi + 1);
    lemma_mean_fits(span_sum(line, lo, hi + 1), hi - lo + 1);
    assert(hp[i] == box_mean(line, r, x) as u8);
    // The vertical pass over a single row keeps every byte.
    let vline = column_line(hp, w, 1, x, c);
    assert(vline.len() == 1);
    assert(pixel_index(w, 0, x, c) == i);
    assert(window_start(0, r) == 0);
    assert(window_end(0, r, 1) == 0);
    assert(span_sum(vline, 0, 1) == vline[0]) by {
        assert(span_sum(vline, 0, 0) == 0);
    }
    lemma_blur_round_radius_both_ways(img, w, 1, r);
    assert(blurred(img, w, 1, r, 1)[i] == blurred(img, w, 1, r, 1).subrange(0, n)[i]);
    assert(vertical_pass(hp, w, 1, r)[i] == box_mean(vline, r, 0) as u8);
    assert(vline[0] == hp[i]);
    assert(window_end(0, r, vline.len() as int) == 0);
    assert(box_mean(vline, r, 0) == span_sum(vline, 0, 1) / 1);
    assert(box_mean(vline, r, 0) == hp[i]);
    assert(line.len() == w);
    assert(box_mean(line, r, x) == span_sum(line, lo, hi + 1) / (hi - lo + 1));
    assert(hp[i] as int == box_mean(line, r, x));
    assert(blurred(img, w, 1, r, 1)[i] == hp[i]);
}

} // verus!
