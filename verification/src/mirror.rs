//! Mirroring an RGBA image left to right and top to bottom, in place.
use vstd::prelude::*;
use crate::layout::{
    lemma_index_recompose, lemma_pixel_index_bounds, lemma_pixel_index_decompose,
    lemma_pixel_index_injective, pixel_index, rgba_len_spec,
};

verus! {

/// The buffer `img` with its `w` by `h` image mirrored left to right: every
/// pixel takes the value of the pixel at the mirrored column of its row.
/// Bytes past the image are kept.
pub open spec fn mirrored_horizontally(img: Seq<u8>, w: int, h: int) -> Seq<u8> {
    Seq::new(
        img.len(),
        |i: int|
            if i < rgba_len_spec(w, h) {
                img[pixel_index(w, (i / 4) / w, w - 1 - (i / 4) % w, i % 4)]
            } else {
                img[i]
            },
    )
}

/// The buffer `img` with its `w` by `h` image mirrored top to bottom: every
/// pixel takes the value of the pixel at the mirrored row of its column.
/// Bytes past the image are kept.
pub open spec fn mirrored_vertically(img: Seq<u8>, w: int, h: int) -> Seq<u8> {
    Seq::new(
        img.len(),
        |i: int|
            if i < rgba_len_spec(w, h) {
                img[pixel_index(w, h - 1 - (i / 4) / w, (i / 4) % w, i % 4)]
            } else {
                img[i]
            },
    )
}

/// The smaller of `a` and `b`.
pub open spec fn min_int(a: int, b: int) -> int {
    if a < b {
        a
    } else {
        b
    }
}

/// Mirrors the `width` by `height` RGBA image at the front of `data` left
/// to right, in place.
pub fn mirror_horizontal(data: &mut [u8], width: usize, height: usize)
    requires
        (width >= 2 && height > 0) ==> old(data)@.len() >= rgba_len_spec(
            width as int,
            height as int,
        ),
    ensures
        final(data)@ == mirrored_horizontally(old(data)@, width as int, height as int),
{
    let ghost w = width as int;
    let ghost h = height as int;
    let ghost n = rgba_len_spec(w, h);
    let ghost len = old(data)@.len() as int;
    let data_len = data.len();
    let mut y: usize = 0;
    while y < height
        invariant
            w == width,
            h == height,
            n == rgba_len_spec(w, h),
            len == old(data)@.len(),
            data_len == len,
            data@.len() == len,
            (width >= 2 && height > 0) ==> len >= n,
            width < 2 ==> data@ == old(data)@,
            y <= height,
            forall|y2: int, x2: int, c2: int|
                0 <= y2 < h && 0 <= x2 < w && 0 <= c2 < 4 ==> #[trigger] data@[pixel_index(
                    w,
                    y2,
                    x2,
                    c2,
                )] == if y2 < y {
                    old(data)@[pixel_index(w, y2, w - 1 - x2, c2)]
                } else {
                    old(data)@[pixel_index(w, y2, x2, c2)]
                },
            forall|i: int| n <= i < len ==> #[trigger] data@[i] == old(data)@[i],
        decreases height - y,
    {
        let mut x: usize = 0;
        while x < width / 2
            invariant
                w == width,
                h == height,
                n == rgba_len_spec(w, h),
                len == old(data)@.len(),
                data_len == len,
                data@.len() == len,
                (width >= 2 && height > 0) ==> len >= n,
                width < 2 ==> data@ == old(data)@,
                y < height,
                x <= width / 2,
                forall|y2: int, x2: int, c2: int|
                    0 <= y2 < h && 0 <= x2 < w && 0 <= c2 < 4 ==> #[trigger] data@[pixel_index(
                        w,
                        y2,
                        x2,
                        c2,
                    )] == if y2 < y || (y2 == y && min_int(x2, w - 1 - x2) < x) {
                        old(data)@[pixel_index(w, y2, w - 1 - x2, c2)]
                    } else {
                        old(data)@[pixel_index(w, y2, x2, c2)]
                    },
                forall|i: int| n <= i < len ==> #[trigger] data@[i] == old(data)@[i],
            decreases width / 2 - x,
        {
            proof {
                lemma_pixel_index_bounds(w, h, y as int, w - 1 - x, 3);
                lemma_pixel_index_bounds(w, h, y as int, x as int, 3);
            }
            let left = (y * width + x) * 4;
            let right = (y * width + (width - 1 - x)) * 4;
            let mut c: usize = 0;
            while c < 4
                invariant
                    w == width,
                    h == height,
                    n == rgba_len_spec(w, h),
                    len == old(data)@.len(),
                    data_len == len,
                    data@.len() == len,
                    len >= n,
                    2 <= width,
                    y < height,
                    x < width / 2,
                    left == pixel_index(w, y as int, x as int, 0),
                    right == pixel_index(w, y as int, w - 1 - x, 0),
                    c <= 4,
                    forall|y2: int, x2: int, c2: int|
                        0 <= y2 < h && 0 <= x2 < w && 0 <= c2 < 4 ==> #[trigger] data@[pixel_index(
                            w,
                            y2,
                            x2,
                            c2,
                        )] == if y2 < y || (y2 == y && (min_int(x2, w - 1 - x2) < x || (min_int(
                            x2,
                            w - 1 - x2,
                        ) == x && c2 < c))) {
                            old(data)@[pixel_index(w, y2, w - 1 - x2, c2)]
                        } else {
                            old(data)@[pixel_index(w, y2, x2, c2)]
                        },
                    forall|i: int| n <= i < len ==> #[trigger] data@[i] == old(data)@[i],
                decreases 4 - c,
            {
                let a = left + c;
                let b = right + c;
                proof {
                    lemma_pixel_index_bounds(w, h, y as int, x as int, c as int);
                    lemma_pixel_index_bounds(w, h, y as int, w - 1 - x, c as int);
                    assert(a == pixel_index(w, y as int, x as int, c as int));
                    assert(b == pixel_index(w, y as int, w - 1 - x, c as int));
                }
                let ghost before = data@;
                let t = data[a];
                let u = data[b];
                data[a] = u;
                data[b] = t;
                proof {
                    assert forall|y2: int, x2: int, c2: int|
                        0 <= y2 < h && 0 <= x2 < w && 0 <= c2 < 4 implies #[trigger] data@[pixel_index(
                            w,
                            y2,
                            x2,
                            c2,
                        )] == if y2 < y || (y2 == y && (min_int(x2, w - 1 - x2) < x || (min_int(
                            x2,
                            w - 1 - x2,
                        ) == x && c2 < c + 1))) {
                            old(data)@[pixel_index(w, y2, w - 1 - x2, c2)]
                        } else {
                            old(data)@[pixel_index(w, y2, x2, c2)]
                        } by {
                        let i = pixel_index(w, y2, x2, c2);
                        lemma_pixel_index_bounds(w, h, y2, x2, c2);
                        if i == a {
                            lemma_pixel_index_injective(w, y2, x2, c2, y as int, x as int, c as int);
                            assert(before[b as int] == old(data)@[b as int]);
                        } else if i == b {
                            lemma_pixel_index_injective(
                                w,
                                y2,
                                x2,
                                c2,
                                y as int,
                                w - 1 - x,
                                c as int,
                            );
                            assert(before[a as int] == old(data)@[a as int]);
                        } else {
                            assert(data@[i] == before[i]);
                            if y2 == y && c2 == c {
                                assert(x2 != x);
                                assert(x2 != w - 1 - x);
                            }
                        }
                    }
                    assert forall|i: int| n <= i < len implies #[trigger] data@[i] == old(
                        data,
                    )@[i] by {
                        assert(data@[i] == before[i]);
                    }
                }
                c = c + 1;
            }
            x = x + 1;
        }
        proof {
            assert forall|y2: int, x2: int, c2: int|
                0 <= y2 < h && 0 <= x2 < w && 0 <= c2 < 4 implies #[trigger] data@[pixel_index(
                    w,
                    y2,
                    x2,
                    c2,
                )] == if y2 < y + 1 {
                    old(data)@[pixel_index(w, y2, w - 1 - x2, c2)]
                } else {
                    old(data)@[pixel_index(w, y2, x2, c2)]
                } by {
                if y2 == y && min_int(x2, w - 1 - x2) >= x {
                    assert(x2 == w - 1 - x2);
                }
            }
        }
        y = y + 1;
    }
    proof {
        let target = mirrored_horizontally(old(data)@, w, h);
        assert forall|i: int| 0 <= i < len implies #[trigger] data@[i] == target[i] by {
            if i < n {
                lemma_index_recompose(w, h, i);
                let y2 = (i / 4) / w;
                let x2 = (i / 4) % w;
                let c2 = i % 4;
                assert(data@[pixel_index(w, y2, x2, c2)] == old(data)@[pixel_index(
                    w,
                    y2,
                    w - 1 - x2,
                    c2,
                )]);
            }
        }
        assert(data@ =~= target);
    }
}


/// Mirrors the `width` by `height` RGBA image at the front of `data` top to
/// bottom, in place.
pub fn mirror_vertical(data: &mut [u8], width: usize, height: usize)
    requires
        (height >= 2 && width > 0) ==> old(data)@.len() >= rgba_len_spec(
            width as int,
            height as int,
        ),
    ensures
        final(data)@ == mirrored_vertically(old(data)@, width as int, height as int),
{
    let ghost w = width as int;
    let ghost h = height as int;
    let ghost n = rgba_len_spec(w, h);
    let ghost len = old(data)@.len() as int;
    let data_len = data.len();
    let mut y: usize = 0;
    while y < height / 2
        invariant
            w == width,
            h == height,
            n == rgba_len_spec(w, h),
            len == old(data)@.len(),
            data_len == len,
            data@.len() == len,
            (height >= 2 && width > 0) ==> len >= n,
            height < 2 ==> data@ == old(data)@,
            y <= height / 2,
            forall|y2: int, x2: int, c2: int|
                0 <= y2 < h && 0 <= x2 < w && 0 <= c2 < 4 ==> #[trigger] data@[pixel_index(
                    w,
                    y2,
                    x2,
                    c2,
                )] == if min_int(y2, h - 1 - y2) < y {
                    old(data)@[pixel_index(w, h - 1 - y2, x2, c2)]
                } else {
                    old(data)@[pixel_index(w, y2, x2, c2)]
                },
            forall|i: int| n <= i < len ==> #[trigger] data@[i] == old(data)@[i],
        decreases height / 2 - y,
    {
        let mut x: usize = 0;
        while x < width
            invariant
                w == width,
                h == height,
                n == rgba_len_spec(w, h),
                len == old(data)@.len(),
                data_len == len,
                data@.len() == len,
                (height >= 2 && width > 0) ==> len >= n,
                2 <= height,
                y < height / 2,
                x <= width,
                forall|y2: int, x2: int, c2: int|
                    0 <= y2 < h && 0 <= x2 < w && 0 <= c2 < 4 ==> #[trigger] data@[pixel_index(
                        w,
                        y2,
                        x2,
                        c2,
                    )] == if min_int(y2, h - 1 - y2) < y || (min_int(y2, h - 1 - y2) == y && x2
                        < x) {
                        old(data)@[pixel_index(w, h - 1 - y2, x2, c2)]
                    } else {
                        old(data)@[pixel_index(w, y2, x2, c2)]
                    },
                forall|i: int| n <= i < len ==> #[trigger] data@[i] == old(data)@[i],
            decreases width - x,
        {
            proof {
                lemma_pixel_index_bounds(w, h, h - 1 - y, x as int, 3);
                lemma_pixel_index_bounds(w, h, y as int, x as int, 3);
            }
            let top = (y * width + x) * 4;
            let bottom = ((height - 1 - y) * width + x) * 4;
            let mut c: usize = 0;
            while c < 4
                invariant
                    w == width,
                    h == height,
                    n == rgba_len_spec(w, h),
                    len == old(data)@.len(),
                    data_len == len,
                    data@.len() == len,
                    len >= n,
                    2 <= height,
                    y < height / 2,
                    x < width,
                    top == pixel_index(w, y as int, x as int, 0),
                    bottom == pixel_index(w, h - 1 - y, x as int, 0),
                    c <= 4,
                    forall|y2: int, x2: int, c2: int|
                        0 <= y2 < h && 0 <= x2 < w && 0 <= c2 < 4 ==> #[trigger] data@[pixel_index(
                            w,
                            y2,
                            x2,
                            c2,
                        )] == if min_int(y2, h - 1 - y2) < y || (min_int(y2, h - 1 - y2) == y
                            && (x2 < x || (x2 == x && c2 < c))) {
                            old(data)@[pixel_index(w, h - 1 - y2, x2, c2)]
                        } else {
                            old(data)@[pixel_index(w, y2, x2, c2)]
                        },
                    forall|i: int| n <= i < len ==> #[trigger] data@[i] == old(data)@[i],
                decreases 4 - c,
            {
                let a = top + c;
                let b = bottom + c;
                proof {
                    lemma_pixel_index_bounds(w, h, y as int, x as int, c as int);
                    lemma_pixel_index_bounds(w, h, h - 1 - y, x as int, c as int);
                    assert(a == pixel_index(w, y as int, x as int, c as int));
                    assert(b == pixel_index(w, h - 1 - y, x as int, c as int));
                }
                let ghost before = data@;
                let t = data[a];
                let u = data[b];
                data[a] = u;
                data[b] = t;
                proof {
                    assert forall|y2: int, x2: int, c2: int|
                        0 <= y2 < h && 0 <= x2 < w && 0 <= c2 < 4 implies #[trigger] data@[pixel_index(
                            w,
                            y2,
                            x2,
                            c2,
                        )] == if min_int(y2, h - 1 - y2) < y || (min_int(y2, h - 1 - y2) == y
                            && (x2 < x || (x2 == x && c2 < c + 1))) {
                            old(data)@[pixel_index(w, h - 1 - y2, x2, c2)]
                        } else {
                            old(data)@[pixel_index(w, y2, x2, c2)]
                        } by {
                        let i = pixel_index(w, y2, x2, c2);
                        lemma_pixel_index_bounds(w, h, y2, x2, c2);
                        if i == a {
                            lemma_pixel_index_injective(w, y2, x2, c2, y as int, x as int, c as int);
                            assert(before[b as int] == old(data)@[b as int]);
                        } else if i == b {
                            lemma_pixel_index_injective(
                                w,
                                y2,
                                x2,
                                c2,
                                h - 1 - y,
                                x as int,
                                c as int,
                            );
                            assert(before[a as int] == old(data)@[a as int]);
                        } else {
                            assert(data@[i] == before[i]);
                            if x2 == x && c2 == c {
                                assert(y2 != y);
                                assert(y2 != h - 1 - y);
                            }
                        }
                    }
                    assert forall|i: int| n <= i < len implies #[trigger] data@[i] == old(
                        data,
                    )@[i] by {
                        assert(data@[i] == before[i]);
                    }
                }
                c = c + 1;
            }
            x = x + 1;
        }
        y = y + 1;
    }
    proof {
        let target = mirrored_vertically(old(data)@, w, h);
        assert forall|i: int| 0 <= i < len implies #[trigger] data@[i] == target[i] by {
            if i < n {
                lemma_index_recompose(w, h, i);
                let y2 = (i / 4) / w;
                let x2 = (i / 4) % w;
                let c2 = i % 4;
                if min_int(y2, h - 1 - y2) >= h / 2 {
                    assert(y2 == h - 1 - y2);
                }
                assert(data@[pixel_index(w, y2, x2, c2)] == old(data)@[pixel_index(
                    w,
                    h - 1 - y2,
                    x2,
                    c2,
                )]);
            }
        }
        assert(data@ =~= target);
    }
}


/// Mirroring left to right twice gives back the buffer one started with.
pub proof fn lemma_mirror_horizontal_involution(img: Seq<u8>, w: int, h: int)
    requires
        0 <= w,
        0 <= h,
        img.len() >= rgba_len_spec(w, h),
    ensures
        mirrored_horizontally(mirrored_horizontally(img, w, h), w, h) == img,
{
    let n = rgba_len_spec(w, h);
    let m = mirrored_horizontally(img, w, h);
    let mm = mirrored_horizontally(m, w, h);
    assert forall|i: int| 0 <= i < img.len() implies #[trigger] mm[i] == img[i] by {
        if i < n {
            lemma_index_recompose(w, h, i);
            let y = (i / 4) / w;
            let x = (i / 4) % w;
            let c = i % 4;
            let j = pixel_index(w, y, w - 1 - x, c);
            lemma_pixel_index_bounds(w, h, y, w - 1 - x, c);
            lemma_pixel_index_decompose(w, y, w - 1 - x, c);
            assert(m[j] == img[pixel_index(w, y, x, c)]);
        }
    }
    assert(mm =~= img);
}

/// Mirroring top to bottom twice gives back the buffer one started with.
pub proof fn lemma_mirror_vertical_involution(img: Seq<u8>, w: int, h: int)
    requires
        0 <= w,
        0 <= h,
        img.len() >= rgba_len_spec(w, h),
    ensures
        mirrored_vertically(mirrored_vertically(img, w, h), w, h) == img,
{
    let n = rgba_len_spec(w, h);
    let m = mirrored_vertically(img, w, h);
    let mm = mirrored_vertically(m, w, h);
    assert forall|i: int| 0 <= i < img.len() implies #[trigger] mm[i] == img[i] by {
        if i < n {
            lemma_index_recompose(w, h, i);
            let y = (i / 4) / w;
            let x = (i / 4) % w;
            let c = i % 4;
            let j = pixel_index(w, h - 1 - y, x, c);
            lemma_pixel_index_bounds(w, h, h - 1 - y, x, c);
            lemma_pixel_index_decompose(w, h - 1 - y, x, c);
            assert(m[j] == img[pixel_index(w, y, x, c)]);
        }
    }
    assert(mm =~= img);
}

/// Mirroring left to right and mirroring top to bottom give the same
/// buffer in either order (both turn the image half a turn).
pub proof fn lemma_mirrors_commute(img: Seq<u8>, w: int, h: int)
    requires
        0 <= w,
        0 <= h,
        img.len() >= rgba_len_spec(w, h),
    ensures
        mirrored_vertically(mirrored_horizontally(img, w, h), w, h) == mirrored_horizontally(
            mirrored_vertically(img, w, h),
            w,
            h,
        ),
        forall|y: int, x: int, c: int|
            0 <= y < h && 0 <= x < w && 0 <= c < 4 ==> #[trigger] mirrored_vertically(
                mirrored_horizontally(img, w, h),
                w,
                h,
            )[pixel_index(w, y, x, c)] == img[pixel_index(w, h - 1 - y, w - 1 - x, c)],
{
    let n = rgba_len_spec(w, h);
    let a = mirrored_vertically(mirrored_horizontally(img, w, h), w, h);
    let b = mirrored_horizontally(mirrored_vertically(img, w, h), w, h);
    assert forall|i: int| 0 <= i < n implies #[trigger] a[i] == img[pixel_index(
        w,
        h - 1 - (i / 4) / w,
        w - 1 - (i / 4) % w,
        i % 4,
    )] && b[i] == img[pixel_index(w, h - 1 - (i / 4) / w, w - 1 - (i / 4) % w, i % 4)] by {
        lemma_index_recompose(w, h, i);
        let y = (i / 4) / w;
        let x = (i / 4) % w;
        let c = i % 4;
        let ja = pixel_index(w, h - 1 - y, x, c);
        lemma_pixel_index_bounds(w, h, h - 1 - y, x, c);
        lemma_pixel_index_decompose(w, h - 1 - y, x, c);
        let jb = pixel_index(w, y, w - 1 - x, c);
        lemma_pixel_index_bounds(w, h, y, w - 1 - x, c);
        lemma_pixel_index_decompose(w, y, w - 1 - x, c);
    }
    assert(a =~= b);
    assert forall|y: int, x: int, c: int|
        0 <= y < h && 0 <= x < w && 0 <= c < 4 implies #[trigger] a[pixel_index(w, y, x, c)]
        == img[pixel_index(w, h - 1 - y, w - 1 - x, c)] by {
        lemma_pixel_index_bounds(w, h, y, x, c);
        lemma_pixel_index_decompose(w, y, x, c);
        let i = pixel_index(w, y, x, c);
        assert(a[i] == img[pixel_index(w, h - 1 - (i / 4) / w, w - 1 - (i / 4) % w, i % 4)]);
    }
}

} // verus!
