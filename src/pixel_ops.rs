use vstd::prelude::*;
use crate::frame::NormalizedFrame;

verus! {

/// The byte of pixel `(x, y)` in a row-major image of width `w`.
pub open spec fn pixel(s: Seq<u8>, w: int, x: int, y: int) -> u8 {
    s[y * w + x]
}

/// Some non-zero pixel lies within Chebyshev distance `r` of `(x, y)`,
/// inside the `w` by `h` image.
pub open spec fn near_changed(s: Seq<u8>, w: int, h: int, r: int, x: int, y: int) -> bool {
    exists|qx: int, qy: int|
        0 <= qx < w && 0 <= qy < h && x - r <= qx <= x + r && y - r <= qy <= y + r
            && #[trigger] pixel(s, w, qx, qy) != 0
}

/// Dilation of a mask by a square of radius `r`: a pixel takes `on` where a
/// non-zero pixel lies within the square around it, and 0 elsewhere. Pixels
/// outside the image never count.
pub open spec fn dilated_view(s: Seq<u8>, w: int, h: int, r: int, on: u8) -> Seq<u8> {
    Seq::new(
        (w * h) as nat,
        |i: int| if near_changed(s, w, h, r, i % w, i / w) { on } else { 0u8 },
    )
}

/// Pixel-wise absolute difference of two equally long images.
pub open spec fn diff_view(a: Seq<u8>, b: Seq<u8>) -> Seq<u8> {
    Seq::new(
        a.len(),
        |i: int| if a[i] >= b[i] { (a[i] - b[i]) as u8 } else { (b[i] - a[i]) as u8 },
    )
}

/// Binary threshold: a pixel above `cutoff` becomes `on`, any other 0.
pub open spec fn threshold_view(s: Seq<u8>, cutoff: u8, on: u8) -> Seq<u8> {
    Seq::new(s.len(), |i: int| if s[i] > cutoff { on } else { 0u8 })
}

/// The row-major index of a pixel inside the image is in range.
pub proof fn lemma_index_bounds(w: int, h: int, x: int, y: int)
    requires
        0 <= x < w,
        0 <= y < h,
    ensures
        0 <= y * w + x < w * h,
{
    assert(0 <= y * w + x < w * h) by (nonlinear_arith)
        requires
            0 <= x < w,
            0 <= y < h,
    ;
}

/// An index in range splits into the column `i % w` and the row `i / w`.
pub proof fn lemma_coords(w: int, h: int, i: int)
    requires
        0 <= i < w * h,
        w > 0,
    ensures
        0 <= i % w < w,
        0 <= i / w < h,
        (i / w) * w + i % w == i,
{
    assert(0 <= i / w < h) by (nonlinear_arith)
        requires
            0 <= i < w * h,
            w > 0,
    {
        vstd::arithmetic::div_mod::lemma_div_pos_is_pos(i, w);
        vstd::arithmetic::div_mod::lemma_div_is_ordered(i, w * h - 1, w);
        vstd::arithmetic::div_mod::lemma_div_multiples_vanish_fancy(h, w - 1, w);
    };
    vstd::arithmetic::div_mod::lemma_fundamental_div_mod(i, w);
    assert((i / w) * w == w * (i / w)) by (nonlinear_arith);
}

/// Pixel-wise absolute difference of two images of the same size.
pub fn abs_diff(a: &NormalizedFrame, b: &NormalizedFrame) -> (r: NormalizedFrame)
    requires
        a.wf(),
        b.wf(),
        a.width == b.width,
        a.height == b.height,
    ensures
        r.wf(),
        r.width == a.width,
        r.height == a.height,
        r.data@ == diff_view(a.data@, b.data@),
        forall|i: int|
            0 <= i < r.data@.len() ==> #[trigger] r.data@[i] as int == if a.data@[i] >= b.data@[i] {
                a.data@[i] - b.data@[i]
            } else {
                b.data@[i] - a.data@[i]
            },
{
    let n = a.data.len();
    let mut out: Vec<u8> = Vec::with_capacity(n);
    let mut i: usize = 0;
    while i < n
        invariant
            n == a.data@.len(),
            n == b.data@.len(),
            i <= n,
            out@.len() == i,
            forall|j: int|
                0 <= j < i ==> #[trigger] out@[j] as int == if a.data@[j] >= b.data@[j] {
                    a.data@[j] - b.data@[j]
                } else {
                    b.data@[j] - a.data@[j]
                },
        decreases n - i,
    {
        let p = a.data[i];
        let q = b.data[i];
        let d = if p >= q {
            p - q
        } else {
            q - p
        };
        out.push(d);
        i += 1;
    }
    assert(out@ =~= diff_view(a.data@, b.data@));
    NormalizedFrame { width: a.width, height: a.height, data: out }
}

/// Binary threshold: a pixel above `cutoff` becomes `on`, any other 0.
pub fn binarize(img: &NormalizedFrame, cutoff: u8, on: u8) -> (r: NormalizedFrame)
    requires
        img.wf(),
    ensures
        r.wf(),
        r.width == img.width,
        r.height == img.height,
        r.data@ == threshold_view(img.data@, cutoff, on),
        forall|i: int|
            0 <= i < r.data@.len() ==> #[trigger] r.data@[i] == if img.data@[i] > cutoff {
                on
            } else {
                0u8
            },
{
    let n = img.data.len();
    let mut out: Vec<u8> = Vec::with_capacity(n);
    let mut i: usize = 0;
    while i < n
        invariant
            n == img.data@.len(),
            i <= n,
            out@.len() == i,
            forall|j: int|
                0 <= j < i ==> #[trigger] out@[j] == if img.data@[j] > cutoff {
                    on
                } else {
                    0u8
                },
        decreases n - i,
    {
        let v = if img.data[i] > cutoff {
            on
        } else {
            0
        };
        out.push(v);
        i += 1;
    }
    assert(out@ =~= threshold_view(img.data@, cutoff, on));
    NormalizedFrame { width: img.width, height: img.height, data: out }
}

/// Whether a non-zero pixel lies within distance `r` of `(x, y)`.
fn window_has_change(img: &NormalizedFrame, r: usize, x: usize, y: usize) -> (b: bool)
    requires
        img.wf(),
        x < img.width,
        y < img.height,
    ensures
        b == near_changed(img.data@, img.width as int, img.height as int, r as int, x as int, y as int),
{
    let w = img.width;
    let h = img.height;
    let n = img.data.len();
    let x0 = if x >= r { x - r } else { 0 };
    let y0 = if y >= r { y - r } else { 0 };
    let x1 = if r < w - x { x + r + 1 } else { w };
    let y1 = if r < h - y { y + r + 1 } else { h };
    let mut qy = y0;
    while qy < y1
        invariant
            img.wf(),
            w == img.width,
            h == img.height,
            n == w * h,
            y0 <= qy <= y1 <= h,
            x0 <= x1 <= w,
            x0 == (if x >= r { x - r } else { 0 }),
            y0 == (if y >= r { y - r } else { 0 }),
            x1 == (if r < w - x { x + r + 1 } else { w as int }),
            y1 == (if r < h - y { y + r + 1 } else { h as int }),
            forall|px: int, py: int|
                x0 <= px < x1 && y0 <= py < qy ==> #[trigger] pixel(img.data@, w as int, px, py) == 0,
        decreases y1 - qy,
    {
        let mut qx = x0;
        while qx < x1
            invariant
                img.wf(),
                w == img.width,
                h == img.height,
                n == w * h,
                y0 <= qy < y1 <= h,
                x0 <= qx <= x1 <= w,
                x0 == (if x >= r { x - r } else { 0 }),
                y0 == (if y >= r { y - r } else { 0 }),
                x1 == (if r < w - x { x + r + 1 } else { w as int }),
                y1 == (if r < h - y { y + r + 1 } else { h as int }),
                forall|px: int, py: int|
                    x0 <= px < x1 && y0 <= py < qy ==> #[trigger] pixel(img.data@, w as int, px, py) == 0,
                forall|px: int| x0 <= px < qx ==> #[trigger] pixel(img.data@, w as int, px, qy as int) == 0,
            decreases x1 - qx,
        {
            proof {
                lemma_index_bounds(w as int, h as int, qx as int, qy as int);
            }
            if img.data[qy * w + qx] != 0 {
                assert(pixel(img.data@, w as int, qx as int, qy as int) != 0);
                return true;
            }
            qx += 1;
        }
        qy += 1;
    }
    proof {
        if near_changed(img.data@, w as int, h as int, r as int, x as int, y as int) {
            let (qx, qy) = choose|qx: int, qy: int|
                0 <= qx < w && 0 <= qy < h && x - r <= qx <= x + r && y - r <= qy <= y + r
                    && #[trigger] pixel(img.data@, w as int, qx, qy) != 0;
            assert(pixel(img.data@, w as int, qx, qy) == 0);
        }
    }
    false
}

/// Dilation of a mask by a square of radius `r` (a `(2r+1)` by `(2r+1)`
/// structuring element); pixels outside the image do not contribute.
pub fn dilate(img: &NormalizedFrame, r: usize, on: u8) -> (out: NormalizedFrame)
    requires
        img.wf(),
    ensures
        out.wf(),
        out.width == img.width,
        out.height == img.height,
        out.data@ == dilated_view(img.data@, img.width as int, img.height as int, r as int, on),
{
    let w = img.width;
    let h = img.height;
    let n = img.data.len();
    let mut out: Vec<u8> = Vec::with_capacity(n);
    let mut i: usize = 0;
    while i < n
        invariant
            img.wf(),
            w == img.width,
            h == img.height,
            n == w * h,
            i <= n,
            out@.len() == i,
            forall|j: int|
                0 <= j < i ==> #[trigger] out@[j] == dilated_view(img.data@, w as int, h as int, r as int, on)[j],
        decreases n - i,
    {
        proof {
            lemma_coords(w as int, h as int, i as int);
        }
        let x = i % w;
        let y = i / w;
        let v = if window_has_change(img, r, x, y) {
            on
        } else {
            0
        };
        out.push(v);
        i += 1;
    }
    let res = NormalizedFrame { width: w, height: h, data: out };
    assert(res.data@ =~= dilated_view(img.data@, w as int, h as int, r as int, on));
    res
}

} // verus!
