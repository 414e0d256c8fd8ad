use vstd::prelude::*;
use crate::frame::{Frame, MotionError, NormalizedFrame};
use crate::pixel_ops::{lemma_coords, lemma_index_bounds, pixel};

verus! {

/// Luminance of a blue, green, red pixel, with the integer weights
/// 1868, 9617 and 4899 over 2^14 (0.114, 0.587 and 0.299), rounded.
pub open spec fn gray_of(b: u8, g: u8, r: u8) -> u8 {
    ((b * 1868 + g * 9617 + r * 4899 + 8192) / 16384) as u8
}

/// The single-channel luminance image of a three-channel buffer.
pub open spec fn gray_view(d: Seq<u8>, n: int) -> Seq<u8> {
    Seq::new(n as nat, |i: int| gray_of(d[3 * i], d[3 * i + 1], d[3 * i + 2]))
}

/// Sum of the first `m` weights of kernel `k`.
pub open spec fn weight_sum(k: Seq<u32>, m: int) -> int
    decreases m,
{
    if m <= 0 {
        0
    } else {
        weight_sum(k, m - 1) + k[m - 1]
    }
}

/// A kernel that smoothing accepts: odd length, weights summing to a
/// positive total of at most 2^32.
pub open spec fn kernel_ok(k: Seq<u32>) -> bool {
    k.len() % 2 == 1 && 0 < weight_sum(k, k.len() as int) <= 0x1_0000_0000
}

/// Coordinate `v` moved into `0..n` by mirroring the axis at its ends
/// without repeating the edge pixel (`cb|abcd|cb`); an axis of one pixel
/// maps everything to 0.
pub open spec fn reflect(v: int, n: int) -> int {
    if n <= 1 {
        0
    } else {
        let p = 2 * n - 2;
        let m = v % p;
        if m < n {
            m
        } else {
            p - m
        }
    }
}

/// Weighted sum of the first `m` taps of kernel `k` centred on `(x, y)`,
/// along a row when `horizontal`, else along a column.
pub open spec fn tap_sum(
    s: Seq<u8>,
    w: int,
    h: int,
    k: Seq<u32>,
    x: int,
    y: int,
    m: int,
    horizontal: bool,
) -> int
    decreases m,
{
    if m <= 0 {
        0
    } else {
        let off = m - 1 - (k.len() - 1) / 2;
        let v = if horizontal {
            pixel(s, w, reflect(x + off, w), y)
        } else {
            pixel(s, w, x, reflect(y + off, h))
        };
        tap_sum(s, w, h, k, x, y, m - 1, horizontal) + k[m - 1] * v
    }
}

/// One smoothing pass: each pixel becomes the weighted mean of its
/// neighbours along a row (or a column), rounded to the nearest integer.
pub open spec fn smoothed_view(s: Seq<u8>, w: int, h: int, k: Seq<u32>, horizontal: bool) -> Seq<
    u8,
> {
    let total = weight_sum(k, k.len() as int);
    Seq::new(
        (w * h) as nat,
        |i: int|
            ((tap_sum(s, w, h, k, i % w, i / w, k.len() as int, horizontal) + total / 2) / total) as u8,
    )
}

/// The 21-tap Gaussian kernel (standard deviation 3.5) in integer weights
/// summing to 4096.
pub open spec fn gaussian_weights() -> Seq<u32> {
    seq![8, 17, 34, 63, 108, 169, 244, 324, 398, 449, 468, 449, 398, 324, 244, 169, 108, 63, 34, 17, 8]
}

/// What normalization makes of a well-formed raw frame.
pub open spec fn normalized_view(raw: &Frame) -> Seq<u8> {
    smoothed_frame_view(raw, gaussian_weights())
}

/// The luminance of a raw frame smoothed with kernel `k` along rows, then
/// along columns.
pub open spec fn smoothed_frame_view(raw: &Frame, k: Seq<u32>) -> Seq<u8> {
    let w = raw.width as int;
    let h = raw.height as int;
    smoothed_view(smoothed_view(gray_view(raw.data@, w * h), w, h, k, true), w, h, k, false)
}

proof fn lemma_weight_sum_mono(k: Seq<u32>, a: int, b: int)
    requires
        0 <= a <= b <= k.len(),
    ensures
        weight_sum(k, a) <= weight_sum(k, b),
    decreases b - a,
{
    if a < b {
        lemma_weight_sum_mono(k, a, b - 1);
    }
}

proof fn lemma_tap_sum_bound(
    s: Seq<u8>,
    w: int,
    h: int,
    k: Seq<u32>,
    x: int,
    y: int,
    m: int,
    horizontal: bool,
)
    requires
        0 <= m <= k.len(),
    ensures
        0 <= tap_sum(s, w, h, k, x, y, m, horizontal) <= 255 * weight_sum(k, m),
    decreases m,
{
    if m > 0 {
        lemma_tap_sum_bound(s, w, h, k, x, y, m - 1, horizontal);
        let off = m - 1 - (k.len() - 1) / 2;
        let v = if horizontal {
            pixel(s, w, reflect(x + off, w), y)
        } else {
            pixel(s, w, x, reflect(y + off, h))
        };
        let c = k[m - 1] as int;
        assert(0 <= c * v <= c * 255) by (nonlinear_arith)
            requires
                0 <= c,
                0 <= v <= 255,
        ;
    }
}

/// The 21-tap Gaussian kernel used by `normalize`.
pub fn gaussian_kernel() -> (k: Vec<u32>)
    ensures
        k@ == gaussian_weights(),
        kernel_ok(k@),
{
    let k: Vec<u32> = vec![8, 17, 34, 63, 108, 169, 244, 324, 398, 449, 468, 449, 398, 324, 244, 169, 108, 63, 34, 17, 8];
    proof {
        assert(k@ =~= gaussian_weights());
        reveal_with_fuel(weight_sum, 22);
        assert(weight_sum(k@, 21) == 4096);
    }
    k
}

/// Converts a blue, green, red frame to its luminance image.
pub fn to_gray(raw: &Frame) -> (r: NormalizedFrame)
    requires
        raw.wf(),
    ensures
        r.wf(),
        r.width == raw.width,
        r.height == raw.height,
        r.data@ == gray_view(raw.data@, raw.width * raw.height),
{
    let len = raw.data.len();
    let n = len / 3;
    assert(n * 3 == raw.data@.len());
    let mut out: Vec<u8> = Vec::with_capacity(n);
    let mut i: usize = 0;
    while i < n
        invariant
            raw.wf(),
            n == raw.width * raw.height,
            raw.data@.len() == n * 3,
            len == raw.data@.len(),
            i <= n,
            out@.len() == i,
            forall|j: int|
                0 <= j < i ==> #[trigger] out@[j] == gray_of(
                    raw.data@[3 * j],
                    raw.data@[3 * j + 1],
                    raw.data@[3 * j + 2],
                ),
        decreases n - i,
    {
        let b = raw.data[3 * i] as u32;
        let g = raw.data[3 * i + 1] as u32;
        let r = raw.data[3 * i + 2] as u32;
        let y = (b * 1868 + g * 9617 + r * 4899 + 8192) / 16384;
        out.push(y as u8);
        i += 1;
    }
    assert(out@ =~= gray_view(raw.data@, raw.width * raw.height));
    NormalizedFrame { width: raw.width, height: raw.height, data: out }
}

/// The position `m - half` steps from `v` along an axis of length `n`,
/// mirrored at the ends.
fn shift_reflected(v: usize, n: usize, m: usize, half: usize) -> (r: usize)
    requires
        v < n,
    ensures
        r == reflect(v + m - half, n as int),
        r < n,
{
    if n == 1 {
        return 0;
    }
    let p: u128 = 2 * (n as u128) - 2;
    let q: u128 = (half as u128) % p;
    let t: u128 = ((v as u128) + (m as u128) + p - q) % p;
    proof {
        let pi = p as int;
        let b = v + m - half;
        vstd::arithmetic::div_mod::lemma_fundamental_div_mod(half as int, pi);
        vstd::arithmetic::div_mod::lemma_mod_multiples_vanish(half as int / pi + 1, b, pi);
        assert(pi * (half as int / pi + 1) + b == v + m + pi - q) by (nonlinear_arith)
            requires
                half == pi * (half as int / pi) + q,
                b == v + m - half,
        ;
    }
    let r = if t < n as u128 {
        t
    } else {
        p - t
    };
    r as usize
}

/// Whether smoothing accepts kernel `k`.
pub fn is_usable_kernel(k: &Vec<u32>) -> (r: bool)
    ensures
        r == kernel_ok(k@),
{
    match kernel_total(k) {
        Some(t) => t > 0 && k.len() % 2 == 1,
        None => false,
    }
}

/// Sums the weights of a kernel, failing when the total exceeds 2^32.
fn kernel_total(k: &Vec<u32>) -> (r: Option<u64>)
    ensures
        r is Some <==> weight_sum(k@, k@.len() as int) <= 0x1_0000_0000,
        r is Some ==> r->Some_0 == weight_sum(k@, k@.len() as int),
{
    let mut acc: u64 = 0;
    let mut m: usize = 0;
    while m < k.len()
        invariant
            m <= k@.len(),
            acc == weight_sum(k@, m as int),
            acc <= 0x1_0000_0000,
        decreases k@.len() - m,
    {
        acc = acc + k[m] as u64;
        if acc > 0x1_0000_0000 {
            proof {
                lemma_weight_sum_mono(k@, m as int + 1, k@.len() as int);
            }
            return None;
        }
        m += 1;
    }
    Some(acc)
}

/// One smoothing pass along rows (`horizontal`) or columns.
fn smooth(img: &NormalizedFrame, k: &Vec<u32>, horizontal: bool) -> (r: Result<NormalizedFrame, MotionError>)
    requires
        img.wf(),
    ensures
        r is Ok <==> kernel_ok(k@),
        r is Err ==> r->Err_0 == MotionError::ProcessingError,
        r is Ok ==> r->Ok_0.wf() && r->Ok_0.width == img.width && r->Ok_0.height == img.height
            && r->Ok_0.data@ == smoothed_view(img.data@, img.width as int, img.height as int, k@, horizontal),
{
    let total = match kernel_total(k) {
        Some(t) => t,
        None => return Err(MotionError::ProcessingError),
    };
    if total == 0 || k.len() % 2 == 0 {
        return Err(MotionError::ProcessingError);
    }
    let w = img.width;
    let h = img.height;
    let n = img.data.len();
    let half = (k.len() - 1) / 2;
    let mut out: Vec<u8> = Vec::with_capacity(n);
    let mut i: usize = 0;
    while i < n
        invariant
            img.wf(),
            kernel_ok(k@),
            total == weight_sum(k@, k@.len() as int),
            half == (k@.len() - 1) / 2,
            w == img.width,
            h == img.height,
            n == w * h,
            i <= n,
            out@.len() == i,
            forall|j: int|
                0 <= j < i ==> #[trigger] out@[j] == smoothed_view(img.data@, w as int, h as int, k@, horizontal)[j],
        decreases n - i,
    {
        proof {
            assert(w > 0) by (nonlinear_arith)
                requires
                    i < w * h,
                    0 <= h,
            ;
            lemma_coords(w as int, h as int, i as int);
        }
        let x = i % w;
        let y = i / w;
        let mut acc: u64 = 0;
        let mut m: usize = 0;
        while m < k.len()
            invariant
                img.wf(),
                w == img.width,
                h == img.height,
                n == w * h,
                x < w,
                y < h,
                half == (k@.len() - 1) / 2,
                kernel_ok(k@),
                m <= k@.len(),
                acc == tap_sum(img.data@, w as int, h as int, k@, x as int, y as int, m as int, horizontal),
            decreases k@.len() - m,
        {
            proof {
                lemma_tap_sum_bound(img.data@, w as int, h as int, k@, x as int, y as int, m as int + 1, horizontal);
                lemma_weight_sum_mono(k@, m as int + 1, k@.len() as int);
            }
            let (px, py) = if horizontal {
                (shift_reflected(x, w, m, half), y)
            } else {
                (x, shift_reflected(y, h, m, half))
            };
            proof {
                lemma_index_bounds(w as int, h as int, px as int, py as int);
            }
            acc = acc + k[m] as u64 * img.data[py * w + px] as u64;
            m += 1;
        }
        proof {
            lemma_tap_sum_bound(img.data@, w as int, h as int, k@, x as int, y as int, k@.len() as int, horizontal);
        }
        let v = (acc + total / 2) / total;
        proof {
            let (a, t) = (acc as int, total as int);
            assert((a + t / 2) / t <= 255) by (nonlinear_arith)
                requires
                    0 <= a <= 255 * t,
                    t > 0,
            {
                vstd::arithmetic::div_mod::lemma_div_is_ordered(a + t / 2, 256 * t - 1, t);
                vstd::arithmetic::div_mod::lemma_fundamental_div_mod_converse(256 * t - 1, t, 255, t - 1);
            }
        }
        out.push(v as u8);
        i += 1;
    }
    assert(out@ =~= smoothed_view(img.data@, w as int, h as int, k@, horizontal));
    Ok(NormalizedFrame { width: w, height: h, data: out })
}

/// Smooths each row with kernel `k`; fails with `ProcessingError` when the
/// kernel is not acceptable.
pub fn blur_rows(img: &NormalizedFrame, k: &Vec<u32>) -> (r: Result<NormalizedFrame, MotionError>)
    requires
        img.wf(),
    ensures
        r is Ok <==> kernel_ok(k@),
        r is Err ==> r->Err_0 == MotionError::ProcessingError,
        r is Ok ==> r->Ok_0.wf() && r->Ok_0.width == img.width && r->Ok_0.height == img.height
            && r->Ok_0.data@ == smoothed_view(img.data@, img.width as int, img.height as int, k@, true),
{
    smooth(img, k, true)
}

/// Smooths each column with kernel `k`; fails with `ProcessingError` when
/// the kernel is not acceptable.
pub fn blur_cols(img: &NormalizedFrame, k: &Vec<u32>) -> (r: Result<NormalizedFrame, MotionError>)
    requires
        img.wf(),
    ensures
        r is Ok <==> kernel_ok(k@),
        r is Err ==> r->Err_0 == MotionError::ProcessingError,
        r is Ok ==> r->Ok_0.wf() && r->Ok_0.width == img.width && r->Ok_0.height == img.height
            && r->Ok_0.data@ == smoothed_view(img.data@, img.width as int, img.height as int, k@, false),
{
    smooth(img, k, false)
}

/// Reduces a raw frame to its smoothed luminance image: luminance, then the
/// 21-tap Gaussian kernel along rows and then along columns. A frame with
/// a zero dimension fails with `InvalidFrame`.
pub fn normalize(raw: &Frame) -> (r: Result<NormalizedFrame, MotionError>)
    requires
        raw.wf(),
    ensures
        raw.width == 0 || raw.height == 0 <==> r == Err::<NormalizedFrame, MotionError>(MotionError::InvalidFrame),
        raw.width > 0 && raw.height > 0 ==> r is Ok,
        r is Ok ==> r->Ok_0.wf() && r->Ok_0.width == raw.width && r->Ok_0.height == raw.height
            && r->Ok_0.data@ == normalized_view(raw),
{
    let k = gaussian_kernel();
    normalize_with_kernel(raw, &k)
}

/// Reduces a raw frame to its luminance smoothed with the integer kernel
/// `k` (its length is the blur size) along rows and then along columns. A
/// frame with a zero dimension fails with `InvalidFrame`, and otherwise an
/// unusable kernel with `ProcessingError`.
pub fn normalize_with_kernel(raw: &Frame, k: &Vec<u32>) -> (r: Result<NormalizedFrame, MotionError>)
    requires
        raw.wf(),
    ensures
        raw.width == 0 || raw.height == 0 <==> r == Err::<NormalizedFrame, MotionError>(MotionError::InvalidFrame),
        raw.width > 0 && raw.height > 0 ==> (r is Ok <==> kernel_ok(k@)),
        r is Err && r->Err_0 != MotionError::InvalidFrame ==> r->Err_0 == MotionError::ProcessingError,
        r is Ok ==> r->Ok_0.wf() && r->Ok_0.width == raw.width && r->Ok_0.height == raw.height
            && r->Ok_0.data@ == smoothed_frame_view(raw, k@),
{
    if raw.width == 0 || raw.height == 0 {
        return Err(MotionError::InvalidFrame);
    }
    let gray = to_gray(raw);
    let rows = blur_rows(&gray, k)?;
    blur_cols(&rows, k)
}

/// Normalization is a function of the frame alone: equal frames give equal
/// images.
pub proof fn lemma_normalize_deterministic(a: &Frame, b: &Frame)
    requires
        a.width == b.width,
        a.height == b.height,
        a.data@ == b.data@,
    ensures
        normalized_view(a) == normalized_view(b),
{
}

} // verus!
