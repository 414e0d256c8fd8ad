use vstd::prelude::*;
use crate::frame::{BoundingBox, NormalizedFrame};
use crate::pixel_ops::{lemma_coords, lemma_index_bounds, pixel};

verus! {

/// A connected set of mask pixels with its bounding box and its area in
/// pixels (for a region seen from outside, its holes included).
#[derive(Clone, Copy, Debug, PartialEq, Eq, Structural)]
pub struct Region {
    pub bbox: BoundingBox,
    pub area: usize,
    /// How many of its pixels lie on its outline: at the image's edge or
    /// beside an unchanged pixel outside it (filled in by `extract_regions`).
    pub rim: usize,
}

/// Pixel `(x, y)` lies inside box `b`.
pub open spec fn in_box(b: BoundingBox, x: int, y: int) -> bool {
    b.x <= x < b.x + b.width && b.y <= y < b.y + b.height
}

/// Box `b` is non-empty and lies inside a `w` by `h` image.
pub open spec fn box_within(b: BoundingBox, w: int, h: int) -> bool {
    b.width >= 1 && b.height >= 1 && b.x + b.width <= w && b.y + b.height <= h
}

/// Box `b` holds at least one non-zero pixel of `s`.
pub open spec fn box_has_change(s: Seq<u8>, w: int, b: BoundingBox) -> bool {
    exists|x: int, y: int| in_box(b, x, y) && #[trigger] pixel(s, w, x, y) != 0
}

/// Pixel `(x, y)` lies in the `w` by `h` image.
pub open spec fn in_image(w: int, h: int, x: int, y: int) -> bool {
    0 <= x < w && 0 <= y < h
}

/// Pixels `(x, y)` and `(u, v)` touch (or coincide): at a side only when
/// `four`, at a side or a corner otherwise.
pub open spec fn touching(four: bool, x: int, y: int, u: int, v: int) -> bool {
    x - 1 <= u <= x + 1 && y - 1 <= v <= y + 1 && (!four || x == u || y == v)
}

/// The label of pixel `(x, y)` in a row-major labelling of width `w`.
pub open spec fn label_at(s: Seq<usize>, w: int, x: int, y: int) -> usize {
    s[y * w + x]
}

/// How many entries of `s` equal `c`.
pub open spec fn count_eq(s: Seq<usize>, c: usize) -> nat
    decreases s.len(),
{
    if s.len() == 0 {
        0
    } else {
        count_eq(s.drop_last(), c) + if s.last() == c {
            1nat
        } else {
            0nat
        }
    }
}

/// Touching non-zero pixels carry the same label wherever one of them is
/// labelled.
pub open spec fn labels_closed(mask: Seq<u8>, labels: Seq<usize>, w: int, h: int, four: bool) -> bool {
    forall|x: int, y: int, u: int, v: int|
        in_image(w, h, x, y) && in_image(w, h, u, v) && touching(four, x, y, u, v) && pixel(mask, w, u, v)
            != 0 && #[trigger] label_at(labels, w, x, y) != 0 ==> #[trigger] label_at(labels, w, u, v)
            == label_at(labels, w, x, y)
}

/// `path` is a walk over non-zero pixels of `mask`, each step to a
/// touching pixel.
pub open spec fn chain(mask: Seq<u8>, w: int, h: int, four: bool, path: Seq<(int, int)>) -> bool {
    &&& path.len() >= 1
    &&& forall|i: int|
        0 <= i < path.len() ==> in_image(w, h, (#[trigger] path[i]).0, path[i].1) && pixel(
            mask,
            w,
            path[i].0,
            path[i].1,
        ) != 0
    &&& forall|i: int|
        0 <= i < path.len() - 1 ==> touching(four, 
            (#[trigger] path[i]).0,
            path[i].1,
            path[i + 1].0,
            path[i + 1].1,
        )
}

/// A walk over non-zero pixels leads from `a` to `b`.
pub open spec fn joined(mask: Seq<u8>, w: int, h: int, four: bool, a: (int, int), b: (int, int)) -> bool {
    exists|path: Seq<(int, int)>| #[trigger] chain(mask, w, h, four, path) && path[0] == a && path.last() == b
}

/// Every pixel labelled `k + 1` can be reached from one of them.
pub open spec fn region_connected(mask: Seq<u8>, w: int, h: int, four: bool, labels: Seq<usize>, k: int) -> bool {
    exists|a: (int, int)|
        in_image(w, h, a.0, a.1) && label_at(labels, w, a.0, a.1) == k + 1 && forall|x: int, y: int|
            in_image(w, h, x, y) && #[trigger] label_at(labels, w, x, y) == k + 1 ==> joined(
                mask,
                w,
                h, four,
                a,
                (x, y),
            )
}

/// Pixels labelled `c` lie on each of the four edges of box `b`, so no
/// smaller box holds them all.
pub open spec fn box_tight(labels: Seq<usize>, w: int, h: int, b: BoundingBox, c: usize) -> bool {
    exists|l: (int, int), r: (int, int), t: (int, int), d: (int, int)|
        in_image(w, h, l.0, l.1) && in_image(w, h, r.0, r.1) && in_image(w, h, t.0, t.1) && in_image(
            w,
            h,
            d.0,
            d.1,
        ) && label_at(labels, w, l.0, l.1) == c && label_at(labels, w, r.0, r.1) == c && label_at(
            labels,
            w,
            t.0,
            t.1,
        ) == c && label_at(labels, w, d.0, d.1) == c && l.0 == b.x && r.0 == b.x + b.width - 1 && t.1
            == b.y && d.1 == b.y + b.height - 1
}

/// `labels` numbers the regions of `mask` from 1, with 0 for unchanged
/// pixels, and `rs[k]` describes the region labelled `k + 1`: its area is the
/// number of its pixels, and its box is the smallest that holds them all.
/// Touching changed pixels
/// share a label, and the pixels of one label are connected, so each label
/// marks exactly one region.
pub open spec fn labelling(mask: Seq<u8>, w: int, h: int, four: bool, labels: Seq<usize>, rs: Seq<Region>) -> bool {
    &&& labels.len() == w * h
    &&& labels_closed(mask, labels, w, h, four)
    &&& forall|x: int, y: int|
        in_image(w, h, x, y) ==> (#[trigger] label_at(labels, w, x, y) == 0 <==> pixel(mask, w, x, y)
            == 0)
    &&& forall|x: int, y: int|
        in_image(w, h, x, y) && #[trigger] label_at(labels, w, x, y) != 0 ==> label_at(labels, w, x, y)
            <= rs.len() && in_box(rs[label_at(labels, w, x, y) - 1].bbox, x, y)
    &&& forall|k: int|
        0 <= k < rs.len() ==> box_within((#[trigger] rs[k]).bbox, w, h) && rs[k].area >= 1
            && rs[k].area == count_eq(labels, (k + 1) as usize)
    &&& forall|k: int| 0 <= k < rs.len() ==> #[trigger] region_connected(mask, w, h, four, labels, k)
    &&& forall|k: int| 0 <= k < rs.len() ==> box_tight(labels, w, h, (#[trigger] rs[k]).bbox, (k + 1) as usize)
}

proof fn lemma_count_update(s: Seq<usize>, i: int, v: usize, c: usize)
    requires
        0 <= i < s.len(),
    ensures
        count_eq(s.update(i, v), c) + (if s[i] == c { 1int } else { 0 }) == count_eq(s, c) + (if v
            == c { 1int } else { 0 }),
    decreases s.len(),
{
    if i == s.len() - 1 {
        assert(s.update(i, v).drop_last() =~= s.drop_last());
    } else {
        lemma_count_update(s.drop_last(), i, v, c);
        assert(s.update(i, v).drop_last() =~= s.drop_last().update(i, v));
    }
}

proof fn lemma_count_bound(s: Seq<usize>, c: usize)
    ensures
        count_eq(s, c) <= s.len(),
    decreases s.len(),
{
    if s.len() > 0 {
        lemma_count_bound(s.drop_last(), c);
    }
}

proof fn lemma_index_coords(w: int, x: int, y: int)
    requires
        0 <= x < w,
        0 <= y,
    ensures
        (y * w + x) / w == y,
        (y * w + x) % w == x,
{
    vstd::arithmetic::div_mod::lemma_fundamental_div_mod_converse(y * w + x, w, y, x);
}

proof fn lemma_no_label(s: Seq<usize>, c: usize)
    requires
        count_eq(s, c) == 0,
    ensures
        forall|i: int| 0 <= i < s.len() ==> #[trigger] s[i] != c,
    decreases s.len(),
{
    if s.len() > 0 {
        lemma_no_label(s.drop_last(), c);
        assert forall|i: int| 0 <= i < s.len() implies #[trigger] s[i] != c by {
            if i < s.len() - 1 {
                assert(s[i] == s.drop_last()[i]);
            }
        }
    }
}

/// Writing the label of one pixel leaves every other pixel's label.
proof fn lemma_label_update(s: Seq<usize>, w: int, h: int, a: int, b: int, c: usize)
    requires
        s.len() == w * h,
        in_image(w, h, a, b),
    ensures
        forall|x: int, y: int|
            in_image(w, h, x, y) ==> #[trigger] label_at(s.update(b * w + a, c), w, x, y) == if x == a
                && y == b {
                c
            } else {
                label_at(s, w, x, y)
            },
{
    assert forall|x: int, y: int| in_image(w, h, x, y) implies #[trigger] label_at(
        s.update(b * w + a, c),
        w,
        x,
        y,
    ) == if x == a && y == b {
        c
    } else {
        label_at(s, w, x, y)
    } by {
        lemma_index_bounds(w, h, x, y);
        lemma_index_bounds(w, h, a, b);
        lemma_index_coords(w, x, y);
        lemma_index_coords(w, a, b);
        if y * w + x == b * w + a {
            assert(x == a && y == b);
        }
    }
}

/// Labels with `lab` the region of non-zero pixels that holds `seed` and
/// returns its bounding box and area.
fn grow_region(mask: &NormalizedFrame, labels: &mut Vec<usize>, seed: usize, lab: usize, four: bool) -> (r: Region)
    requires
        mask.wf(),
        mask.width > 0,
        old(labels)@.len() == mask.data@.len(),
        seed < mask.data@.len(),
        mask.data@[seed as int] != 0,
        old(labels)@[seed as int] == 0,
        lab >= 1,
        count_eq(old(labels)@, lab) == 0,
        labels_closed(mask.data@, old(labels)@, mask.width as int, mask.height as int, four),
        forall|x: int, y: int|
            in_image(mask.width as int, mask.height as int, x, y) && #[trigger] label_at(
                old(labels)@,
                mask.width as int,
                x,
                y,
            ) != 0 ==> pixel(mask.data@, mask.width as int, x, y) != 0,
    ensures
        ({
            let w = mask.width as int;
            let h = mask.height as int;
            &&& final(labels)@.len() == old(labels)@.len()
            &&& labels_closed(mask.data@, final(labels)@, w, h, four)
            &&& forall|x: int, y: int|
                in_image(w, h, x, y) ==> #[trigger] label_at(final(labels)@, w, x, y) == if label_at(
                    old(labels)@,
                    w,
                    x,
                    y,
                ) != 0 {
                    label_at(old(labels)@, w, x, y)
                } else if label_at(final(labels)@, w, x, y) == lab {
                    lab
                } else {
                    0
                }
            &&& forall|x: int, y: int|
                in_image(w, h, x, y) && #[trigger] label_at(final(labels)@, w, x, y) == lab
                    ==> pixel(mask.data@, w, x, y) != 0 && in_box(r.bbox, x, y)
            &&& final(labels)@[seed as int] == lab
            &&& box_tight(final(labels)@, w, h, r.bbox, lab)
            &&& forall|x: int, y: int|
                in_image(w, h, x, y) && #[trigger] label_at(final(labels)@, w, x, y) == lab
                    ==> joined(mask.data@, w, h, four, (seed as int % w, seed as int / w), (x, y))
            &&& forall|c: usize| c != lab ==> #[trigger] count_eq(final(labels)@, c) <= count_eq(old(labels)@, c)
            &&& forall|c: usize| c != lab && c != 0 ==> #[trigger] count_eq(final(labels)@, c) == count_eq(old(labels)@, c)
            &&& r.area == count_eq(final(labels)@, lab)
            &&& box_within(r.bbox, w, h)
            &&& r.area >= 1
        }),
{
    let w = mask.width;
    let h = mask.height;
    let n = mask.data.len();
    let ghost start = labels@;
    proof {
        lemma_coords(w as int, h as int, seed as int);
        lemma_count_update(labels@, seed as int, lab, lab);
        assert forall|c: usize| c != lab && c != 0 implies #[trigger] count_eq(labels@.update(seed as int, lab), c)
            == count_eq(labels@, c) by {
            lemma_count_update(labels@, seed as int, lab, c);
        }
        assert forall|c: usize| c != lab implies #[trigger] count_eq(labels@.update(seed as int, lab), c)
            <= count_eq(labels@, c) by {
            lemma_count_update(labels@, seed as int, lab, c);
        }
        lemma_label_update(labels@, w as int, h as int, (seed % w) as int, (seed / w) as int, lab);
    }
    labels.set(seed, lab);
    let sx = seed % w;
    let sy = seed / w;
    let mut min_x = sx;
    let mut max_x = sx;
    let mut min_y = sy;
    let mut max_y = sy;
    let mut area: usize = 1;
    let mut stack: Vec<usize> = Vec::new();
    stack.push(seed);
    let ghost mut done: Set<(int, int)> = Set::empty();
    let ghost mut wl: (int, int) = (sx as int, sy as int);
    let ghost mut wr: (int, int) = (sx as int, sy as int);
    let ghost mut wt: (int, int) = (sx as int, sy as int);
    let ghost mut wd: (int, int) = (sx as int, sy as int);
    proof {
        lemma_count_bound(labels@, 0);
        lemma_count_bound(labels@, lab);
        assert(label_at(labels@, w as int, sx as int, sy as int) == lab);
        assert(stack@[0] == seed);
        lemma_no_label(start, lab);
        assert forall|x: int, y: int| in_image(w as int, h as int, x, y) implies #[trigger] label_at(
            start,
            w as int,
            x,
            y,
        ) != lab by {
            lemma_index_bounds(w as int, h as int, x, y);
        }
        assert forall|x: int, y: int|
            in_image(w as int, h as int, x, y) && #[trigger] label_at(labels@, w as int, x, y) == lab
                implies x == sx && y == sy by {
            assert(label_at(start, w as int, x, y) != lab);
        }
        assert(seed == sy * w + sx);
        let one = seq![(sx as int, sy as int)];
        assert(chain(mask.data@, w as int, h as int, four, one));
        assert(joined(mask.data@, w as int, h as int, four, (sx as int, sy as int), (sx as int, sy as int)));
    }
    while stack.len() > 0
        invariant
            mask.wf(),
            w == mask.width,
            h == mask.height,
            n == mask.data@.len(),
            n == w * h,
            w > 0,
            lab >= 1,
            labels@.len() == n,
            start.len() == n,
            seed < n,
            labels@[seed as int] == lab,
            min_x <= max_x < w,
            min_y <= max_y < h,
            area >= 1,
            area == count_eq(labels@, lab),
            count_eq(labels@, lab) <= n,
            forall|c: usize| c != lab && c != 0 ==> #[trigger] count_eq(labels@, c) == count_eq(start, c),
            forall|c: usize| c != lab ==> #[trigger] count_eq(labels@, c) <= count_eq(start, c),
            forall|k: int| 0 <= k < stack@.len() ==> #[trigger] stack@[k] < n,
            forall|k: int|
                0 <= k < stack@.len() ==> label_at(
                    labels@,
                    w as int,
                    (#[trigger] stack@[k]) as int % w as int,
                    stack@[k] as int / w as int,
                ) == lab,
            labels_closed(mask.data@, start, w as int, h as int, four),
            in_image(w as int, h as int, wl.0, wl.1) && label_at(labels@, w as int, wl.0, wl.1) == lab && wl.0 == min_x,
            in_image(w as int, h as int, wr.0, wr.1) && label_at(labels@, w as int, wr.0, wr.1) == lab && wr.0 == max_x,
            in_image(w as int, h as int, wt.0, wt.1) && label_at(labels@, w as int, wt.0, wt.1) == lab && wt.1 == min_y,
            in_image(w as int, h as int, wd.0, wd.1) && label_at(labels@, w as int, wd.0, wd.1) == lab && wd.1 == max_y,
            forall|x: int, y: int| in_image(w as int, h as int, x, y) && #[trigger] label_at(labels@, w as int, x, y) == lab ==> joined(mask.data@, w as int, h as int, four, (sx as int, sy as int), (x, y)),
            forall|x: int, y: int| in_image(w as int, h as int, x, y) ==> #[trigger] label_at(start, w as int, x, y) != lab,
            forall|x: int, y: int|
                in_image(w as int, h as int, x, y) && #[trigger] label_at(start, w as int, x, y) != 0
                    ==> pixel(mask.data@, w as int, x, y) != 0,
            forall|x: int, y: int|
                in_image(w as int, h as int, x, y) ==> #[trigger] label_at(labels@, w as int, x, y)
                    == if label_at(start, w as int, x, y) != 0 {
                    label_at(start, w as int, x, y)
                } else if label_at(labels@, w as int, x, y) == lab {
                    lab
                } else {
                    0
                },
            forall|x: int, y: int|
                in_image(w as int, h as int, x, y) && #[trigger] label_at(labels@, w as int, x, y)
                    == lab ==> pixel(mask.data@, w as int, x, y) != 0 && min_x <= x <= max_x && min_y
                    <= y <= max_y && (done.contains((x, y)) || exists|k: int|
                    0 <= k < stack@.len() && stack@[k] == y * w + x),
            forall|x: int, y: int, u: int, v: int|
                #[trigger] done.contains((x, y)) && in_image(w as int, h as int, u, v) && touching(four, 
                    x,
                    y,
                    u,
                    v,
                ) && pixel(mask.data@, w as int, u, v) != 0 ==> #[trigger] label_at(labels@, w as int, u, v)
                    == lab,
        decreases 2 * count_eq(labels@, 0) + stack@.len(),
    {
        let ghost old_stack = stack@;
        let p = stack.pop().unwrap();
        proof {
            lemma_coords(w as int, h as int, p as int);
        }
        let px = p % w;
        let py = p / w;
        let ghost m0 = 2 * count_eq(labels@, 0) + stack@.len();
        proof {
            assert(old_stack[old_stack.len() - 1] == p);
            assert(label_at(labels@, w as int, px as int, py as int) == lab);
            assert forall|x: int, y: int|
                in_image(w as int, h as int, x, y) && #[trigger] label_at(labels@, w as int, x, y) == lab
                    implies (done.contains((x, y)) || (exists|k: int|
                     0 <= k < stack@.len() && stack@[k] == y * w + x) || (x == px && y == py)) by {
                if !done.contains((x, y)) && !(x == px && y == py) {
                    let k = choose|k: int| 0 <= k < old_stack.len() && old_stack[k] == y * w + x;
                    if k == old_stack.len() - 1 {
                        lemma_index_coords(w as int, x, y);
                    }
                    assert(stack@[k] == old_stack[k]);
                }
            }
        }
        let x0 = if px > 0 { px - 1 } else { 0 };
        let y0 = if py > 0 { py - 1 } else { 0 };
        let x1 = if px + 1 < w { px + 2 } else { w };
        let y1 = if py + 1 < h { py + 2 } else { h };
        let mut ny = y0;
        while ny < y1
            invariant
                mask.wf(),
                w == mask.width,
                h == mask.height,
                n == mask.data@.len(),
                n == w * h,
                w > 0,
                lab >= 1,
                labels@.len() == n,
                start.len() == n,
                seed < n,
                labels@[seed as int] == lab,
                min_x <= max_x < w,
                min_y <= max_y < h,
                area >= 1,
                area == count_eq(labels@, lab),
                count_eq(labels@, lab) <= n,
                forall|c: usize| c != lab && c != 0 ==> #[trigger] count_eq(labels@, c) == count_eq(start, c),
                forall|c: usize| c != lab ==> #[trigger] count_eq(labels@, c) <= count_eq(start, c),
                forall|k: int| 0 <= k < stack@.len() ==> #[trigger] stack@[k] < n,
                forall|k: int|
                    0 <= k < stack@.len() ==> label_at(
                        labels@,
                        w as int,
                        (#[trigger] stack@[k]) as int % w as int,
                        stack@[k] as int / w as int,
                    ) == lab,
                labels_closed(mask.data@, start, w as int, h as int, four),
                in_image(w as int, h as int, wl.0, wl.1) && label_at(labels@, w as int, wl.0, wl.1) == lab && wl.0 == min_x,
                in_image(w as int, h as int, wr.0, wr.1) && label_at(labels@, w as int, wr.0, wr.1) == lab && wr.0 == max_x,
                in_image(w as int, h as int, wt.0, wt.1) && label_at(labels@, w as int, wt.0, wt.1) == lab && wt.1 == min_y,
                in_image(w as int, h as int, wd.0, wd.1) && label_at(labels@, w as int, wd.0, wd.1) == lab && wd.1 == max_y,
                forall|x: int, y: int| in_image(w as int, h as int, x, y) && #[trigger] label_at(labels@, w as int, x, y) == lab ==> joined(mask.data@, w as int, h as int, four, (sx as int, sy as int), (x, y)),
                forall|x: int, y: int|
                    in_image(w as int, h as int, x, y) && #[trigger] label_at(start, w as int, x, y) != 0
                        ==> pixel(mask.data@, w as int, x, y) != 0,
                forall|x: int, y: int|
                    in_image(w as int, h as int, x, y) ==> #[trigger] label_at(labels@, w as int, x, y)
                        == if label_at(start, w as int, x, y) != 0 {
                        label_at(start, w as int, x, y)
                    } else if label_at(labels@, w as int, x, y) == lab {
                        lab
                    } else {
                        0
                    },
                forall|x: int, y: int|
                    in_image(w as int, h as int, x, y) && #[trigger] label_at(labels@, w as int, x, y)
                        == lab ==> pixel(mask.data@, w as int, x, y) != 0 && min_x <= x <= max_x && min_y
                        <= y <= max_y && (done.contains((x, y)) || (exists|k: int|
                         0 <= k < stack@.len() && stack@[k] == y * w + x) || (x == px && y == py)),
                forall|x: int, y: int, u: int, v: int|
                    #[trigger] done.contains((x, y)) && in_image(w as int, h as int, u, v) && touching(four, 
                        x,
                        y,
                        u,
                        v,
                    ) && pixel(mask.data@, w as int, u, v) != 0 ==> #[trigger] label_at(labels@, w as int, u, v)
                        == lab,
                px < w,
                py < h,
                label_at(labels@, w as int, px as int, py as int) == lab,
                forall|x: int, y: int| in_image(w as int, h as int, x, y) ==> #[trigger] label_at(start, w as int, x, y) != lab,
                2 * count_eq(labels@, 0) + stack@.len() <= m0,
                x0 <= x1 <= w,
                y0 <= ny <= y1 <= h,
                x0 == (if px > 0 { px - 1 } else { 0 }),
                y0 == (if py > 0 { py - 1 } else { 0 }),
                x1 == (if px + 1 < w { px + 2 } else { w as int }),
                y1 == (if py + 1 < h { py + 2 } else { h as int }),
                forall|u: int, v: int|
                    x0 <= u < x1 && y0 <= v < ny && touching(four, px as int, py as int, u, v) && pixel(mask.data@, w as int, u, v) != 0
                        ==> #[trigger] label_at(labels@, w as int, u, v) == lab,
            decreases y1 - ny,
        {
            let mut nx = x0;
            while nx < x1
                invariant
                    mask.wf(),
                    w == mask.width,
                    h == mask.height,
                    n == mask.data@.len(),
                    n == w * h,
                    w > 0,
                    lab >= 1,
                    labels@.len() == n,
                    start.len() == n,
                    seed < n,
                    labels@[seed as int] == lab,
                    min_x <= max_x < w,
                    min_y <= max_y < h,
                    area >= 1,
                    area == count_eq(labels@, lab),
                    count_eq(labels@, lab) <= n,
                    forall|c: usize| c != lab && c != 0 ==> #[trigger] count_eq(labels@, c) == count_eq(start, c),
                    forall|c: usize| c != lab ==> #[trigger] count_eq(labels@, c) <= count_eq(start, c),
                    forall|k: int| 0 <= k < stack@.len() ==> #[trigger] stack@[k] < n,
                    forall|k: int|
                        0 <= k < stack@.len() ==> label_at(
                            labels@,
                            w as int,
                            (#[trigger] stack@[k]) as int % w as int,
                            stack@[k] as int / w as int,
                        ) == lab,
                    labels_closed(mask.data@, start, w as int, h as int, four),
                    in_image(w as int, h as int, wl.0, wl.1) && label_at(labels@, w as int, wl.0, wl.1) == lab && wl.0 == min_x,
                    in_image(w as int, h as int, wr.0, wr.1) && label_at(labels@, w as int, wr.0, wr.1) == lab && wr.0 == max_x,
                    in_image(w as int, h as int, wt.0, wt.1) && label_at(labels@, w as int, wt.0, wt.1) == lab && wt.1 == min_y,
                    in_image(w as int, h as int, wd.0, wd.1) && label_at(labels@, w as int, wd.0, wd.1) == lab && wd.1 == max_y,
                    forall|x: int, y: int| in_image(w as int, h as int, x, y) && #[trigger] label_at(labels@, w as int, x, y) == lab ==> joined(mask.data@, w as int, h as int, four, (sx as int, sy as int), (x, y)),
                    forall|x: int, y: int|
                        in_image(w as int, h as int, x, y) && #[trigger] label_at(start, w as int, x, y) != 0
                            ==> pixel(mask.data@, w as int, x, y) != 0,
                    forall|x: int, y: int|
                        in_image(w as int, h as int, x, y) ==> #[trigger] label_at(labels@, w as int, x, y)
                            == if label_at(start, w as int, x, y) != 0 {
                            label_at(start, w as int, x, y)
                        } else if label_at(labels@, w as int, x, y) == lab {
                            lab
                        } else {
                            0
                        },
                    forall|x: int, y: int|
                        in_image(w as int, h as int, x, y) && #[trigger] label_at(labels@, w as int, x, y)
                            == lab ==> pixel(mask.data@, w as int, x, y) != 0 && min_x <= x <= max_x && min_y
                            <= y <= max_y && (done.contains((x, y)) || (exists|k: int|
                             0 <= k < stack@.len() && stack@[k] == y * w + x) || (x == px && y == py)),
                    forall|x: int, y: int, u: int, v: int|
                        #[trigger] done.contains((x, y)) && in_image(w as int, h as int, u, v) && touching(four, 
                            x,
                            y,
                            u,
                            v,
                        ) && pixel(mask.data@, w as int, u, v) != 0 ==> #[trigger] label_at(labels@, w as int, u, v)
                            == lab,
                    px < w,
                    py < h,
                    label_at(labels@, w as int, px as int, py as int) == lab,
                    forall|x: int, y: int| in_image(w as int, h as int, x, y) ==> #[trigger] label_at(start, w as int, x, y) != lab,
                    2 * count_eq(labels@, 0) + stack@.len() <= m0,
                    x0 <= nx <= x1 <= w,
                    y0 <= ny < y1 <= h,
                    x0 == (if px > 0 { px - 1 } else { 0 }),
                    y0 == (if py > 0 { py - 1 } else { 0 }),
                    x1 == (if px + 1 < w { px + 2 } else { w as int }),
                    y1 == (if py + 1 < h { py + 2 } else { h as int }),
                    forall|u: int, v: int|
                        x0 <= u < x1 && y0 <= v < ny && touching(four, px as int, py as int, u, v) && pixel(mask.data@, w as int, u, v) != 0
                            ==> #[trigger] label_at(labels@, w as int, u, v) == lab,
                    forall|u: int|
                        x0 <= u < nx && touching(four, px as int, py as int, u, ny as int) && pixel(mask.data@, w as int, u, ny as int) != 0
                            ==> #[trigger] label_at(labels@, w as int, u, ny as int) == lab,
                decreases x1 - nx,
            {
                proof {
                    lemma_index_bounds(w as int, h as int, nx as int, ny as int);
                    lemma_index_coords(w as int, nx as int, ny as int);
                }
                let j = ny * w + nx;
                if (!four || nx == px || ny == py) && mask.data[j] != 0 && labels[j] == 0 {
                    let ghost before = labels@;
                    let ghost stack_before = stack@;
                    proof {
                        lemma_count_update(labels@, j as int, lab, 0);
                        lemma_count_update(labels@, j as int, lab, lab);
                        lemma_count_bound(labels@.update(j as int, lab), lab);
                        assert forall|c: usize| c != lab && c != 0 implies #[trigger] count_eq(
                            labels@.update(j as int, lab),
                            c,
                        ) == count_eq(labels@, c) by {
                            lemma_count_update(labels@, j as int, lab, c);
                        }
                        assert forall|c: usize| c != lab implies #[trigger] count_eq(
                            labels@.update(j as int, lab),
                            c,
                        ) <= count_eq(labels@, c) by {
                            lemma_count_update(labels@, j as int, lab, c);
                        }
                        lemma_label_update(labels@, w as int, h as int, nx as int, ny as int, lab);
                    }
                    let ghost to_p = choose|path: Seq<(int, int)>|
                        #[trigger] chain(mask.data@, w as int, h as int, four, path) && path[0] == (sx as int, sy as int)
                            && path.last() == (px as int, py as int);
                    proof {
                        let ext = to_p.push((nx as int, ny as int));
                        assert(pixel(mask.data@, w as int, nx as int, ny as int) != 0);
                        assert forall|t: int| 0 <= t < ext.len() implies in_image(
                            w as int,
                            h as int,
                            (#[trigger] ext[t]).0,
                            ext[t].1,
                        ) && pixel(mask.data@, w as int, ext[t].0, ext[t].1) != 0 by {
                            if t < to_p.len() {
                                assert(ext[t] == to_p[t]);
                            }
                        }
                        assert forall|t: int| 0 <= t < ext.len() - 1 implies touching(four, 
                            (#[trigger] ext[t]).0,
                            ext[t].1,
                            ext[t + 1].0,
                            ext[t + 1].1,
                        ) by {
                            assert(ext[t] == to_p[t]);
                            if t < to_p.len() - 1 {
                                assert(ext[t + 1] == to_p[t + 1]);
                            }
                        }
                        assert(chain(mask.data@, w as int, h as int, four, ext));
                        assert(ext[0] == (sx as int, sy as int));
                        assert(joined(mask.data@, w as int, h as int, four, (sx as int, sy as int), (nx as int, ny as int)));
                    }
                    labels.set(j, lab);
                    stack.push(j);
                    area += 1;
                    if nx < min_x {
                        min_x = nx;
                        proof {
                            wl = (nx as int, ny as int);
                        }
                    }
                    if nx > max_x {
                        max_x = nx;
                        proof {
                            wr = (nx as int, ny as int);
                        }
                    }
                    if ny < min_y {
                        min_y = ny;
                        proof {
                            wt = (nx as int, ny as int);
                        }
                    }
                    if ny > max_y {
                        max_y = ny;
                        proof {
                            wd = (nx as int, ny as int);
                        }
                    }
                    proof {
                        assert(stack@[stack@.len() - 1] == j);
                        assert forall|x: int, y: int|
                            in_image(w as int, h as int, x, y) && #[trigger] label_at(labels@, w as int, x, y)
                                == lab implies (done.contains((x, y)) || (exists|k: int|
                             0 <= k < stack@.len() && stack@[k] == y * w + x) || (x == px && y == py)) by {
                            if x == nx && y == ny {
                                assert(stack@[stack@.len() - 1] == y * w + x);
                            } else if !done.contains((x, y)) && !(x == px && y == py) {
                                assert(label_at(before, w as int, x, y) == lab);
                                let k = choose|k: int| 0 <= k < stack_before.len() && stack_before[k] == y * w + x;
                                assert(stack@[k] == stack_before[k]);
                            }
                        }
                        assert forall|k: int| 0 <= k < stack@.len() implies label_at(
                            labels@,
                            w as int,
                            (#[trigger] stack@[k]) as int % w as int,
                            stack@[k] as int / w as int,
                        ) == lab by {
                            if k < stack_before.len() {
                                assert(stack@[k] == stack_before[k]);
                                lemma_coords(w as int, h as int, stack@[k] as int);
                            }
                        }
                    }
                } else {
                    proof {
                        if (!four || nx == px || ny == py) && mask.data@[j as int] != 0 {
                            assert(pixel(mask.data@, w as int, nx as int, ny as int) != 0);
                            if label_at(start, w as int, nx as int, ny as int) != 0 {
                                assert(label_at(start, w as int, px as int, py as int) == label_at(
                                    start,
                                    w as int,
                                    nx as int,
                                    ny as int,
                                ));
                            }
                        }
                    }
                }
                nx += 1;
            }
            ny += 1;
        }
        proof {
            done = done.insert((px as int, py as int));
        }
    }
    proof {
        assert forall|x: int, y: int, u: int, v: int|
            in_image(w as int, h as int, x, y) && in_image(w as int, h as int, u, v) && touching(four, x, y, u, v)
                && pixel(mask.data@, w as int, u, v) != 0 && #[trigger] label_at(labels@, w as int, x, y)
                != 0 implies #[trigger] label_at(labels@, w as int, u, v) == label_at(labels@, w as int, x, y) by {
            if label_at(labels@, w as int, x, y) == lab {
                assert(done.contains((x, y)));
            } else {
                assert(label_at(start, w as int, x, y) != 0);
                assert(label_at(start, w as int, u, v) == label_at(start, w as int, x, y));
            }
        }
    }
    let r = Region {
        bbox: BoundingBox { x: min_x, y: min_y, width: max_x - min_x + 1, height: max_y - min_y + 1 },
        area,
        rim: 0,
    };
    assert(box_tight(labels@, w as int, h as int, r.bbox, lab));
    r
}

proof fn lemma_label_present(s: Seq<usize>, c: usize) -> (i: int)
    requires
        count_eq(s, c) > 0,
    ensures
        0 <= i < s.len(),
        s[i] == c,
    decreases s.len(),
{
    if s.last() == c {
        s.len() - 1
    } else {
        let i = lemma_label_present(s.drop_last(), c);
        assert(s[i] == s.drop_last()[i]);
        i
    }
}

/// A region that the extraction can report on mask `s`: its box lies in the
/// image and holds a changed pixel.
pub open spec fn region_ok(r: Region, s: Seq<u8>, w: int, h: int) -> bool {
    box_within(r.bbox, w, h) && r.area >= 1 && box_has_change(s, w, r.bbox)
}

/// Finds the connected regions of non-zero pixels of a mask, pixels that
/// touch at a side (`four`) or at a side or a corner being connected. The
/// regions, numbered from 1, come with a labelling of the mask: each
/// region's area is the number of its pixels and its box holds them all.
#[verifier::rlimit(60)]
pub fn label_regions(mask: &NormalizedFrame, four: bool) -> (r: (Vec<usize>, Vec<Region>))
    requires
        mask.wf(),
    ensures
        r.1@.len() <= mask.data@.len(),
        labelling(mask.data@, mask.width as int, mask.height as int, four, r.0@, r.1@),
        forall|k: int|
            0 <= k < r.1@.len() ==> region_ok(
                #[trigger] r.1@[k],
                mask.data@,
                mask.width as int,
                mask.height as int,
            ),
{
    let w = mask.width;
    let h = mask.height;
    let n = mask.data.len();
    let mut out: Vec<Region> = Vec::new();
    let mut labels: Vec<usize> = Vec::with_capacity(n);
    let mut i: usize = 0;
    while i < n
        invariant
            i <= n,
            labels@.len() == i,
            forall|j: int| 0 <= j < i ==> #[trigger] labels@[j] == 0,
            forall|c: usize| c != 0 ==> #[trigger] count_eq(labels@, c) == 0,
        decreases n - i,
    {
        let ghost prev = labels@;
        labels.push(0);
        proof {
            assert(labels@.drop_last() =~= prev);
            assert forall|c: usize| c != 0 implies #[trigger] count_eq(labels@, c) == 0 by {
                assert(labels@.drop_last() =~= prev);
                assert(count_eq(prev, c) == 0);
                assert(labels@.last() == 0);
            }
        }
        i += 1;
    }
    if w == 0 {
        proof {
            assert(n == 0) by (nonlinear_arith)
                requires
                    n == w * h,
                    w == 0,
            ;
            assert(labelling(mask.data@, w as int, h as int, four, labels@, out@));
        }
        return (labels, out);
    }
    proof {
        assert forall|x: int, y: int| in_image(w as int, h as int, x, y) implies #[trigger] label_at(
            labels@,
            w as int,
            x,
            y,
        ) == 0 by {
            lemma_index_bounds(w as int, h as int, x, y);
        }
    }
    i = 0;
    while i < n
        invariant
            mask.wf(),
            w == mask.width,
            h == mask.height,
            n == mask.data@.len(),
            n == w * h,
            w > 0,
            i <= n,
            out@.len() <= i,
            labels@.len() == n,
            labels_closed(mask.data@, labels@, w as int, h as int, four),
            forall|x: int, y: int|
                in_image(w as int, h as int, x, y) && y * w + x < i && pixel(mask.data@, w as int, x, y)
                    != 0 ==> #[trigger] label_at(labels@, w as int, x, y) != 0,
            forall|x: int, y: int|
                in_image(w as int, h as int, x, y) && #[trigger] label_at(labels@, w as int, x, y) != 0
                    ==> pixel(mask.data@, w as int, x, y) != 0 && label_at(labels@, w as int, x, y)
                    <= out@.len() && in_box(out@[label_at(labels@, w as int, x, y) - 1].bbox, x, y),
            forall|k: int|
                0 <= k < out@.len() ==> box_within((#[trigger] out@[k]).bbox, w as int, h as int)
                    && out@[k].area >= 1 && out@[k].area == count_eq(labels@, (k + 1) as usize),
            forall|c: usize| c > out@.len() ==> #[trigger] count_eq(labels@, c) == 0,
            forall|k: int| 0 <= k < out@.len() ==> #[trigger] region_connected(mask.data@, w as int, h as int, four, labels@, k),
            forall|k: int| 0 <= k < out@.len() ==> box_tight(labels@, w as int, h as int, (#[trigger] out@[k]).bbox, (k + 1) as usize),
        decreases n - i,
    {
        proof {
            lemma_coords(w as int, h as int, i as int);
        }
        if mask.data[i] != 0 && labels[i] == 0 {
            let ghost before = labels@;
            let ghost old_out = out@;
            let lab = out.len() + 1;
            let reg = grow_region(mask, &mut labels, i, lab, four);
            out.push(reg);
            proof {
                assert forall|k: int| 0 <= k < out@.len() implies box_within(
                    (#[trigger] out@[k]).bbox,
                    w as int,
                    h as int,
                ) && out@[k].area >= 1 && out@[k].area == count_eq(labels@, (k + 1) as usize) by {
                    if k < old_out.len() {
                        assert(out@[k] == old_out[k]);
                        assert(count_eq(labels@, (k + 1) as usize) == count_eq(before, (k + 1) as usize));
                    }
                }
                assert forall|x: int, y: int|
                    in_image(w as int, h as int, x, y) && #[trigger] label_at(labels@, w as int, x, y) != 0
                        implies pixel(mask.data@, w as int, x, y) != 0 && label_at(labels@, w as int, x, y)
                        <= out@.len() && in_box(out@[label_at(labels@, w as int, x, y) - 1].bbox, x, y) by {
                    if label_at(before, w as int, x, y) != 0 {
                        assert(out@[label_at(before, w as int, x, y) - 1] == old_out[label_at(
                            before,
                            w as int,
                            x,
                            y,
                        ) - 1]);
                    }
                }
                assert forall|c: usize| c > out@.len() implies #[trigger] count_eq(labels@, c) == 0 by {
                    assert(count_eq(labels@, c) == count_eq(before, c));
                }
                assert(label_at(labels@, w as int, (i % w) as int, (i / w) as int) == lab);
                assert forall|k: int| 0 <= k < out@.len() implies #[trigger] region_connected(
                    mask.data@,
                    w as int,
                    h as int, four,
                    labels@,
                    k,
                ) by {
                    if k < old_out.len() {
                        assert(region_connected(mask.data@, w as int, h as int, four, before, k));
                        let a = choose|a: (int, int)|
                            in_image(w as int, h as int, a.0, a.1) && label_at(before, w as int, a.0, a.1) == k + 1
                                && forall|x: int, y: int|
                                in_image(w as int, h as int, x, y) && #[trigger] label_at(before, w as int, x, y)
                                    == k + 1 ==> joined(mask.data@, w as int, h as int, four, a, (x, y));
                        assert forall|x: int, y: int|
                            in_image(w as int, h as int, x, y) && #[trigger] label_at(labels@, w as int, x, y)
                                == k + 1 implies joined(mask.data@, w as int, h as int, four, a, (x, y)) by {
                            assert(label_at(before, w as int, x, y) == k + 1);
                        }
                    } else {
                        let a = ((i % w) as int, (i / w) as int);
                        assert(label_at(labels@, w as int, a.0, a.1) == k + 1);
                    }
                }
                assert forall|k: int| 0 <= k < out@.len() implies box_tight(
                    labels@,
                    w as int,
                    h as int,
                    (#[trigger] out@[k]).bbox,
                    (k + 1) as usize,
                ) by {
                    if k < old_out.len() {
                        assert(out@[k] == old_out[k]);
                        let (l, r, t, d) = choose|l: (int, int), r: (int, int), t: (int, int), d: (int, int)|
                            in_image(w as int, h as int, l.0, l.1) && in_image(w as int, h as int, r.0, r.1)
                                && in_image(w as int, h as int, t.0, t.1) && in_image(w as int, h as int, d.0, d.1)
                                && label_at(before, w as int, l.0, l.1) == k + 1 && label_at(before, w as int, r.0, r.1) == k + 1
                                && label_at(before, w as int, t.0, t.1) == k + 1 && label_at(before, w as int, d.0, d.1) == k + 1
                                && l.0 == old_out[k].bbox.x && r.0 == old_out[k].bbox.x + old_out[k].bbox.width - 1
                                && t.1 == old_out[k].bbox.y && d.1 == old_out[k].bbox.y + old_out[k].bbox.height - 1;
                        assert(label_at(labels@, w as int, l.0, l.1) == k + 1);
                        assert(label_at(labels@, w as int, r.0, r.1) == k + 1);
                        assert(label_at(labels@, w as int, t.0, t.1) == k + 1);
                        assert(label_at(labels@, w as int, d.0, d.1) == k + 1);
                    }
                }
            }
        }
        proof {
            assert(label_at(labels@, w as int, (i % w) as int, (i / w) as int) == labels@[i as int]);
        }
        i += 1;
    }
    proof {
        assert forall|x: int, y: int| in_image(w as int, h as int, x, y) implies (#[trigger] label_at(
            labels@,
            w as int,
            x,
            y,
        ) == 0 <==> pixel(mask.data@, w as int, x, y) == 0) by {
            lemma_index_bounds(w as int, h as int, x, y);
        }
        assert(labelling(mask.data@, w as int, h as int, four, labels@, out@));
        assert forall|k: int| 0 <= k < out@.len() implies region_ok(
            #[trigger] out@[k],
            mask.data@,
            w as int,
            h as int,
        ) by {
            assert(out@[k].area == count_eq(labels@, (k + 1) as usize));
            let j = lemma_label_present(labels@, (k + 1) as usize);
            lemma_coords(w as int, h as int, j);
            let x = j % w as int;
            let y = j / w as int;
            assert(label_at(labels@, w as int, x, y) == (k + 1) as usize);
            assert(pixel(mask.data@, w as int, x, y) != 0);
        }
    }
    (labels, out)
}

/// Pixel `(x, y)` lies on the edge of the `w` by `h` image.
pub open spec fn on_border(w: int, h: int, x: int, y: int) -> bool {
    in_image(w, h, x, y) && (x == 0 || y == 0 || x == w - 1 || y == h - 1)
}

/// The mask with changed and unchanged pixels swapped.
pub open spec fn inverted_view(s: Seq<u8>) -> Seq<u8> {
    Seq::new(s.len(), |i: int| if s[i] == 0 { 255u8 } else { 0u8 })
}

/// In a labelling `bg` of the unchanged pixels (joined at sides), pixel
/// `(x, y)` is unchanged and joined to the image's edge: it lies outside
/// every outline.
pub open spec fn outside(bg: Seq<usize>, w: int, h: int, x: int, y: int) -> bool {
    label_at(bg, w, x, y) != 0 && exists|bx: int, by: int|
        on_border(w, h, bx, by) && #[trigger] label_at(bg, w, bx, by) == label_at(bg, w, x, y)
}

/// Each region with its holes filled: every pixel that is not outside.
pub open spec fn filled_view(n: int, bg: Seq<usize>, w: int, h: int) -> Seq<u8> {
    Seq::new(n as nat, |i: int| if outside(bg, w, h, i % w, i / w) { 0u8 } else { 255u8 })
}

/// Pixel `(x, y)` of `f` is at the image's edge or beside a zero pixel.
pub open spec fn rim_at(f: Seq<u8>, w: int, h: int, x: int, y: int) -> bool {
    x == 0 || y == 0 || x == w - 1 || y == h - 1 || pixel(f, w, x - 1, y) == 0 || pixel(f, w, x + 1, y)
        == 0 || pixel(f, w, x, y - 1) == 0 || pixel(f, w, x, y + 1) == 0
}

/// How many of the first `i` pixels carry label `c` and lie on a rim.
pub open spec fn rim_count(labels: Seq<usize>, f: Seq<u8>, w: int, h: int, c: usize, i: int) -> nat
    decreases i,
{
    if i <= 0 {
        0
    } else {
        rim_count(labels, f, w, h, c, i - 1) + if labels[i - 1] == c && rim_at(
            f,
            w,
            h,
            (i - 1) % w,
            (i - 1) / w,
        ) {
            1nat
        } else {
            0nat
        }
    }
}

/// Twice the area inside a region's outer outline, through the centres of
/// its outline pixels: `2 * filled - rim - 2` (Pick's formula).
pub open spec fn twice_enclosed(r: Region) -> int {
    2 * r.area - r.rim - 2
}

/// `rs` are the regions of `mask` seen from outside: a region nested in a
/// hole of another is part of it, each area counts the filled region, and
/// each `rim` counts its outline pixels.
pub open spec fn outer_regions(mask: Seq<u8>, w: int, h: int, rs: Seq<Region>) -> bool {
    exists|bg: Seq<usize>, bgrs: Seq<Region>, fl: Seq<usize>|
        #[trigger] labelling(inverted_view(mask), w, h, true, bg, bgrs) && #[trigger] labelling(
            filled_view(w * h, bg, w, h),
            w,
            h,
            false,
            fl,
            rs,
        ) && forall|k: int|
            0 <= k < rs.len() ==> (#[trigger] rs[k]).rim == rim_count(
                fl,
                filled_view(w * h, bg, w, h),
                w,
                h,
                (k + 1) as usize,
                w * h,
            )
}

fn invert(mask: &NormalizedFrame) -> (r: NormalizedFrame)
    requires
        mask.wf(),
    ensures
        r.wf(),
        r.width == mask.width,
        r.height == mask.height,
        r.data@ == inverted_view(mask.data@),
{
    let n = mask.data.len();
    let mut out: Vec<u8> = Vec::with_capacity(n);
    let mut i: usize = 0;
    while i < n
        invariant
            n == mask.data@.len(),
            i <= n,
            out@.len() == i,
            forall|j: int| 0 <= j < i ==> #[trigger] out@[j] == inverted_view(mask.data@)[j],
        decreases n - i,
    {
        out.push(if mask.data[i] == 0 { 255 } else { 0 });
        i += 1;
    }
    assert(out@ =~= inverted_view(mask.data@));
    NormalizedFrame { width: mask.width, height: mask.height, data: out }
}

fn is_rim(f: &NormalizedFrame, x: usize, y: usize) -> (r: bool)
    requires
        f.wf(),
        x < f.width,
        y < f.height,
    ensures
        r == rim_at(f.data@, f.width as int, f.height as int, x as int, y as int),
{
    let w = f.width;
    let h = f.height;
    let n = f.data.len();
    if x == 0 || y == 0 || x + 1 == w || y + 1 == h {
        return true;
    }
    proof {
        lemma_index_bounds(w as int, h as int, x as int, y as int);
        lemma_index_bounds(w as int, h as int, x as int, y as int - 1);
        lemma_index_bounds(w as int, h as int, x as int, y as int + 1);
        assert((y as int - 1) * w == y * w - w) by (nonlinear_arith);
        assert((y as int + 1) * w == y * w + w) by (nonlinear_arith);
    }
    let i = y * w + x;
    f.data[i - 1] == 0 || f.data[i + 1] == 0 || f.data[i - w] == 0 || f.data[i + w] == 0
}

/// Finds the regions of a mask as their outer outlines see them. Unchanged
/// pixels joined at a side to the image's edge lie outside; every other
/// pixel belongs to the filled region of the changed pixels round it, so a
/// region inside another's hole is not reported apart. Each region carries
/// its filled area and its outline length, and its box is the smallest that
/// holds it.
pub fn extract_regions(mask: &NormalizedFrame) -> (r: Vec<Region>)
    requires
        mask.wf(),
    ensures
        outer_regions(mask.data@, mask.width as int, mask.height as int, r@),
        forall|k: int|
            0 <= k < r@.len() ==> box_within(
                (#[trigger] r@[k]).bbox,
                mask.width as int,
                mask.height as int,
            ),
{
    let w = mask.width;
    let h = mask.height;
    let n = mask.data.len();
    let inv = invert(mask);
    let (bg, bgrs) = label_regions(&inv, true);
    let mut open: Vec<bool> = Vec::new();
    open.push(false);
    let mut c: usize = 0;
    while c < bgrs.len()
        invariant
            c <= bgrs@.len(),
            open@.len() == c + 1,
            forall|j: int| 0 <= j <= c ==> !#[trigger] open@[j],
        decreases bgrs@.len() - c,
    {
        open.push(false);
        c += 1;
    }
    let mut i: usize = 0;
    while i < n
        invariant
            mask.wf(),
            w == mask.width,
            h == mask.height,
            n == w * h,
            n == bg@.len(),
            i <= n,
            open@.len() == bgrs@.len() + 1,
            !open@[0],
            labelling(inverted_view(mask.data@), w as int, h as int, true, bg@, bgrs@),
            bgrs@.len() <= n,
            forall|c: int|
                1 <= c < open@.len() ==> (#[trigger] open@[c] <==> exists|bx: int, by: int|
                    on_border(w as int, h as int, bx, by) && by * w + bx < i && #[trigger] label_at(
                        bg@,
                        w as int,
                        bx,
                        by,
                    ) == c),
        decreases n - i,
    {
        proof {
            assert(w > 0) by (nonlinear_arith)
                requires
                    i < w * h,
                    0 <= h,
            ;
            lemma_coords(w as int, h as int, i as int);
        }
        let x = i % w;
        let y = i / w;
        let lb = bg[i];
        let ghost before = open@;
        proof {
            assert(label_at(bg@, w as int, x as int, y as int) == lb);
        }
        let edge = x == 0 || y == 0 || x + 1 == w || y + 1 == h;
        if edge && lb != 0 {
            open.set(lb, true);
        }
        proof {
            assert forall|c: int| 1 <= c < open@.len() implies (#[trigger] open@[c] <==> exists|bx: int, by: int|
                on_border(w as int, h as int, bx, by) && by * w + bx < i + 1 && #[trigger] label_at(
                    bg@,
                    w as int,
                    bx,
                    by,
                ) == c) by {
                if open@[c] {
                    if before[c] {
                        let (bx, by) = choose|bx: int, by: int|
                            on_border(w as int, h as int, bx, by) && by * w + bx < i && #[trigger] label_at(
                                bg@,
                                w as int,
                                bx,
                                by,
                            ) == c;
                        assert(on_border(w as int, h as int, bx, by) && by * w + bx < i + 1);
                    } else {
                        assert(on_border(w as int, h as int, x as int, y as int));
                        assert(label_at(bg@, w as int, x as int, y as int) == c);
                    }
                }
                if exists|bx: int, by: int|
                    on_border(w as int, h as int, bx, by) && by * w + bx < i + 1 && #[trigger] label_at(
                        bg@,
                        w as int,
                        bx,
                        by,
                    ) == c {
                    let (bx, by) = choose|bx: int, by: int|
                        on_border(w as int, h as int, bx, by) && by * w + bx < i + 1 && #[trigger] label_at(
                            bg@,
                            w as int,
                            bx,
                            by,
                        ) == c;
                    if by * w + bx == i {
                        lemma_index_coords(w as int, bx, by);
                        assert(bx == x && by == y);
                    } else {
                        assert(before[c]);
                    }
                }
            }
        }
        i += 1;
    }
    let mut filled: Vec<u8> = Vec::with_capacity(n);
    i = 0;
    while i < n
        invariant
            mask.wf(),
            w == mask.width,
            h == mask.height,
            n == w * h,
            n == bg@.len(),
            i <= n,
            filled@.len() == i,
            open@.len() == bgrs@.len() + 1,
            !open@[0],
            labelling(inverted_view(mask.data@), w as int, h as int, true, bg@, bgrs@),
            bgrs@.len() <= n,
            forall|c: int|
                1 <= c < open@.len() ==> (#[trigger] open@[c] <==> exists|bx: int, by: int|
                    on_border(w as int, h as int, bx, by) && by * w + bx < n && #[trigger] label_at(
                        bg@,
                        w as int,
                        bx,
                        by,
                    ) == c),
            forall|j: int| 0 <= j < i ==> #[trigger] filled@[j] == filled_view(n as int, bg@, w as int, h as int)[j],
        decreases n - i,
    {
        proof {
            assert(w > 0) by (nonlinear_arith)
                requires
                    i < w * h,
                    0 <= h,
            ;
            lemma_coords(w as int, h as int, i as int);
        }
        let x = i % w;
        let y = i / w;
        let lb = bg[i];
        proof {
            assert(label_at(bg@, w as int, x as int, y as int) == lb);
            assert(in_image(w as int, h as int, x as int, y as int));
        }
        let v: u8 = if lb != 0 && open[lb] { 0 } else { 255 };
        proof {
            let o = outside(bg@, w as int, h as int, x as int, y as int);
            if o {
                let (bx, by) = choose|bx: int, by: int|
                    on_border(w as int, h as int, bx, by) && #[trigger] label_at(bg@, w as int, bx, by)
                        == label_at(bg@, w as int, x as int, y as int);
                lemma_index_bounds(w as int, h as int, bx, by);
                assert(open@[lb as int]);
            }
            if lb != 0 && open@[lb as int] {
                let (bx, by) = choose|bx: int, by: int|
                    on_border(w as int, h as int, bx, by) && by * w + bx < n && #[trigger] label_at(
                        bg@,
                        w as int,
                        bx,
                        by,
                    ) == lb;
                assert(o);
            }
        }
        filled.push(v);
        i += 1;
    }
    assert(filled@ =~= filled_view(n as int, bg@, w as int, h as int));
    let fm = NormalizedFrame { width: w, height: h, data: filled };
    let (fl, rs) = label_regions(&fm, false);
    let ghost fv = fm.data@;
    let mut rims: Vec<usize> = Vec::new();
    let mut k: usize = 0;
    while k < rs.len()
        invariant
            k <= rs@.len(),
            rims@.len() == k,
            forall|j: int| 0 <= j < k ==> #[trigger] rims@[j] == 0,
        decreases rs@.len() - k,
    {
        rims.push(0);
        k += 1;
    }
    i = 0;
    while i < n
        invariant
            fm.wf(),
            fv == fm.data@,
            w == fm.width,
            h == fm.height,
            n == w * h,
            n == fl@.len(),
            i <= n,
            rims@.len() == rs@.len(),
            rs@.len() <= n,
            labelling(fv, w as int, h as int, false, fl@, rs@),
            forall|j: int|
                0 <= j < rims@.len() ==> #[trigger] rims@[j] == rim_count(
                    fl@,
                    fv,
                    w as int,
                    h as int,
                    (j + 1) as usize,
                    i as int,
                ) && rims@[j] <= i,
        decreases n - i,
    {
        proof {
            assert(w > 0) by (nonlinear_arith)
                requires
                    i < w * h,
                    0 <= h,
            ;
            lemma_coords(w as int, h as int, i as int);
        }
        let x = i % w;
        let y = i / w;
        let lb = fl[i];
        proof {
            assert(label_at(fl@, w as int, x as int, y as int) == lb);
            assert(in_image(w as int, h as int, x as int, y as int));
        }
        let ghost before = rims@;
        let rim = if lb != 0 {
            is_rim(&fm, x, y)
        } else {
            false
        };
        if rim {
            let cur = rims[lb - 1];
            rims.set(lb - 1, cur + 1);
        }
        proof {
            assert forall|j: int| 0 <= j < rims@.len() implies #[trigger] rims@[j] == rim_count(
                fl@,
                fv,
                w as int,
                h as int,
                (j + 1) as usize,
                i as int + 1,
            ) && rims@[j] <= i + 1 by {
                assert(before[j] == rim_count(fl@, fv, w as int, h as int, (j + 1) as usize, i as int));
                assert(rim_count(fl@, fv, w as int, h as int, (j + 1) as usize, i as int + 1) == rim_count(
                    fl@,
                    fv,
                    w as int,
                    h as int,
                    (j + 1) as usize,
                    i as int,
                ) + if fl@[i as int] == (j + 1) as usize && rim_at(fv, w as int, h as int, x as int, y as int) {
                    1nat
                } else {
                    0nat
                });
            }
        }
        i += 1;
    }
    let mut out: Vec<Region> = Vec::new();
    k = 0;
    while k < rs.len()
        invariant
            k <= rs@.len(),
            rims@.len() == rs@.len(),
            out@.len() == k,
            forall|j: int|
                0 <= j < k ==> (#[trigger] out@[j]).bbox == rs@[j].bbox && out@[j].area == rs@[j].area
                    && out@[j].rim == rims@[j],
        decreases rs@.len() - k,
    {
        out.push(Region { bbox: rs[k].bbox, area: rs[k].area, rim: rims[k] });
        k += 1;
    }
    proof {
        let fv2 = filled_view(w * h, bg@, w as int, h as int);
        assert(fv2 == fv);
        assert forall|j: int| 0 <= j < out@.len() implies rs@[j] == Region { rim: rs@[j].rim, ..out@[j] } by {}
        assert(labelling(fv, w as int, h as int, false, fl@, out@));
        assert(labelling(inverted_view(mask.data@), w as int, h as int, true, bg@, bgrs@));
    }
    out
}

proof fn lemma_full_one_label(s: Seq<u8>, labels: Seq<usize>, w: int, h: int, x: int, y: int)
    requires
        labels_closed(s, labels, w, h, true),
        forall|u: int, v: int| in_image(w, h, u, v) ==> #[trigger] pixel(s, w, u, v) != 0,
        forall|u: int, v: int| in_image(w, h, u, v) ==> #[trigger] label_at(labels, w, u, v) != 0,
        in_image(w, h, x, y),
    ensures
        label_at(labels, w, x, y) == label_at(labels, w, 0, 0),
    decreases x + y,
{
    if x > 0 {
        lemma_full_one_label(s, labels, w, h, x - 1, y);
        assert(label_at(labels, w, x - 1, y) != 0);
        assert(pixel(s, w, x, y) != 0);
        assert(touching(true, x - 1, y, x, y));
    } else if y > 0 {
        lemma_full_one_label(s, labels, w, h, x, y - 1);
        assert(label_at(labels, w, x, y - 1) != 0);
        assert(pixel(s, w, x, y) != 0);
        assert(touching(true, x, y - 1, x, y));
    }
}

/// A mask with no changed pixel has no region.
pub proof fn lemma_blank_no_regions(mask: Seq<u8>, w: int, h: int, rs: Seq<Region>)
    requires
        mask.len() == w * h,
        w > 0,
        h > 0,
        forall|x: int, y: int| 0 <= x < w && 0 <= y < h ==> #[trigger] pixel(mask, w, x, y) == 0,
        outer_regions(mask, w, h, rs),
    ensures
        rs.len() == 0,
{
    let (bg, bgrs, fl) = choose|bg: Seq<usize>, bgrs: Seq<Region>, fl: Seq<usize>|
        #[trigger] labelling(inverted_view(mask), w, h, true, bg, bgrs) && #[trigger] labelling(
            filled_view(w * h, bg, w, h),
            w,
            h,
            false,
            fl,
            rs,
        ) && forall|k: int|
            0 <= k < rs.len() ==> (#[trigger] rs[k]).rim == rim_count(
                fl,
                filled_view(w * h, bg, w, h),
                w,
                h,
                (k + 1) as usize,
                w * h,
            );
    let inv = inverted_view(mask);
    let f = filled_view(w * h, bg, w, h);
    assert forall|u: int, v: int| in_image(w, h, u, v) implies #[trigger] pixel(inv, w, u, v) != 0 by {
        lemma_index_bounds(w, h, u, v);
        assert(pixel(mask, w, u, v) == 0);
    }
    assert forall|u: int, v: int| in_image(w, h, u, v) implies #[trigger] label_at(bg, w, u, v) != 0 by {
        assert(pixel(inv, w, u, v) != 0);
    }
    assert(on_border(w, h, 0, 0));
    assert forall|u: int, v: int| in_image(w, h, u, v) implies #[trigger] pixel(f, w, u, v) == 0 by {
        lemma_full_one_label(inv, bg, w, h, u, v);
        lemma_index_bounds(w, h, u, v);
        lemma_index_coords(w, u, v);
        assert(label_at(bg, w, 0, 0) == label_at(bg, w, u, v));
        assert(outside(bg, w, h, u, v));
    }
    if rs.len() > 0 {
        assert(rs[0].area >= 1);
        let j = lemma_label_present(fl, 1);
        lemma_coords(w, h, j);
        let x = j % w;
        let y = j / w;
        assert(label_at(fl, w, x, y) == 1);
        assert(pixel(f, w, x, y) == 0);
    }
}

} // verus!
