use vstd::prelude::*;
use crate::frame::{BoundingBox, Frame};

verus! {

/// Width in pixels of the outline drawn for a box.
pub const LINE_WIDTH: usize = 2;

/// Channel `c` (blue, green, red) of the outline colour, pure green.
pub open spec fn outline_color(c: int) -> u8 {
    if c == 1 {
        255
    } else {
        0
    }
}

/// Pixel `(x, y)` lies on the outline of box `b`: inside the box and within
/// `LINE_WIDTH` pixels of one of its edges.
pub open spec fn on_outline(b: BoundingBox, x: int, y: int) -> bool {
    let dx = x - b.x;
    let dy = y - b.y;
    &&& 0 <= dx < b.width
    &&& 0 <= dy < b.height
    &&& (dx < LINE_WIDTH || b.width - dx <= LINE_WIDTH || dy < LINE_WIDTH || b.height - dy
        <= LINE_WIDTH)
}

/// Some box of `boxes` has `(x, y)` on its outline.
pub open spec fn painted(boxes: Seq<BoundingBox>, x: int, y: int) -> bool {
    exists|k: int| 0 <= k < boxes.len() && #[trigger] on_outline(boxes[k], x, y)
}

/// The bytes of `frame` with the outline of every box drawn in green.
pub open spec fn annotated_view(frame: &Frame, boxes: Seq<BoundingBox>) -> Seq<u8> {
    let w = frame.width as int;
    Seq::new(
        frame.data@.len(),
        |t: int|
            if painted(boxes, (t / 3) % w, (t / 3) / w) {
                outline_color(t % 3)
            } else {
                frame.data@[t]
            },
    )
}

fn outline_hit(b: &BoundingBox, x: usize, y: usize) -> (r: bool)
    ensures
        r == on_outline(*b, x as int, y as int),
{
    if x < b.x || y < b.y {
        return false;
    }
    let dx = x - b.x;
    let dy = y - b.y;
    if dx >= b.width || dy >= b.height {
        return false;
    }
    dx < LINE_WIDTH || b.width - dx <= LINE_WIDTH || dy < LINE_WIDTH || b.height - dy <= LINE_WIDTH
}

fn any_outline_hit(boxes: &[BoundingBox], x: usize, y: usize) -> (r: bool)
    ensures
        r == painted(boxes@, x as int, y as int),
{
    let mut k: usize = 0;
    while k < boxes.len()
        invariant
            k <= boxes@.len(),
            forall|j: int| 0 <= j < k ==> !#[trigger] on_outline(boxes@[j], x as int, y as int),
        decreases boxes@.len() - k,
    {
        if outline_hit(&boxes[k], x, y) {
            return true;
        }
        k += 1;
    }
    false
}

/// Draws each box's outline in green onto a copy of `frame`; the frame
/// itself is left as it is. Boxes are drawn independently, in any overlap.
pub fn annotate(frame: &Frame, boxes: &[BoundingBox]) -> (r: Frame)
    requires
        frame.wf(),
    ensures
        r.wf(),
        r.width == frame.width,
        r.height == frame.height,
        r.data@ == annotated_view(frame, boxes@),
{
    let w = frame.width;
    let len = frame.data.len();
    let n = len / 3;
    assert(n * 3 == frame.data@.len());
    let mut out: Vec<u8> = Vec::with_capacity(len);
    let mut i: usize = 0;
    while i < n
        invariant
            frame.wf(),
            w == frame.width,
            len == frame.data@.len(),
            len == n * 3,
            i <= n,
            out@.len() == 3 * i,
            forall|t: int| 0 <= t < 3 * i ==> #[trigger] out@[t] == annotated_view(frame, boxes@)[t],
        decreases n - i,
    {
        proof {
            assert(w > 0) by (nonlinear_arith)
                requires
                    i < n,
                    n == w * frame.height,
                    0 <= frame.height,
            ;
        }
        let x = i % w;
        let y = i / w;
        if any_outline_hit(boxes, x, y) {
            out.push(0);
            out.push(255);
            out.push(0);
        } else {
            out.push(frame.data[3 * i]);
            out.push(frame.data[3 * i + 1]);
            out.push(frame.data[3 * i + 2]);
        }
        proof {
            assert forall|t: int| 3 * i <= t < 3 * i + 3 implies #[trigger] out@[t] == annotated_view(
                frame,
                boxes@,
            )[t] by {
                assert(t / 3 == i);
            }
        }
        i += 1;
    }
    assert(out@ =~= annotated_view(frame, boxes@));
    Frame { width: frame.width, height: frame.height, data: out }
}

} // verus!
