use vstd::prelude::*;
use crate::annotate::{annotate, annotated_view};
use crate::frame::{BoundingBox, Frame, MotionError, NormalizedFrame};
use crate::pixel_ops::{
    abs_diff, binarize, dilate, dilated_view, diff_view, near_changed, pixel, threshold_view,
};
use crate::preprocess::{
    gaussian_kernel, gaussian_weights, is_usable_kernel, kernel_ok, normalize_with_kernel,
    smoothed_frame_view,
};
use crate::regions::{
    box_within, extract_regions, lemma_blank_no_regions, outer_regions, twice_enclosed, Region,
};

verus! {

/// Tunable policy of a motion detector, fixed for its lifetime.
#[derive(Clone, Copy, Debug, PartialEq, Eq, Structural)]
pub struct DetectorConfig {
    /// A pixel whose difference exceeds this value counts as changed.
    pub threshold: u8,
    /// The value that a changed pixel takes in the binary mask.
    pub binary_value: u8,
    /// Side of the square structuring element used for dilation.
    pub dilate_size: usize,
    /// How many times the dilation is applied.
    pub dilate_iterations: usize,
    /// Regions of at most this many pixels are not reported.
    pub min_area: usize,
}

/// The default policy: cutoff 25, mask value 255, one pass of a 3 by 3
/// dilation, minimum area 500.
pub open spec fn standard_config() -> DetectorConfig {
    DetectorConfig {
        threshold: 25,
        binary_value: 255,
        dilate_size: 3,
        dilate_iterations: 1,
        min_area: 500,
    }
}

impl DetectorConfig {
    /// The default policy.
    pub fn standard() -> (c: DetectorConfig)
        ensures
            c == standard_config(),
    {
        DetectorConfig {
            threshold: 25,
            binary_value: 255,
            dilate_size: 3,
            dilate_iterations: 1,
            min_area: 500,
        }
    }
}

/// Radius of the square that `iterations` passes of a `size` by `size`
/// dilation reach, capped at the largest `usize`.
pub open spec fn dilation_radius(c: DetectorConfig) -> int {
    let r = (c.dilate_size / 2) * c.dilate_iterations;
    if r <= usize::MAX {
        r as int
    } else {
        usize::MAX as int
    }
}

/// The binary mask of changed pixels between two `w` by `h` images: their
/// difference, thresholded, then dilated.
pub open spec fn motion_mask(prev: Seq<u8>, cur: Seq<u8>, w: int, h: int, c: DetectorConfig) -> Seq<
    u8,
> {
    dilated_view(
        threshold_view(diff_view(prev, cur), c.threshold, c.binary_value),
        w,
        h,
        dilation_radius(c),
        c.binary_value,
    )
}

/// The boxes of the regions whose enclosed area exceeds `min_area`, in
/// order.
pub open spec fn kept_boxes(rs: Seq<Region>, min_area: int) -> Seq<BoundingBox>
    decreases rs.len(),
{
    if rs.len() == 0 {
        Seq::empty()
    } else {
        let rest = kept_boxes(rs.drop_last(), min_area);
        if twice_enclosed(rs.last()) > 2 * min_area {
            rest.push(rs.last().bbox)
        } else {
            rest
        }
    }
}

/// `boxes` are the boxes, in order, of the outer regions of `mask` whose
/// enclosed area exceeds `min_area`.
pub open spec fn reported(boxes: Seq<BoundingBox>, mask: Seq<u8>, w: int, h: int, min_area: int) -> bool {
    exists|rs: Seq<Region>| outer_regions(mask, w, h, rs) && boxes == kept_boxes(rs, min_area)
}

/// Keeps the boxes of the regions whose enclosed area exceeds `min_area`.
pub fn select_boxes(regions: &Vec<Region>, min_area: usize) -> (r: Vec<BoundingBox>)
    ensures
        r@ == kept_boxes(regions@, min_area as int),
{
    let mut out: Vec<BoundingBox> = Vec::new();
    let mut i: usize = 0;
    while i < regions.len()
        invariant
            i <= regions@.len(),
            out@ == kept_boxes(regions@.take(i as int), min_area as int),
        decreases regions@.len() - i,
    {
        proof {
            assert(regions@.take(i as int + 1).drop_last() =~= regions@.take(i as int));
        }
        let r = regions[i];
        if 2 * (r.area as u128) > 2 * (min_area as u128) + (r.rim as u128) + 2 {
            out.push(regions[i].bbox);
        }
        i += 1;
    }
    assert(regions@.take(i as int) =~= regions@);
    out
}

proof fn lemma_kept_boxes_from(rs: Seq<Region>, min_area: int, k: int)
    requires
        0 <= k < kept_boxes(rs, min_area).len(),
    ensures
        exists|j: int| 0 <= j < rs.len() && rs[j].bbox == kept_boxes(rs, min_area)[k],
    decreases rs.len(),
{
    let rest = kept_boxes(rs.drop_last(), min_area);
    if k < rest.len() {
        lemma_kept_boxes_from(rs.drop_last(), min_area, k);
        let j = choose|j: int| 0 <= j < rs.drop_last().len() && rs.drop_last()[j].bbox == rest[k];
        assert(rs[j] == rs.drop_last()[j]);
    } else {
        assert(rs[rs.len() - 1].bbox == kept_boxes(rs, min_area)[k]);
    }
}

/// An unchanged scene gives an all-zero mask.
pub proof fn lemma_still_mask(s: Seq<u8>, w: int, h: int, c: DetectorConfig, x: int, y: int)
    requires
        s.len() == w * h,
        0 <= x < w,
        0 <= y < h,
    ensures
        pixel(motion_mask(s, s, w, h, c), w, x, y) == 0,
{
    let t = threshold_view(diff_view(s, s), c.threshold, c.binary_value);
    crate::pixel_ops::lemma_index_bounds(w, h, x, y);
    vstd::arithmetic::div_mod::lemma_fundamental_div_mod_converse(y * w + x, w, y, x);
    if near_changed(t, w, h, dilation_radius(c), x, y) {
        let (qx, qy) = choose|qx: int, qy: int|
            0 <= qx < w && 0 <= qy < h && x - dilation_radius(c) <= qx <= x + dilation_radius(c)
                && y - dilation_radius(c) <= qy <= y + dilation_radius(c) && #[trigger] pixel(
                t,
                w,
                qx,
                qy,
            ) != 0;
        crate::pixel_ops::lemma_index_bounds(w, h, qx, qy);
    }
}

/// Detects motion between consecutive frames. It keeps the last normalized
/// frame it was given as the reference for the next one.
pub struct MotionDetector {
    previous: Option<NormalizedFrame>,
    config: DetectorConfig,
    kernel: Vec<u32>,
}

impl MotionDetector {
    /// The reference frame, as width, height and pixels, if one is held.
    pub closed spec fn reference(&self) -> Option<(nat, nat, Seq<u8>)> {
        match self.previous {
            Some(p) => Some((p.width as nat, p.height as nat, p.data@)),
            None => None,
        }
    }

    /// The policy fixed at construction.
    pub closed spec fn settings(&self) -> DetectorConfig {
        self.config
    }

    /// The smoothing kernel applied to raw frames; its length is the blur
    /// size.
    pub closed spec fn blur(&self) -> Seq<u32> {
        self.kernel@
    }

    /// The held reference frame is well formed and the kernel usable.
    pub closed spec fn inv(&self) -> bool {
        kernel_ok(self.kernel@) && match self.previous {
            Some(p) => p.wf(),
            None => true,
        }
    }

    /// A detector with the default policy and no reference frame.
    pub fn new() -> (r: Result<MotionDetector, MotionError>)
        ensures
            r is Ok,
            r->Ok_0.inv(),
            r->Ok_0.reference() is None,
            r->Ok_0.settings() == standard_config(),
            r->Ok_0.blur() == gaussian_weights(),
    {
        Ok(MotionDetector::with_config(DetectorConfig::standard()))
    }

    /// A detector with the given policy, the 21-tap Gaussian blur and no
    /// reference frame.
    pub fn with_config(config: DetectorConfig) -> (r: MotionDetector)
        ensures
            r.inv(),
            r.reference() is None,
            r.settings() == config,
            r.blur() == gaussian_weights(),
    {
        MotionDetector { previous: None, config, kernel: gaussian_kernel() }
    }

    /// A detector with the given policy and blur kernel and no reference
    /// frame; an unusable kernel fails with `ProcessingError`.
    pub fn with_blur(config: DetectorConfig, kernel: Vec<u32>) -> (r: Result<MotionDetector, MotionError>)
        ensures
            r is Ok <==> kernel_ok(kernel@),
            r is Err ==> r->Err_0 == MotionError::ProcessingError,
            r is Ok ==> r->Ok_0.inv() && r->Ok_0.reference() is None && r->Ok_0.settings() == config
                && r->Ok_0.blur() == kernel@,
    {
        if !is_usable_kernel(&kernel) {
            return Err(MotionError::ProcessingError);
        }
        Ok(MotionDetector { previous: None, config, kernel })
    }

    /// Compares `current` with the reference frame and returns the boxes of
    /// the changed regions larger than the minimum area.
    ///
    /// The first frame only becomes the reference and yields no box. A frame
    /// whose size differs from the reference fails with `InvalidFrame` and
    /// leaves the detector as it was, as does a frame with a zero side.
    /// Otherwise `current` replaces the reference, and the boxes are those of
    /// the outer regions of the motion mask whose enclosed area exceeds the
    /// minimum; identical frames yield no box.
    pub fn detect(&mut self, current: NormalizedFrame) -> (r: Result<Vec<BoundingBox>, MotionError>)
        requires
            old(self).inv(),
            current.wf(),
        ensures
            final(self).inv(),
            final(self).settings() == old(self).settings(),
            final(self).blur() == old(self).blur(),
            current.width == 0 || current.height == 0 ==> r == Err::<Vec<BoundingBox>, MotionError>(
                MotionError::InvalidFrame,
            ) && final(self).reference() == old(self).reference(),
            current.width > 0 && current.height > 0 ==> match old(self).reference() {
                None => r is Ok && r->Ok_0@.len() == 0 && final(self).reference() == Some(
                    (current.width as nat, current.height as nat, current.data@),
                ),
                Some((w, h, prev)) => if w != current.width || h != current.height {
                    r == Err::<Vec<BoundingBox>, MotionError>(MotionError::InvalidFrame)
                        && final(self).reference() == old(self).reference()
                } else {
                    &&& r is Ok
                    &&& final(self).reference() == Some(
                        (current.width as nat, current.height as nat, current.data@),
                    )
                    &&& forall|k: int|
                        0 <= k < r->Ok_0@.len() ==> box_within(#[trigger] r->Ok_0@[k], w as int, h as int)
                    &&& reported(
                        r->Ok_0@,
                        motion_mask(prev, current.data@, w as int, h as int, old(self).settings()),
                        w as int,
                        h as int,
                        old(self).settings().min_area as int,
                    )
                    &&& prev == current.data@ ==> r->Ok_0@.len() == 0
                },
            },
    {
        if current.width == 0 || current.height == 0 {
            return Err(MotionError::InvalidFrame);
        }
        match self.previous.take() {
            None => {
                self.previous = Some(current);
                Ok(Vec::new())
            },
            Some(prev) => {
                if prev.width != current.width || prev.height != current.height {
                    self.previous = Some(prev);
                    return Err(MotionError::InvalidFrame);
                }
                let c = self.config;
                let delta = abs_diff(&prev, &current);
                let mask = binarize(&delta, c.threshold, c.binary_value);
                let radius = match (c.dilate_size / 2).checked_mul(c.dilate_iterations) {
                    Some(v) => v,
                    None => usize::MAX,
                };
                let grown = dilate(&mask, radius, c.binary_value);
                let regions = extract_regions(&grown);
                let boxes = select_boxes(&regions, c.min_area);
                proof {
                    let w = prev.width as int;
                    let h = prev.height as int;
                    assert(grown.data@ == motion_mask(prev.data@, current.data@, w, h, c));
                    assert forall|k: int| 0 <= k < boxes@.len() implies box_within(
                        #[trigger] boxes@[k],
                        w,
                        h,
                    ) by {
                        lemma_kept_boxes_from(regions@, c.min_area as int, k);
                        let j = choose|j: int|
                            0 <= j < regions@.len() && regions@[j].bbox == kept_boxes(
                                regions@,
                                c.min_area as int,
                            )[k];
                        assert(box_within(regions@[j].bbox, w, h));
                    }
                    if prev.data@ == current.data@ {
                        assert forall|x: int, y: int| 0 <= x < w && 0 <= y < h implies #[trigger] pixel(
                            grown.data@,
                            w,
                            x,
                            y,
                        ) == 0 by {
                            lemma_still_mask(prev.data@, w, h, c, x, y);
                        }
                        lemma_blank_no_regions(grown.data@, w, h, regions@);
                    }
                }
                self.previous = Some(current);
                Ok(boxes)
            },
        }
    }

    /// Normalizes a raw frame and runs `detect` on it.
    pub fn detect_motion(&mut self, current_frame: &Frame) -> (r: Result<Vec<BoundingBox>, MotionError>)
        requires
            old(self).inv(),
            current_frame.wf(),
        ensures
            final(self).inv(),
            final(self).settings() == old(self).settings(),
            final(self).blur() == old(self).blur(),
            current_frame.width == 0 || current_frame.height == 0 ==> r == Err::<
                Vec<BoundingBox>,
                MotionError,
            >(MotionError::InvalidFrame) && final(self).reference() == old(self).reference(),
            current_frame.width > 0 && current_frame.height > 0 ==> match old(self).reference() {
                None => r is Ok && r->Ok_0@.len() == 0 && final(self).reference() == Some(
                    (current_frame.width as nat, current_frame.height as nat, smoothed_frame_view(current_frame, old(self).blur())),
                ),
                Some((w, h, prev)) => if w != current_frame.width || h != current_frame.height {
                    r == Err::<Vec<BoundingBox>, MotionError>(MotionError::InvalidFrame)
                        && final(self).reference() == old(self).reference()
                } else {
                    &&& r is Ok
                    &&& final(self).reference() == Some(
                        (current_frame.width as nat, current_frame.height as nat, smoothed_frame_view(current_frame, old(self).blur())),
                    )
                    &&& forall|k: int|
                        0 <= k < r->Ok_0@.len() ==> box_within(#[trigger] r->Ok_0@[k], w as int, h as int)
                    &&& reported(
                        r->Ok_0@,
                        motion_mask(prev, smoothed_frame_view(current_frame, old(self).blur()), w as int, h as int, old(self).settings()),
                        w as int,
                        h as int,
                        old(self).settings().min_area as int,
                    )
                    &&& prev == smoothed_frame_view(current_frame, old(self).blur()) ==> r->Ok_0@.len() == 0
                },
            },
    {
        let normalized = normalize_with_kernel(current_frame, &self.kernel)?;
        self.detect(normalized)
    }

    /// A copy of `frame` with the outline of each box drawn in green.
    pub fn draw_bounding_boxes(&self, frame: &Frame, boxes: &[BoundingBox]) -> (r: Result<Frame, MotionError>)
        requires
            frame.wf(),
        ensures
            r is Ok,
            r->Ok_0.wf(),
            r->Ok_0.width == frame.width,
            r->Ok_0.height == frame.height,
            r->Ok_0.data@ == annotated_view(frame, boxes@),
    {
        Ok(annotate(frame, boxes))
    }
}

} // verus!
