//! Frame-to-frame motion detection on 8-bit images.
//!
//! A raw colour frame is reduced to a smoothed single-channel image
//! (`preprocess`), compared with the previous such image (`detector`), and
//! the regions that changed are reported as bounding boxes, which can then be
//! drawn onto a copy of the frame (`annotate`).

mod annotate;
mod detector;
mod frame;
mod pixel_ops;
mod preprocess;
mod regions;

pub use annotate::{annotate, annotated_view, on_outline, outline_color, painted, LINE_WIDTH};
pub use detector::{
    dilation_radius, kept_boxes, lemma_still_mask, motion_mask, reported, select_boxes,
    standard_config, DetectorConfig, MotionDetector,
};
pub use frame::{BoundingBox, Frame, MotionError, NormalizedFrame};
pub use pixel_ops::{
    abs_diff, binarize, diff_view, dilate, dilated_view, near_changed, pixel, threshold_view,
};
pub use preprocess::{
    blur_cols, blur_rows, gaussian_kernel, gaussian_weights, gray_of, gray_view, kernel_ok,
    is_usable_kernel, lemma_normalize_deterministic, normalize, normalize_with_kernel, normalized_view,
    smoothed_frame_view, smoothed_view, to_gray, weight_sum,
};
pub use regions::{
    box_has_change, box_tight, box_within, chain, count_eq, extract_regions, filled_view, in_box,
    in_image, inverted_view, label_regions, on_border, outer_regions, outside, rim_at, rim_count,
    twice_enclosed, lemma_blank_no_regions,
    joined, label_at, labelling, labels_closed, region_connected, region_ok, touching, Region,
};
