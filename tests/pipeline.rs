use motion_detect::{
    abs_diff, annotate, binarize, blur_cols, blur_rows, dilate, extract_regions, gaussian_kernel,
    normalize, normalize_with_kernel, select_boxes, to_gray, BoundingBox, DetectorConfig, Frame,
    MotionDetector, MotionError, NormalizedFrame, Region,
};

fn gray(width: usize, height: usize, fill: u8) -> NormalizedFrame {
    NormalizedFrame::new(width, height, vec![fill; width * height]).unwrap()
}

fn with_block(base: &NormalizedFrame, x: usize, y: usize, side: usize, value: u8) -> NormalizedFrame {
    let mut data = base.data.clone();
    for row in y..y + side {
        for col in x..x + side {
            data[row * base.width + col] = value;
        }
    }
    NormalizedFrame::new(base.width, base.height, data).unwrap()
}

fn color(width: usize, height: usize, bgr: [u8; 3]) -> Frame {
    let mut data = Vec::with_capacity(width * height * 3);
    for _ in 0..width * height {
        data.extend_from_slice(&bgr);
    }
    Frame::new(width, height, data).unwrap()
}

fn color_with_block(width: usize, height: usize, x: usize, y: usize, side: usize) -> Frame {
    let mut frame = color(width, height, [0, 0, 0]);
    for row in y..y + side {
        for col in x..x + side {
            let i = 3 * (row * width + col);
            frame.data[i] = 255;
            frame.data[i + 1] = 255;
            frame.data[i + 2] = 255;
        }
    }
    frame
}

fn contains(b: &BoundingBox, x0: usize, y0: usize, x1: usize, y1: usize) -> bool {
    b.x <= x0 && b.y <= y0 && b.x + b.width >= x1 && b.y + b.height >= y1
}

#[test]
fn first_frame_yields_no_boxes() {
    let mut det = MotionDetector::new().unwrap();
    let first = with_block(&gray(64, 48, 0), 10, 10, 30, 255);
    assert_eq!(det.detect(first).unwrap(), Vec::<BoundingBox>::new());
    let second = gray(64, 48, 0);
    assert_eq!(det.detect(second).unwrap().len(), 1);
}

#[test]
fn first_call_on_fresh_detectors_is_always_empty() {
    for fill in [0u8, 17, 128, 255] {
        let mut det = MotionDetector::new().unwrap();
        assert!(det.detect(gray(32, 24, fill)).unwrap().is_empty());
    }
}

#[test]
fn identical_frames_yield_no_boxes() {
    let mut data = Vec::new();
    for i in 0..(80 * 60) {
        data.push((i * 37 % 251) as u8);
    }
    let frame = NormalizedFrame::new(80, 60, data).unwrap();
    let mut det = MotionDetector::new().unwrap();
    assert!(det.detect(frame.clone()).unwrap().is_empty());
    assert!(det.detect(frame.clone()).unwrap().is_empty());
    assert!(det.detect(frame).unwrap().is_empty());
}

#[test]
fn single_block_yields_one_box() {
    let blank = gray(640, 480, 0);
    let moved = with_block(&blank, 100, 100, 40, 255);
    let mut det = MotionDetector::new().unwrap();
    assert!(det.detect(blank).unwrap().is_empty());
    let boxes = det.detect(moved).unwrap();
    assert_eq!(boxes.len(), 1);
    assert!(contains(&boxes[0], 100, 100, 140, 140));
    assert_eq!(boxes[0], BoundingBox { x: 99, y: 99, width: 42, height: 42 });
    assert!(boxes[0].width * boxes[0].height >= 40 * 40);
}

#[test]
fn small_block_is_ignored() {
    let blank = gray(200, 150, 0);
    let moved = with_block(&blank, 50, 50, 10, 255);
    let mut det = MotionDetector::new().unwrap();
    assert!(det.detect(blank).unwrap().is_empty());
    assert!(det.detect(moved).unwrap().is_empty());
}

#[test]
fn faint_change_is_ignored() {
    let blank = gray(200, 150, 100);
    let moved = with_block(&blank, 50, 50, 40, 125);
    let mut det = MotionDetector::new().unwrap();
    assert!(det.detect(blank).unwrap().is_empty());
    assert!(det.detect(moved).unwrap().is_empty());
}

#[test]
fn normalize_twice_is_identical() {
    let frame = color_with_block(64, 48, 5, 7, 20);
    let a = normalize(&frame).unwrap();
    let b = normalize(&frame).unwrap();
    assert_eq!(a.width, 64);
    assert_eq!(a.height, 48);
    assert_eq!(a.data, b.data);
}

#[test]
fn mismatched_size_is_invalid() {
    let mut det = MotionDetector::new().unwrap();
    assert!(det.detect(gray(40, 30, 0)).unwrap().is_empty());
    assert_eq!(det.detect(gray(30, 40, 0)), Err(MotionError::InvalidFrame));
    assert_eq!(det.detect(gray(41, 30, 0)), Err(MotionError::InvalidFrame));
    // the reference is kept after a refused frame
    assert!(det.detect(gray(40, 30, 0)).unwrap().is_empty());
}

#[test]
fn annotate_leaves_input_unchanged() {
    let frame = color_with_block(20, 20, 3, 3, 5);
    let before = frame.data.clone();
    let boxes = vec![BoundingBox { x: 2, y: 2, width: 8, height: 8 }];
    let out = annotate(&frame, &boxes);
    assert_eq!(frame.data, before);
    assert_ne!(out.data, before);
}

#[test]
fn blank_blank_block_sequence() {
    let mut det = MotionDetector::new().unwrap();
    let blank = color(160, 120, [0, 0, 0]);
    let moving = color_with_block(160, 120, 60, 40, 40);
    assert!(det.detect_motion(&blank).unwrap().is_empty());
    assert!(det.detect_motion(&blank).unwrap().is_empty());
    let boxes = det.detect_motion(&moving).unwrap();
    assert_eq!(boxes.len(), 1);
    assert!(contains(&boxes[0], 60, 40, 100, 80));
}

#[test]
fn zero_size_frame_is_invalid() {
    let empty = Frame::new(0, 10, Vec::new()).unwrap();
    assert_eq!(normalize(&empty).unwrap_err(), MotionError::InvalidFrame);
    let mut det = MotionDetector::new().unwrap();
    assert_eq!(det.detect_motion(&empty), Err(MotionError::InvalidFrame));
}

#[test]
fn frame_buffer_length_is_checked() {
    assert_eq!(Frame::new(2, 2, vec![0; 11]).unwrap_err(), MotionError::InvalidFrame);
    assert!(Frame::new(2, 2, vec![0; 12]).is_ok());
    assert_eq!(NormalizedFrame::new(3, 2, vec![0; 5]).unwrap_err(), MotionError::InvalidFrame);
    assert!(NormalizedFrame::new(3, 2, vec![0; 6]).is_ok());
    assert_eq!(
        NormalizedFrame::new(usize::MAX, 2, Vec::new()).unwrap_err(),
        MotionError::InvalidFrame
    );
}

#[test]
fn gray_uses_luminance_weights() {
    let frame = Frame::new(2, 1, vec![10, 20, 30, 255, 255, 255]).unwrap();
    let g = to_gray(&frame);
    assert_eq!(g.data, vec![22, 255]);
    let blue = Frame::new(1, 1, vec![255, 0, 0]).unwrap();
    let red = Frame::new(1, 1, vec![0, 0, 255]).unwrap();
    assert_eq!(to_gray(&blue).data, vec![29]);
    assert_eq!(to_gray(&red).data, vec![76]);
}

#[test]
fn blur_spreads_an_impulse() {
    let mut data = vec![0u8; 21];
    data[10] = 255;
    let img = NormalizedFrame::new(21, 1, data).unwrap();
    let k = gaussian_kernel();
    assert_eq!(k.iter().sum::<u32>(), 4096);
    let rows = blur_rows(&img, &k).unwrap();
    assert_eq!(rows.data[10], 29);
    assert_eq!(rows.data[9], 28);
    assert_eq!(rows.data[11], 28);
    // the far tap mirrors back onto the impulse
    assert_eq!(rows.data[0], 1);
    // a single row is unchanged by a column pass: edges repeat
    let cols = blur_cols(&rows, &k).unwrap();
    assert_eq!(cols.data, rows.data);
}

#[test]
fn blur_keeps_a_uniform_image() {
    let img = gray(30, 25, 100);
    let k = gaussian_kernel();
    let out = blur_cols(&blur_rows(&img, &k).unwrap(), &k).unwrap();
    assert_eq!(out.data, img.data);
}

#[test]
fn blur_refuses_bad_kernels() {
    let img = gray(4, 4, 1);
    assert_eq!(blur_rows(&img, &vec![1, 1]).unwrap_err(), MotionError::ProcessingError);
    assert_eq!(blur_cols(&img, &vec![0, 0, 0]).unwrap_err(), MotionError::ProcessingError);
    assert_eq!(blur_rows(&img, &Vec::new()).unwrap_err(), MotionError::ProcessingError);
    assert_eq!(
        blur_rows(&img, &vec![u32::MAX, u32::MAX, u32::MAX]).unwrap_err(),
        MotionError::ProcessingError
    );
    assert_eq!(blur_rows(&img, &vec![1, 2, 1]).unwrap().data, img.data);
}

#[test]
fn abs_diff_and_binarize_are_pixel_wise() {
    let a = NormalizedFrame::new(4, 1, vec![0, 200, 30, 55]).unwrap();
    let b = NormalizedFrame::new(4, 1, vec![255, 100, 30, 30]).unwrap();
    let d = abs_diff(&a, &b);
    assert_eq!(d.data, vec![255, 100, 0, 25]);
    let m = binarize(&d, 25, 255);
    assert_eq!(m.data, vec![255, 255, 0, 0]);
}

#[test]
fn dilate_grows_by_radius() {
    let mut data = vec![0u8; 25];
    data[12] = 255;
    let img = NormalizedFrame::new(5, 5, data).unwrap();
    let one = dilate(&img, 1, 255);
    let expected_one: Vec<u8> = (0..25)
        .map(|i| {
            let (x, y) = (i % 5, i / 5);
            if (1..=3).contains(&x) && (1..=3).contains(&y) { 255 } else { 0 }
        })
        .collect();
    assert_eq!(one.data, expected_one);
    assert_eq!(dilate(&img, 2, 7).data, vec![7u8; 25]);
    assert_eq!(dilate(&img, 0, 255).data, img.data);
}

#[test]
fn regions_follow_eight_connectivity() {
    // two diagonal pixels form one region; a far pixel forms another
    let mut data = vec![0u8; 36];
    data[0] = 1;
    data[7] = 1;
    data[35] = 1;
    let img = NormalizedFrame::new(6, 6, data).unwrap();
    let regions = extract_regions(&img);
    assert_eq!(regions.len(), 2);
    assert_eq!(
        regions[0],
        Region { bbox: BoundingBox { x: 0, y: 0, width: 2, height: 2 }, area: 2, rim: 2 }
    );
    assert_eq!(
        regions[1],
        Region { bbox: BoundingBox { x: 5, y: 5, width: 1, height: 1 }, area: 1, rim: 1 }
    );
    assert!(extract_regions(&gray(6, 6, 0)).is_empty());
}

#[test]
fn select_boxes_keeps_larger_regions() {
    // enclosed areas: 841, 499 and 501
    let a = Region { bbox: BoundingBox { x: 0, y: 0, width: 30, height: 30 }, area: 900, rim: 116 };
    let b = Region { bbox: BoundingBox { x: 40, y: 0, width: 10, height: 50 }, area: 540, rim: 80 };
    let c = Region { bbox: BoundingBox { x: 0, y: 40, width: 25, height: 25 }, area: 550, rim: 96 };
    let kept = select_boxes(&vec![a, b, c], 500);
    assert_eq!(kept, vec![a.bbox, c.bbox]);
}

#[test]
fn custom_config_changes_policy() {
    let config = DetectorConfig { threshold: 25, binary_value: 255, dilate_size: 3, dilate_iterations: 1, min_area: 10 };
    let mut det = MotionDetector::with_config(config);
    let blank = gray(50, 50, 0);
    let moved = with_block(&blank, 20, 20, 3, 255);
    assert!(det.detect(blank).unwrap().is_empty());
    let boxes = det.detect(moved).unwrap();
    assert_eq!(boxes, vec![BoundingBox { x: 19, y: 19, width: 5, height: 5 }]);
    assert_eq!(DetectorConfig::standard().min_area, 500);
}

#[test]
fn outline_is_two_pixels_of_green() {
    let frame = color(10, 10, [1, 2, 3]);
    let boxes = [BoundingBox { x: 2, y: 2, width: 5, height: 5 }];
    let det = MotionDetector::new().unwrap();
    let out = det.draw_bounding_boxes(&frame, &boxes).unwrap();
    let at = |x: usize, y: usize| {
        let i = 3 * (y * 10 + x);
        [out.data[i], out.data[i + 1], out.data[i + 2]]
    };
    assert_eq!(at(2, 2), [0, 255, 0]);
    assert_eq!(at(3, 3), [0, 255, 0]);
    assert_eq!(at(4, 4), [1, 2, 3]);
    assert_eq!(at(5, 4), [0, 255, 0]);
    assert_eq!(at(6, 6), [0, 255, 0]);
    assert_eq!(at(7, 7), [1, 2, 3]);
    assert_eq!(at(1, 1), [1, 2, 3]);
}

#[test]
fn ring_and_bent_shapes_are_single_regions() {
    // a hollow square and, beside it, a U whose arms only meet at the bottom
    let w = 12;
    let mut data = vec![0u8; w * 8];
    for i in 0..5 {
        data[0 * w + i] = 9;
        data[4 * w + i] = 9;
        data[i * w] = 9;
        data[i * w + 4] = 9;
    }
    for row in 1..7 {
        data[row * w + 7] = 9;
        data[row * w + 10] = 9;
    }
    data[7 * w + 8] = 9;
    data[7 * w + 9] = 9;
    data[6 * w + 8] = 0;
    let img = NormalizedFrame::new(w, 8, data).unwrap();
    let regions = extract_regions(&img);
    assert_eq!(regions.len(), 2);
    // the hole of the square is filled; the inside of the U is open above
    assert_eq!(
        regions[0],
        Region { bbox: BoundingBox { x: 0, y: 0, width: 5, height: 5 }, area: 25, rim: 16 }
    );
    assert_eq!(
        regions[1],
        Region { bbox: BoundingBox { x: 7, y: 1, width: 4, height: 7 }, area: 14, rim: 14 }
    );
}

#[test]
fn block_area_decides_reporting() {
    // a block grows by one pixel on each side under dilation (less at the
    // border of the image); the area inside its outline, through the centres
    // of the outline pixels, must exceed 500 to be reported
    for (x, y) in [(0usize, 0usize), (30, 40), (160 - 25, 120 - 25)] {
        for side in [10usize, 20, 21, 22, 25] {
            let blank = gray(160, 120, 0);
            let moved = with_block(&blank, x, y, side, 200);
            let mut det = MotionDetector::new().unwrap();
            assert!(det.detect(blank).unwrap().is_empty());
            let boxes = det.detect(moved).unwrap();
            let x0 = x.saturating_sub(1);
            let y0 = y.saturating_sub(1);
            let x1 = (x + side + 1).min(160);
            let y1 = (y + side + 1).min(120);
            if (x1 - x0 - 1) * (y1 - y0 - 1) <= 500 {
                assert!(boxes.is_empty());
            } else {
                assert_eq!(boxes.len(), 1);
                assert!(contains(&boxes[0], x, y, x + side, y + side));
                assert_eq!(
                    boxes[0],
                    BoundingBox { x: x0, y: y0, width: x1 - x0, height: y1 - y0 }
                );
            }
        }
    }
}

#[test]
fn block_in_a_ring_is_not_reported_apart() {
    let blank = gray(300, 300, 0);
    let mut data = blank.data.clone();
    for y in 50..210 {
        for x in 50..210 {
            let in_hole = (70..190).contains(&x) && (70..190).contains(&y);
            let in_block = (110..150).contains(&x) && (110..150).contains(&y);
            if !in_hole || in_block {
                data[y * 300 + x] = 255;
            }
        }
    }
    let moved = NormalizedFrame::new(300, 300, data).unwrap();
    let mut det = MotionDetector::new().unwrap();
    assert!(det.detect(blank).unwrap().is_empty());
    let boxes = det.detect(moved).unwrap();
    assert_eq!(boxes, vec![BoundingBox { x: 49, y: 49, width: 162, height: 162 }]);
}

#[test]
fn rectangle_of_twenty_one_is_below_the_minimum() {
    // grows to 23 by 23 pixels, which enclose 22 * 22 = 484
    let blank = gray(100, 100, 0);
    let moved = with_block(&blank, 30, 30, 21, 255);
    let mut det = MotionDetector::new().unwrap();
    assert!(det.detect(blank).unwrap().is_empty());
    assert!(det.detect(moved).unwrap().is_empty());
}

#[test]
fn zero_sized_normalized_frame_is_invalid() {
    let mut det = MotionDetector::new().unwrap();
    let empty = NormalizedFrame::new(0, 4, Vec::new()).unwrap();
    assert_eq!(det.detect(empty.clone()), Err(MotionError::InvalidFrame));
    assert!(det.detect(gray(8, 8, 0)).unwrap().is_empty());
    assert_eq!(det.detect(empty), Err(MotionError::InvalidFrame));
    assert!(det.detect(gray(8, 8, 0)).unwrap().is_empty());
}

#[test]
fn blur_kernel_is_configurable() {
    let config = DetectorConfig::standard();
    assert_eq!(
        MotionDetector::with_blur(config, vec![1, 1]).err(),
        Some(MotionError::ProcessingError)
    );
    // a one-tap kernel leaves the luminance as it is
    let frame = color_with_block(40, 30, 5, 5, 3);
    let plain = normalize_with_kernel(&frame, &vec![1]).unwrap();
    assert_eq!(plain.data, to_gray(&frame).data);
    assert_eq!(
        normalize_with_kernel(&frame, &vec![2, 2]).unwrap_err(),
        MotionError::ProcessingError
    );
    let mut det = MotionDetector::with_blur(config, vec![1]).unwrap();
    assert!(det.detect_motion(&color(160, 120, [0, 0, 0])).unwrap().is_empty());
    let boxes = det.detect_motion(&color_with_block(160, 120, 60, 40, 30)).unwrap();
    assert_eq!(boxes, vec![BoundingBox { x: 59, y: 39, width: 32, height: 32 }]);
}
