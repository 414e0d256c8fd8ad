use vstd::prelude::*;

verus! {

/// The ways in which the motion pipeline can fail.
#[derive(Clone, Copy, Debug, PartialEq, Eq, Structural)]
pub enum MotionError {
    /// The frame source could not be opened.
    DeviceUnavailable,
    /// A frame has a zero dimension, a pixel buffer of the wrong length, or
    /// a size that differs from the reference frame.
    InvalidFrame,
    /// An image transform failed for a reason other than its dimensions.
    ProcessingError,
    /// The frame source delivered no data: the ordinary end of a stream.
    EmptyFrame,
}

/// A raw colour frame: `width * height` pixels of three 8-bit channels in
/// blue, green, red order, row by row.
#[derive(Clone, Debug)]
pub struct Frame {
    pub width: usize,
    pub height: usize,
    pub data: Vec<u8>,
}

/// A single-channel 8-bit image, `width * height` bytes row by row.
#[derive(Clone, Debug)]
pub struct NormalizedFrame {
    pub width: usize,
    pub height: usize,
    pub data: Vec<u8>,
}

/// An axis-aligned rectangle in pixel coordinates.
#[derive(Clone, Copy, Debug, PartialEq, Eq, Structural)]
pub struct BoundingBox {
    pub x: usize,
    pub y: usize,
    pub width: usize,
    pub height: usize,
}

impl Frame {
    /// The pixel buffer holds exactly three bytes per pixel.
    pub open spec fn wf(&self) -> bool {
        self.data@.len() == self.width * self.height * 3
    }

    /// Builds a frame, refusing a buffer whose length does not match.
    pub fn new(width: usize, height: usize, data: Vec<u8>) -> (r: Result<Frame, MotionError>)
        ensures
            r is Ok <==> data@.len() == width * height * 3,
            r is Ok ==> r->Ok_0.wf() && r->Ok_0.width == width && r->Ok_0.height == height
                && r->Ok_0.data@ == data@,
            r is Err ==> r->Err_0 == MotionError::InvalidFrame,
    {
        match width.checked_mul(height) {
            Some(n) => match n.checked_mul(3) {
                Some(m) => {
                    if data.len() == m {
                        Ok(Frame { width, height, data })
                    } else {
                        Err(MotionError::InvalidFrame)
                    }
                },
                None => {
                    // a buffer's length fits in a usize, so it cannot match
                    let len = data.len();
                    Err(MotionError::InvalidFrame)
                },
            },
            None => {
                // a buffer's length fits in a usize, so it cannot match
                let len = data.len();
                proof {
                    assert(width * height * 3 >= width * height) by (nonlinear_arith)
                        requires width * height > len;
                }
                Err(MotionError::InvalidFrame)
            },
        }
    }
}

impl NormalizedFrame {
    /// The pixel buffer holds exactly one byte per pixel.
    pub open spec fn wf(&self) -> bool {
        self.data@.len() == self.width * self.height
    }

    /// Builds a single-channel image, refusing a buffer whose length does not
    /// match.
    pub fn new(width: usize, height: usize, data: Vec<u8>) -> (r: Result<
        NormalizedFrame,
        MotionError,
    >)
        ensures
            r is Ok <==> data@.len() == width * height,
            r is Ok ==> r->Ok_0.wf() && r->Ok_0.width == width && r->Ok_0.height == height
                && r->Ok_0.data@ == data@,
            r is Err ==> r->Err_0 == MotionError::InvalidFrame,
    {
        match width.checked_mul(height) {
            Some(n) => {
                if data.len() == n {
                    Ok(NormalizedFrame { width, height, data })
                } else {
                    Err(MotionError::InvalidFrame)
                }
            },
            None => {
                // a buffer's length fits in a usize, so it cannot match
                let len = data.len();
                Err(MotionError::InvalidFrame)
            },
        }
    }
}

} // verus!
