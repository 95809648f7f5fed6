use vstd::prelude::*;
use crate::rgb::{RgbBuffer, byte_len};

verus! {

/// A source image waiting for its assignments to be computed.
#[derive(Clone)]
pub struct UnprocessedPreset {
    pub name: String,
    pub width: u32,
    pub height: u32,
    pub source_img: Vec<u8>,
}

/// A source image together with, for each target slot, the source pixel it takes.
#[derive(Clone)]
pub struct Preset {
    pub inner: UnprocessedPreset,
    pub assignments: Vec<usize>,
}

/// How the assignment of source pixels to target slots is computed.
#[derive(Clone, Copy, Debug)]
pub enum Algorithm {
    Optimal,
    Genetic,
}

impl UnprocessedPreset {
    /// The preset's pixels as an image, or `None` when its buffer is shorter
    /// than its width and height need.
    pub fn into_image(self) -> (img: Option<RgbBuffer>)
        ensures
            img is Some <==> byte_len(self.width as int, self.height as int) <= self.source_img@.len(),
            img matches Some(i) ==> i.view() == (self.width, self.height, self.source_img@),
    {
        RgbBuffer::from_raw(self.width, self.height, self.source_img)
    }
}

} // verus!
