//! Pixels of indexed-color images.

use vstd::prelude::*;

verus! {

/// A pixel of an indexed-color image: the index of a palette entry.
#[derive(Debug, Clone, Copy, PartialEq, Eq)]
pub struct Indexed(u8);

impl View for Indexed {
    type V = u8;

    closed spec fn view(&self) -> u8 {
        self.0
    }
}

impl Indexed {
    /// The pixel that refers to the palette entry `value`.
    pub fn new(value: u8) -> (pixel: Indexed)
        ensures
            pixel@ == value,
    {
        Indexed(value)
    }

    /// The palette index of this pixel.
    pub fn value(&self) -> (value: u8)
        ensures
            value == self@,
    {
        self.0
    }
}

} // verus!
