use vstd::prelude::*;

use crate::colour::Rgb;
use crate::image_reader::Image;
use crate::sample::Sample;
use crate::vector2::Vector2;

verus! {

/// Row-major pixel storage that can be read by position.
pub trait ImageContainer {
    /// `at` is a position of the container, which is well formed.
    spec fn holds(&self, at: Vector2) -> bool;

    /// The colour stored at a position.
    spec fn colour_at(&self, at: Vector2) -> Rgb;

    /// Index of a position in the pixel sequence.
    fn idx(&self, at: Vector2) -> (r: usize)
        requires
            self.holds(at),
    ;

    /// Colour at a position.
    fn at(&self, at: Vector2) -> (r: Rgb)
        requires
            self.holds(at),
        ensures
            r == self.colour_at(at),
    ;
}

impl ImageContainer for Image {
    open spec fn holds(&self, at: Vector2) -> bool {
        self.wf() && self.in_bounds(at)
    }

    open spec fn colour_at(&self, at: Vector2) -> Rgb {
        self.pixel(at.x as int, at.y as int)
    }

    fn idx(&self, at: Vector2) -> (r: usize) {
        Image::idx(self, at)
    }

    fn at(&self, at: Vector2) -> (r: Rgb) {
        Image::at(self, at)
    }
}

impl ImageContainer for Sample {
    open spec fn holds(&self, at: Vector2) -> bool {
        self.wf() && self.region.in_bounds(at)
    }

    open spec fn colour_at(&self, at: Vector2) -> Rgb {
        self.region.cell(at.x as int, at.y as int)
    }

    fn idx(&self, at: Vector2) -> (r: usize) {
        Sample::idx(self, at)
    }

    fn at(&self, at: Vector2) -> (r: Rgb) {
        Sample::at(self, at)
    }
}

} // verus!
