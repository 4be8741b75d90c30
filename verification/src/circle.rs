use vstd::prelude::*;

verus! {

/// A pixel position on the raster, or a pin position rounded to the pixel
/// grid. Lines are rasterized between two such points.
#[derive(Clone, Copy, Debug, PartialEq, Eq, Structural)]
pub struct IntegerPoint {
    pub x: i32,
    pub y: i32,
}

/// The circle that the pins are placed on: an integer center and a radius in
/// pixels.
#[derive(Clone, Copy, Debug)]
pub struct Circle {
    pub center: IntegerPoint,
    pub radius: u32,
}

} // verus!
