//! A stochastic ray tracer on exact fixed-point arithmetic: rays, spheres,
//! a bounding-volume hierarchy, scattering materials and the color integrator.
use vstd::prelude::*;

pub mod arith;
pub mod random;
pub mod vector3;
pub mod ray;
pub mod bvh;
pub mod hit;
pub mod sphere;
pub mod moving_sphere;
pub mod hit_objects;
pub mod texture;
pub mod material;
pub mod render;
pub mod camera;

use arith::ONE;

verus! {

/// Pi in fixed-point units.
pub const PI_FX: i64 = 205887;

/// A channel value clamped to `[0, 0.999]` and scaled to a byte.
pub open spec fn spec_pixel_value(c: int) -> int {
    let k = if c < 0 { 0 } else if c > ONE - 66 { ONE - 66 } else { c };
    (256 * k) / (ONE as int)
}

pub fn to_pixel_value(c: i64) -> (r: u8)
    ensures
        r == spec_pixel_value(c as int),
{
    let k: i64 = if c < 0 {
        0
    } else if c > ONE - 66 {
        ONE - 66
    } else {
        c
    };
    assert(0 <= (256 * k) / 65536 <= 255) by (nonlinear_arith)
        requires 0 <= k <= 65536 - 66;
    ((256 * k) / ONE) as u8
}

/// An angle in degrees converted to radians (both fixed-point), rounded down.
pub fn degrees_to_radians(degrees: i64) -> (r: i64)
    requires
        -0x1_0000_0000_0000 <= degrees <= 0x1_0000_0000_0000,
    ensures
        r == (degrees * PI_FX) / (180 * ONE),
{
    assert(-0x4_0000_0000_0000_0000 <= degrees * PI_FX <= 0x4_0000_0000_0000_0000) by (nonlinear_arith)
        requires -0x1_0000_0000_0000 <= degrees <= 0x1_0000_0000_0000;
    let q = arith::floor_div((degrees as i128) * (PI_FX as i128), 180 * (ONE as i128));
    assert(-0x1_0000_0000_0000 <= q <= 0x1_0000_0000_0000) by (nonlinear_arith)
        requires q == (degrees * 205887) / 11796480int, -0x1_0000_0000_0000 <= degrees <= 0x1_0000_0000_0000;
    q as i64
}

} // verus!
