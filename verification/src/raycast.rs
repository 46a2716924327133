//! Tile distances on the map grids. (Turning screen positions into tiles works on
//! `f32` coordinates and runs outside this library.)

use vstd::prelude::*;

verus! {

/// `|x|` of an integer.
pub open spec fn abs_int(x: int) -> int {
    if x >= 0 { x } else { -x }
}

/// The larger of two integers.
pub open spec fn max_int(a: int, b: int) -> int {
    if a >= b { a } else { b }
}

/// `a - b` of the coordinates taken as `i32` (as the grid code does) fits in an `i32`.
pub open spec fn diff_fits(a: u32, b: u32) -> bool {
    i32::MIN <= (a as i32) - (b as i32) <= i32::MAX
}

fn abs_diff_i32(a: i32, b: i32) -> (r: u32)
    requires
        i32::MIN <= a - b <= i32::MAX,
    ensures
        r == abs_int(a - b),
{
    let d = a - b;
    if d >= 0 {
        d as u32
    } else if d == i32::MIN {
        0x8000_0000u32
    } else {
        (-d) as u32
    }
}

/// Distance between two tiles of a square grid (Chebyshev distance), the coordinates
/// taken as `i32`.
pub fn tile_distance_square(x0: u32, y0: u32, x1: u32, y1: u32) -> (r: u32)
    requires
        diff_fits(x0, x1),
        diff_fits(y0, y1),
    ensures
        r == max_int(abs_int((x0 as i32) - (x1 as i32)), abs_int((y0 as i32) - (y1 as i32))),
{
    let dx = abs_diff_i32(x0 as i32, x1 as i32);
    let dy = abs_diff_i32(y0 as i32, y1 as i32);
    if dx >= dy { dx } else { dy }
}

/// Distance between two hexes in axial coordinates: the largest of the differences in
/// q, in r and in q + r, the coordinates taken as `i32`.
pub fn tile_distance_hex(q0: u32, r0: u32, q1: u32, r1: u32) -> (r: u32)
    requires
        diff_fits(q0, q1),
        diff_fits(r0, r1),
        i32::MIN <= (q0 as i32) + (r0 as i32) <= i32::MAX,
        i32::MIN <= (q1 as i32) + (r1 as i32) <= i32::MAX,
        i32::MIN <= ((q0 as i32) + (r0 as i32)) - ((q1 as i32) + (r1 as i32)) <= i32::MAX,
    ensures
        r == max_int(max_int(abs_int((q0 as i32) - (q1 as i32)), abs_int((r0 as i32) - (r1 as i32))),
            abs_int(((q0 as i32) + (r0 as i32)) - ((q1 as i32) + (r1 as i32)))),
{
    let dq = abs_diff_i32(q0 as i32, q1 as i32);
    let dr = abs_diff_i32(r0 as i32, r1 as i32);
    let ds = abs_diff_i32((q0 as i32) + (r0 as i32), (q1 as i32) + (r1 as i32));
    let m = if dq >= dr { dq } else { dr };
    if m >= ds { m } else { ds }
}

} // verus!
