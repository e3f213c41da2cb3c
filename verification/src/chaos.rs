//! The chaos method: an alternative fractal renderer that migrates a point
//! toward randomly chosen triangle corners, painting each stop.

use vstd::prelude::*;
use crate::canvas::Image;

verus! {

/// Relies on `rand::random_range`: the result lies in the given (non-empty)
/// range.
#[verifier::external_body]
fn pick_index(n: usize) -> (r: usize)
    requires
        0 < n,
    ensures
        r < n,
{
    rand::random_range(0..n)
}

/// One chaos step: the point halfway (rounding down) between the current
/// point and the chosen corner.
pub fn chaos_step(p: (u32, u32), corner: (u32, u32)) -> (r: (u32, u32))
    requires
        p.0 + corner.0 <= u32::MAX,
        p.1 + corner.1 <= u32::MAX,
    ensures
        r.0 == (p.0 + corner.0) as u32 / 2,
        r.1 == (p.1 + corner.1) as u32 / 2,
{
    ((p.0 + corner.0) / 2, (p.1 + corner.1) / 2)
}

/// Renders a Sierpinski fractal by the chaos method on an 800 x 600 canvas:
/// starting from a black pixel at the origin, repeatedly move halfway toward
/// a random corner of the triangle (400,0), (0,600), (800,600) and paint the
/// stop black. The corners are random, so only the frame is promised: the
/// canvas keeps its dimensions, the origin stays black, and every pixel is
/// either black or background.
pub fn chaos_image() -> (r: Image)
    ensures
        r.wf(),
        r.width() == 800,
        r.height() == 600,
        r.pixels()[(0int, 0int)] == 0u8,
        forall|q: (int, int)| #[trigger] r.pixels().dom().contains(q) ==> (r.pixels()[q] == 0u8
            || r.pixels()[q] == 255u8),
{
    let mut img = Image::with_dims(800, 600);
    img.paint(0, 0);
    let mut p: (u32, u32) = (0, 0);
    let mut cnt: u32 = 10000;
    while cnt > 0
        invariant
            img.wf(),
            img.width() == 800,
            img.height() == 600,
            p.0 < 800,
            p.1 < 600,
            img.pixels()[(0int, 0int)] == 0u8,
            img.pixels().dom().contains((0int, 0int)),
            forall|q: (int, int)| #[trigger] img.pixels().dom().contains(q) ==> (
            img.pixels()[q] == 0u8 || img.pixels()[q] == 255u8),
        decreases cnt,
    {
        cnt = cnt - 1;
        let num = pick_index(3);
        let corner: (u32, u32) = if num == 0 {
            (400, 0)
        } else if num == 1 {
            (0, 600)
        } else {
            (800, 600)
        };
        p = chaos_step(p, corner);
        img.paint(p.0, p.1);
    }
    img
}

} // verus!
