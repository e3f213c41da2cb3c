//! Integer line rasterization (Bresenham's algorithm).
//!
//! A rasterized line is pinned down by a closed-form model: the segment is
//! mapped into the first octant, where the pixel at step `k` is
//! `(x0 + k, y0 + k*dy/dx)`, and mapped back.

use vstd::prelude::*;
use vstd::arithmetic::div_mod::{
    lemma_div_is_ordered, lemma_div_multiples_vanish, lemma_div_plus_one, lemma_div_pos_is_pos,
    lemma_fundamental_div_mod, lemma_fundamental_div_mod_converse,
    lemma_mod_division_less_than_divisor,
};
use vstd::arithmetic::mul::lemma_mul_inequality;

verus! {

/// Largest coordinate magnitude the rasterizer accepts. Endpoints in this
/// range keep every delta and every error term of the Bresenham walk inside
/// `i32`.
pub const MAX_COORD: i32 = 0x3fff_ffff;

/// A pixel coordinate as the mathematical pair of its coordinates.
pub open spec fn pt(p: (i32, i32)) -> (int, int) {
    (p.0 as int, p.1 as int)
}

/// The coordinate range the rasterizer accepts.
pub open spec fn coord_ok(p: (int, int)) -> bool {
    &&& -(MAX_COORD as int) <= p.0 <= MAX_COORD as int
    &&& -(MAX_COORD as int) <= p.1 <= MAX_COORD as int
}

/// Which of the eight octants the segment from `a` to `b` falls in,
/// numbered so that `oct_to` maps the segment onto a shallow rightward one.
pub open spec fn octant(a: (int, int), b: (int, int)) -> int {
    let dx0 = b.0 - a.0;
    let dy0 = b.1 - a.1;
    let q4 = dy0 < 0;
    let dx1 = if q4 { -dx0 } else { dx0 };
    let dy1 = if q4 { -dy0 } else { dy0 };
    let q2 = dx1 < 0;
    let dx2 = if q2 { dy1 } else { dx1 };
    let dy2 = if q2 { -dx1 } else { dy1 };
    let q1 = dx2 < dy2;
    (if q4 { 4int } else { 0int }) + (if q2 { 2int } else { 0int }) + (if q1 { 1int } else { 0int })
}

/// Maps a point into octant `o`.
pub open spec fn oct_to(o: int, p: (int, int)) -> (int, int) {
    if o == 0 { (p.0, p.1) }
    else if o == 1 { (p.1, p.0) }
    else if o == 2 { (p.1, -p.0) }
    else if o == 3 { (-p.0, p.1) }
    else if o == 4 { (-p.0, -p.1) }
    else if o == 5 { (-p.1, -p.0) }
    else if o == 6 { (-p.1, p.0) }
    else { (p.0, -p.1) }
}

/// Maps a point back out of octant `o`; the inverse of `oct_to`.
pub open spec fn oct_from(o: int, p: (int, int)) -> (int, int) {
    if o == 0 { (p.0, p.1) }
    else if o == 1 { (p.1, p.0) }
    else if o == 2 { (-p.1, p.0) }
    else if o == 3 { (-p.0, p.1) }
    else if o == 4 { (-p.0, -p.1) }
    else if o == 5 { (-p.1, -p.0) }
    else if o == 6 { (p.1, -p.0) }
    else { (p.0, -p.1) }
}

/// The ordered pixel sequence of the Bresenham line from `a` to `b`,
/// both endpoints included.
#[verifier::opaque]
pub open spec fn rasterize_spec(a: (int, int), b: (int, int)) -> Seq<(int, int)> {
    let o = octant(a, b);
    let s = oct_to(o, a);
    let e = oct_to(o, b);
    let dx = e.0 - s.0;
    let dy = e.1 - s.1;
    Seq::new((dx + 1) as nat, |k: int|
        oct_from(o, (s.0 + k, s.1 + (if dx == 0 { 0int } else { k * dy / dx }))))
}

/// The drawn midpoint of the line from `a` to `b`: the pixel at the
/// half-length index of the rasterized line.
#[verifier::opaque]
pub open spec fn mid_spec(a: (int, int), b: (int, int)) -> (int, int) {
    let s = rasterize_spec(a, b);
    s[s.len() as int / 2]
}

/// `w` lies between `u` and `v`, whichever order they come in.
pub open spec fn between(u: int, v: int, w: int) -> bool {
    (u <= w <= v) || (v <= w <= u)
}

proof fn lemma_oct_roundtrip(o: int, p: (int, int))
    requires
        0 <= o < 8,
    ensures
        oct_from(o, oct_to(o, p)) == p,
{
}

/// In octant space the segment runs rightward and shallow: with
/// `s = oct_to(o, a)` and `e = oct_to(o, b)`, `0 <= e.1 - s.1 <= e.0 - s.0`.
proof fn lemma_octant_props(a: (int, int), b: (int, int))
    ensures
        0 <= octant(a, b) < 8,
        oct_from(octant(a, b), oct_to(octant(a, b), a)) == a,
        oct_from(octant(a, b), oct_to(octant(a, b), b)) == b,
        0 <= oct_to(octant(a, b), b).1 - oct_to(octant(a, b), a).1
            <= oct_to(octant(a, b), b).0 - oct_to(octant(a, b), a).0,
{
    lemma_oct_roundtrip(octant(a, b), a);
    lemma_oct_roundtrip(octant(a, b), b);
}

proof fn lemma_floor_step(k: int, dx: int, dy: int)
    requires
        0 < dx,
        0 <= dy <= dx,
        0 <= k,
    ensures
        k * dy / dx <= (k + 1) * dy / dx <= k * dy / dx + 1,
{
    assert((k + 1) * dy == k * dy + dy) by (nonlinear_arith);
    lemma_div_is_ordered(k * dy, (k + 1) * dy, dx);
    lemma_div_is_ordered((k + 1) * dy, k * dy + dx, dx);
    lemma_div_plus_one(k * dy, dx);
}

proof fn lemma_floor_bounds(k: int, dx: int, dy: int)
    requires
        0 < dx,
        0 <= dy <= dx,
        0 <= k <= dx,
    ensures
        0 <= k * dy / dx <= dy,
        k == 0 ==> k * dy / dx == 0,
        k == dx ==> k * dy / dx == dy,
{
    assert(0 <= k * dy) by (nonlinear_arith)
        requires 0 <= k, 0 <= dy;
    lemma_div_pos_is_pos(k * dy, dx);
    lemma_mul_inequality(k, dx, dy);
    lemma_div_is_ordered(k * dy, dx * dy, dx);
    lemma_div_multiples_vanish(dy, dx);
    assert(dx * dy == dy * dx) by (nonlinear_arith);
    assert(k == 0 ==> k * dy == 0) by (nonlinear_arith);
    if k == 0 {
        lemma_div_pos_is_pos(0, dx);
        assert(0int / dx == 0) by {
            lemma_div_multiples_vanish(0, dx);
            assert(dx * 0 == 0) by (nonlinear_arith);
        }
    }
}

/// Every rasterized line contains at least one pixel; its first pixel is the
/// start point and its last pixel is the end point.
pub proof fn lemma_rasterize_endpoints(a: (int, int), b: (int, int))
    ensures
        rasterize_spec(a, b).len() >= 1,
        rasterize_spec(a, b).first() == a,
        rasterize_spec(a, b).last() == b,
        rasterize_spec(a, b).contains(a),
        rasterize_spec(a, b).contains(b),
{
    assert(rasterize_spec(a, b).len() >= 1 ==> rasterize_spec(a, b).contains(
        rasterize_spec(a, b)[0],
    ) && rasterize_spec(a, b).contains(rasterize_spec(a, b)[rasterize_spec(a, b).len() - 1]));
    reveal(rasterize_spec);
    lemma_octant_props(a, b);
    let o = octant(a, b);
    let s = oct_to(o, a);
    let e = oct_to(o, b);
    let dx = e.0 - s.0;
    let dy = e.1 - s.1;
    if dx > 0 {
        lemma_floor_bounds(0, dx, dy);
        lemma_floor_bounds(dx, dx, dy);
        assert(rasterize_spec(a, b).last() == oct_from(o, (s.0 + dx, s.1 + dx * dy / dx)));
        assert((s.0 + dx, s.1 + dy) == e);
    } else {
        assert(s == e);
    }
}

/// Consecutive pixels of a rasterized line differ by at most one in each
/// axis (8-connectivity).
pub proof fn lemma_rasterize_connected(a: (int, int), b: (int, int))
    ensures
        forall|i: int| 0 <= i && i + 1 < rasterize_spec(a, b).len() ==> {
            let p = #[trigger] rasterize_spec(a, b)[i];
            let q = rasterize_spec(a, b)[i + 1];
            between(-1, 1, q.0 - p.0) && between(-1, 1, q.1 - p.1)
        },
{
    reveal(rasterize_spec);
    lemma_octant_props(a, b);
    let o = octant(a, b);
    let s = oct_to(o, a);
    let e = oct_to(o, b);
    let dx = e.0 - s.0;
    let dy = e.1 - s.1;
    assert forall|i: int| 0 <= i && i + 1 < rasterize_spec(a, b).len() implies {
        let p = #[trigger] rasterize_spec(a, b)[i];
        let q = rasterize_spec(a, b)[i + 1];
        between(-1, 1, q.0 - p.0) && between(-1, 1, q.1 - p.1)
    } by {
        if dx > 0 {
            lemma_floor_step(i, dx, dy);
        }
    }
}

/// Every pixel of a rasterized line lies in the bounding box of the two
/// endpoints.
pub proof fn lemma_rasterize_in_box(a: (int, int), b: (int, int))
    ensures
        forall|i: int| 0 <= i < rasterize_spec(a, b).len() ==> {
            let p = #[trigger] rasterize_spec(a, b)[i];
            between(a.0, b.0, p.0) && between(a.1, b.1, p.1)
        },
{
    reveal(rasterize_spec);
    lemma_octant_props(a, b);
    let o = octant(a, b);
    let s = oct_to(o, a);
    let e = oct_to(o, b);
    let dx = e.0 - s.0;
    let dy = e.1 - s.1;
    assert forall|i: int| 0 <= i < rasterize_spec(a, b).len() implies {
        let p = #[trigger] rasterize_spec(a, b)[i];
        between(a.0, b.0, p.0) && between(a.1, b.1, p.1)
    } by {
        if dx > 0 {
            lemma_floor_bounds(i, dx, dy);
        }
    }
}

/// The drawn midpoint of a line is one of its rasterized pixels.
pub proof fn lemma_mid_on_line(a: (int, int), b: (int, int))
    ensures
        rasterize_spec(a, b).len() >= 1,
        0 <= rasterize_spec(a, b).len() as int / 2 < rasterize_spec(a, b).len(),
        rasterize_spec(a, b).contains(mid_spec(a, b)),
{
    reveal(mid_spec);
    lemma_rasterize_endpoints(a, b);
    let s = rasterize_spec(a, b);
    let i = s.len() as int / 2;
    assert(0 <= i < s.len()) by {
        lemma_div_pos_is_pos(s.len() as int, 2);
        lemma_fundamental_div_mod(s.len() as int, 2);
        lemma_mod_division_less_than_divisor(s.len() as int, 2);
    }
    assert(s.contains(s[i]));
}

/// A line segment between two integer points.
#[derive(Clone, Copy)]
pub struct Line {
    pub start: (i32, i32),
    pub end: (i32, i32),
}

impl Line {
    pub fn new(p1: (i32, i32), p2: (i32, i32)) -> (r: Line)
        ensures
            r.start == p1,
            r.end == p2,
    {
        Line { start: p1, end: p2 }
    }

    /// The ordered pixels of the Bresenham line from `start` to `end`.
    pub fn points(&self) -> (r: Vec<(i32, i32)>)
        requires
            coord_ok(pt(self.start)),
            coord_ok(pt(self.end)),
        ensures
            r@.len() == rasterize_spec(pt(self.start), pt(self.end)).len(),
            forall|i: int| 0 <= i < r@.len() ==>
                pt(#[trigger] r@[i]) == rasterize_spec(pt(self.start), pt(self.end))[i],
    {
        let a = self.start;
        let b = self.end;
        let ghost rs = rasterize_spec(pt(a), pt(b));
        proof {
            lemma_octant_props(pt(a), pt(b));
        }
        let mut dx0 = b.0 - a.0;
        let mut dy0 = b.1 - a.1;
        let mut o: u8 = 0;
        if dy0 < 0 {
            dx0 = -dx0;
            dy0 = -dy0;
            o = o + 4;
        }
        if dx0 < 0 {
            let t = dx0;
            dx0 = dy0;
            dy0 = -t;
            o = o + 2;
        }
        if dx0 < dy0 {
            o = o + 1;
        }
        proof {
            assert(o as int == octant(pt(a), pt(b)));
        }
        let s = oct_to_exec(o, a);
        let e = oct_to_exec(o, b);
        let dx = e.0 - s.0;
        let dy = e.1 - s.1;
        let mut out: Vec<(i32, i32)> = Vec::new();
        if dx == 0 {
            out.push(a);
            proof {
                reveal(rasterize_spec);
                lemma_oct_roundtrip(o as int, pt(a));
                assert(rs.len() == 1);
                assert(rs[0] == pt(a));
            }
            return out;
        }
        let mut x: i32 = s.0;
        let mut y: i32 = s.1;
        let mut err: i32 = dy - dx;
        let mut k: i32 = 0;
        proof {
            lemma_floor_bounds(0, dx as int, dy as int);
            assert((0int) * (dy as int) / (dx as int) == 0);
            assert((0int + 1) * (dy as int) == dy as int) by (nonlinear_arith);
            assert(((0int) * (dy as int) / (dx as int) + 1) * (dx as int) == dx as int)
                by (nonlinear_arith)
                requires (0int) * (dy as int) / (dx as int) == 0;
        }
        while k <= dx
            invariant
                0 < dx as int,
                0 <= dy as int <= dx as int,
                o < 8,
                coord_ok(pt(s)),
                coord_ok(pt(e)),
                o as int == octant(pt(a), pt(b)),
                pt(s) == oct_to(o as int, pt(a)),
                pt(e) == oct_to(o as int, pt(b)),
                dx as int == pt(e).0 - pt(s).0,
                dy as int == pt(e).1 - pt(s).1,
                coord_ok(pt(a)),
                coord_ok(pt(b)),
                rs == rasterize_spec(pt(a), pt(b)),
                0 <= k as int <= dx as int + 1,
                x as int == s.0 as int + k as int,
                y as int == s.1 as int + (k as int) * (dy as int) / (dx as int),
                err as int == (k as int + 1) * (dy as int)
                    - ((k as int) * (dy as int) / (dx as int) + 1) * (dx as int),
                out@.len() == k as int,
                forall|j: int| 0 <= j < k as int ==> pt(#[trigger] out@[j]) == rs[j],
            decreases dx as int + 1 - k as int,
        {
            let ghost ki = k as int;
            let ghost dxi = dx as int;
            let ghost dyi = dy as int;
            let ghost fk = ki * dyi / dxi;
            proof {
                lemma_floor_bounds(ki, dxi, dyi);
                lemma_fundamental_div_mod(ki * dyi, dxi);
                lemma_mod_division_less_than_divisor(ki * dyi, dxi);
                assert((fk + 1) * dxi == fk * dxi + dxi) by (nonlinear_arith);
                assert(dxi * fk == fk * dxi) by (nonlinear_arith);
                assert((ki + 1) * dyi == ki * dyi + dyi) by (nonlinear_arith);
                // err == dy - dx + (k*dy) % dx, so dy - dx <= err <= dy - 1
                assert(err as int == dyi - dxi + (ki * dyi) % dxi);
            }
            let p = oct_from_exec(o, (x, y));
            out.push(p);
            proof {
                reveal(rasterize_spec);
                assert(rs[ki] == oct_from(o as int,
                    (oct_to(o as int, pt(a)).0 + ki,
                     oct_to(o as int, pt(a)).1 + ki * dyi / dxi)));
                assert(pt(p) == rs[ki]);
            }
            let ghost fk1 = (ki + 1) * dyi / dxi;
            if err >= 0 {
                proof {
                    assert((ki + 1) * dyi == (fk + 1) * dxi + (err as int)) by (nonlinear_arith)
                        requires err as int == (ki + 1) * dyi - (fk + 1) * dxi;
                    lemma_fundamental_div_mod_converse((ki + 1) * dyi, dxi, fk + 1, err as int);
                    assert(fk1 == fk + 1);
                }
                y = y + 1;
                err = err - dx;
            } else {
                proof {
                    assert((ki + 1) * dyi == fk * dxi + (err as int + dxi)) by (nonlinear_arith)
                        requires err as int == (ki + 1) * dyi - (fk + 1) * dxi,
                            (fk + 1) * dxi == fk * dxi + dxi;
                    lemma_fundamental_div_mod_converse((ki + 1) * dyi, dxi, fk, err as int + dxi);
                    assert(fk1 == fk);
                }
            }
            x = x + 1;
            err = err + dy;
            k = k + 1;
            proof {
                if ki + 1 <= dxi {
                    lemma_floor_bounds(ki + 1, dxi, dyi);
                }
                assert((fk1 + 1) * dxi == fk1 * dxi + dxi) by (nonlinear_arith);
                assert((ki + 2) * dyi == (ki + 1) * dyi + dyi) by (nonlinear_arith);
            }
        }
        proof {
            reveal(rasterize_spec);
            assert(out@.len() == rs.len());
        }
        out
    }

    /// The drawn midpoint of the line: the pixel at the half-length index of
    /// the rasterized line, guaranteed to be one of its pixels.
    pub fn mid(&self) -> (r: (i32, i32))
        requires
            coord_ok(pt(self.start)),
            coord_ok(pt(self.end)),
        ensures
            pt(r) == mid_spec(pt(self.start), pt(self.end)),
            rasterize_spec(pt(self.start), pt(self.end)).contains(pt(r)),
    {
        proof {
            reveal(mid_spec);
            lemma_mid_on_line(pt(self.start), pt(self.end));
            lemma_rasterize_endpoints(pt(self.start), pt(self.end));
        }
        let points = self.points();
        let n = points.len();
        points[n / 2]
    }
}

fn oct_to_exec(o: u8, p: (i32, i32)) -> (r: (i32, i32))
    requires
        o < 8,
        coord_ok(pt(p)),
    ensures
        pt(r) == oct_to(o as int, pt(p)),
        coord_ok(pt(r)),
{
    match o {
        0 => (p.0, p.1),
        1 => (p.1, p.0),
        2 => (p.1, -p.0),
        3 => (-p.0, p.1),
        4 => (-p.0, -p.1),
        5 => (-p.1, -p.0),
        6 => (-p.1, p.0),
        _ => (p.0, -p.1),
    }
}

fn oct_from_exec(o: u8, p: (i32, i32)) -> (r: (i32, i32))
    requires
        o < 8,
        coord_ok(pt(p)),
    ensures
        pt(r) == oct_from(o as int, pt(p)),
        coord_ok(pt(r)),
{
    match o {
        0 => (p.0, p.1),
        1 => (p.1, p.0),
        2 => (-p.1, p.0),
        3 => (-p.0, p.1),
        4 => (-p.0, -p.1),
        5 => (-p.1, -p.0),
        6 => (p.1, -p.0),
        _ => (p.0, -p.1),
    }
}

} // verus!
