//! The Sierpinski engine: recursive midpoint subdivision of a triangle onto
//! a canvas.

use vstd::prelude::*;
use crate::canvas::{
    black_pixels, in_rect, lemma_painted_at, lemma_painted_concat, lemma_painted_dom_finite,
    painted, uniform_canvas, Image, MAX_SIZE,
};
use vstd::set_lib::{lemma_int_range, lemma_len_subset, set_int_range};
use crate::line::{between, coord_ok, lemma_mid_on_line, lemma_rasterize_in_box, mid_spec, pt, Line};
use crate::triangle::{triangle_points, Triangle};

verus! {

/// The drawn midpoints of a triangle's three edges: of (p1,p2), (p1,p3) and
/// (p2,p3), in that order.
pub open spec fn edge_mids(p1: (int, int), p2: (int, int), p3: (int, int)) -> (
    (int, int),
    (int, int),
    (int, int),
) {
    (mid_spec(p1, p2), mid_spec(p1, p3), mid_spec(p2, p3))
}

/// The inner triangles drawn by subdividing to the given depth, in drawing
/// order: at each level the triangle of the three edge midpoints, then the
/// three corner sub-triangles, each one level shallower.
pub open spec fn sierpinski_tris(p1: (int, int), p2: (int, int), p3: (int, int), depth: nat) -> Seq<
    ((int, int), (int, int), (int, int)),
>
    decreases depth,
{
    if depth == 0 {
        Seq::empty()
    } else {
        let m = edge_mids(p1, p2, p3);
        seq![m] + sierpinski_tris(p1, m.0, m.1, (depth - 1) as nat) + sierpinski_tris(
            m.0,
            p2,
            m.2,
            (depth - 1) as nat,
        ) + sierpinski_tris(m.1, m.2, p3, (depth - 1) as nat)
    }
}

/// The edge pixels of a list of triangles, in drawing order.
pub open spec fn tris_points(ts: Seq<((int, int), (int, int), (int, int))>) -> Seq<(int, int)>
    decreases ts.len(),
{
    if ts.len() == 0 {
        Seq::empty()
    } else {
        triangle_points(ts.first().0, ts.first().1, ts.first().2) + tris_points(ts.drop_first())
    }
}

/// The initial triangle for a canvas of the given size: the drawn midpoint
/// of the top edge, and the two bottom corners, with the usable bound one
/// below the size so the maximal coordinate stays in bounds.
pub open spec fn initial_triangle(size: int) -> ((int, int), (int, int), (int, int)) {
    let bound = size - 1;
    (mid_spec((0, 0), (bound, 0)), (0, bound), (bound, bound))
}

/// The finished canvas of a render: a background-filled square with the
/// initial triangle's edges and every subdivision triangle's edges painted
/// black.
pub open spec fn render_model(size: int, depth: nat) -> Map<(int, int), u8> {
    let t = initial_triangle(size);
    painted(
        uniform_canvas(size, size, 255u8),
        triangle_points(t.0, t.1, t.2) + tris_points(sierpinski_tris(t.0, t.1, t.2, depth)),
    )
}

/// A sequence concatenation contains exactly what its halves contain.
proof fn lemma_concat_contains<A>(a: Seq<A>, b: Seq<A>, q: A)
    ensures
        (a + b).contains(q) <==> (a.contains(q) || b.contains(q)),
{
    if (a + b).contains(q) {
        let i = choose|i: int| 0 <= i < (a + b).len() && (a + b)[i] == q;
        if i < a.len() {
            assert(a[i] == q);
        } else {
            assert(b[i - a.len()] == q);
        }
    }
    if a.contains(q) {
        let i = choose|i: int| 0 <= i < a.len() && a[i] == q;
        assert((a + b)[i] == q);
    }
    if b.contains(q) {
        let i = choose|i: int| 0 <= i < b.len() && b[i] == q;
        assert((a + b)[a.len() + i] == q);
    }
}

/// The pixels of a concatenation of triangle lists are the two halves'
/// pixels, in order.
proof fn lemma_tris_points_concat(
    a: Seq<((int, int), (int, int), (int, int))>,
    b: Seq<((int, int), (int, int), (int, int))>,
)
    ensures
        tris_points(a + b) == tris_points(a) + tris_points(b),
    decreases a.len(),
{
    if a.len() == 0 {
        assert(a + b =~= b);
        assert(tris_points(a) + tris_points(b) =~= tris_points(b));
    } else {
        lemma_tris_points_concat(a.drop_first(), b);
        assert((a + b).first() == a.first());
        assert((a + b).drop_first() =~= a.drop_first() + b);
        assert((a + b).len() > 0);
        let f = triangle_points(a.first().0, a.first().1, a.first().2);
        assert(f + (tris_points(a.drop_first()) + tris_points(b)) =~= (f + tris_points(
            a.drop_first(),
        )) + tris_points(b));
    }
}

/// One subdivision level: the drawn pixels are the inner triangle's edges
/// followed by the three corner sub-triangles' pixels.
proof fn lemma_sierpinski_unfold(q1: (int, int), q2: (int, int), q3: (int, int), d: nat)
    requires
        d >= 1,
    ensures
        ({
            let m = edge_mids(q1, q2, q3);
            tris_points(sierpinski_tris(q1, q2, q3, d)) == triangle_points(m.0, m.1, m.2)
                + tris_points(sierpinski_tris(q1, m.0, m.1, (d - 1) as nat)) + tris_points(
                sierpinski_tris(m.0, q2, m.2, (d - 1) as nat),
            ) + tris_points(sierpinski_tris(m.1, m.2, q3, (d - 1) as nat))
        }),
{
    let m = edge_mids(q1, q2, q3);
    let ti = seq![m];
    let sa = sierpinski_tris(q1, m.0, m.1, (d - 1) as nat);
    let sb = sierpinski_tris(m.0, q2, m.2, (d - 1) as nat);
    let sc = sierpinski_tris(m.1, m.2, q3, (d - 1) as nat);
    assert(sierpinski_tris(q1, q2, q3, d) == ti + sa + sb + sc);
    lemma_tris_points_concat(ti + sa + sb, sc);
    lemma_tris_points_concat(ti + sa, sb);
    lemma_tris_points_concat(ti, sa);
    assert(ti.len() == 1);
    assert(ti.first() == m);
    assert(tris_points(ti) == triangle_points(m.0, m.1, m.2) + tris_points(ti.drop_first()));
    assert(ti.drop_first().len() == 0);
    assert(tris_points(ti.drop_first()) == Seq::<(int, int)>::empty());
    assert(triangle_points(m.0, m.1, m.2) + Seq::<(int, int)>::empty() =~= triangle_points(
        m.0,
        m.1,
        m.2,
    ));
}

/// Painting four point lists one after the other paints their
/// concatenation.
proof fn lemma_painted_concat4(
    m0: Map<(int, int), u8>,
    a: Seq<(int, int)>,
    b: Seq<(int, int)>,
    c: Seq<(int, int)>,
    d: Seq<(int, int)>,
)
    ensures
        painted(m0, a + b + c + d) == painted(painted(painted(painted(m0, a), b), c), d),
{
    lemma_painted_concat(m0, a, b);
    lemma_painted_concat(m0, a + b, c);
    lemma_painted_concat(m0, a + b + c, d);
}

/// The drawn midpoint of a line between two in-canvas points is in the
/// canvas.
pub proof fn lemma_mid_in_rect(w: int, h: int, a: (int, int), b: (int, int))
    requires
        in_rect(w, h, a),
        in_rect(w, h, b),
    ensures
        in_rect(w, h, mid_spec(a, b)),
{
    reveal(crate::line::mid_spec);
    lemma_mid_on_line(a, b);
    lemma_rasterize_in_box(a, b);
    let s = crate::line::rasterize_spec(a, b);
    let i = s.len() as int / 2;
    assert(between(a.0, b.0, s[i].0) && between(a.1, b.1, s[i].1));
}

/// Recursively subdivides `triangle`, drawing the triangle of the three edge
/// midpoints at each level, down to `iteration_count` levels.
#[verifier::rlimit(100)]
pub fn draw_sierpinski(img: &mut Image, iteration_count: i32, triangle: Triangle)
    requires
        old(img).wf(),
        0 <= iteration_count,
        in_rect(old(img).width(), old(img).height(), pt(triangle.p1)),
        in_rect(old(img).width(), old(img).height(), pt(triangle.p2)),
        in_rect(old(img).width(), old(img).height(), pt(triangle.p3)),
    ensures
        final(img).wf(),
        final(img).width() == old(img).width(),
        final(img).height() == old(img).height(),
        final(img).pixels() == painted(
            old(img).pixels(),
            tris_points(
                sierpinski_tris(
                    pt(triangle.p1),
                    pt(triangle.p2),
                    pt(triangle.p3),
                    iteration_count as nat,
                ),
            ),
        ),
    decreases iteration_count,
{
    let ghost w = old(img).width();
    let ghost h = old(img).height();
    let ghost m0 = old(img).pixels();
    if iteration_count == 0 {
        return;
    }
    proof {
        assert(coord_ok(pt(triangle.p1)) && coord_ok(pt(triangle.p2)) && coord_ok(
            pt(triangle.p3),
        ));
        lemma_mid_in_rect(w, h, pt(triangle.p1), pt(triangle.p2));
        lemma_mid_in_rect(w, h, pt(triangle.p1), pt(triangle.p3));
        lemma_mid_in_rect(w, h, pt(triangle.p2), pt(triangle.p3));
    }
    let p12 = Line::new(triangle.p1, triangle.p2).mid();
    let p13 = Line::new(triangle.p1, triangle.p3).mid();
    let p23 = Line::new(triangle.p2, triangle.p3).mid();
    let inner = Triangle::new(p12, p13, p23);
    img.draw_triangle(&inner);
    let next = iteration_count - 1;
    draw_sierpinski(img, next, Triangle::new(triangle.p1, p12, p13));
    draw_sierpinski(img, next, Triangle::new(p12, triangle.p2, p23));
    draw_sierpinski(img, next, Triangle::new(p13, p23, triangle.p3));
    proof {
        let d = iteration_count as nat;
        let q1 = pt(triangle.p1);
        let q2 = pt(triangle.p2);
        let q3 = pt(triangle.p3);
        let m = edge_mids(q1, q2, q3);
        lemma_sierpinski_unfold(q1, q2, q3, d);
        lemma_painted_concat4(
            m0,
            triangle_points(m.0, m.1, m.2),
            tris_points(sierpinski_tris(q1, m.0, m.1, (d - 1) as nat)),
            tris_points(sierpinski_tris(m.0, q2, m.2, (d - 1) as nat)),
            tris_points(sierpinski_tris(m.1, m.2, q3, (d - 1) as nat)),
        );
    }
}

/// Renders the fractal: a size x size background canvas with the initial
/// triangle drawn and then subdivided `iteration_count` times.
pub fn draw_image(size: u32, iteration_count: i32) -> (r: Image)
    requires
        1 <= size,
        size <= MAX_SIZE,
        size as int * size as int <= usize::MAX as int,
        0 <= iteration_count,
    ensures
        r.wf(),
        r.width() == size as int,
        r.height() == size as int,
        r.pixels() == render_model(size as int, iteration_count as nat),
{
    let mut image = Image::new(size);
    let bound = (size - 1) as i32;
    proof {
        lemma_mid_in_rect(size as int, size as int, (0, 0), (bound as int, 0));
    }
    let top = Line::new((0, 0), (bound, 0)).mid();
    let triangle = Triangle::new(top, (0, bound), (bound, bound));
    image.draw_triangle(&triangle);
    draw_sierpinski(&mut image, iteration_count, triangle);
    proof {
        let t = initial_triangle(size as int);
        let tp = triangle_points(t.0, t.1, t.2);
        let sp = tris_points(sierpinski_tris(t.0, t.1, t.2, iteration_count as nat));
        lemma_painted_concat(uniform_canvas(size as int, size as int, 255u8), tp, sp);
    }
    image
}

/// 3 to the power `n`.
pub open spec fn pow3(n: nat) -> nat
    decreases n,
{
    if n == 0 {
        1
    } else {
        3 * pow3((n - 1) as nat)
    }
}

/// Subdividing to a given depth draws `(3^depth - 1) / 2` inner triangles;
/// with the outer triangle the render draws `1 + (3^depth - 1) / 2` in all.
pub proof fn lemma_sierpinski_count(p1: (int, int), p2: (int, int), p3: (int, int), depth: nat)
    ensures
        2 * sierpinski_tris(p1, p2, p3, depth).len() + 1 == pow3(depth),
    decreases depth,
{
    if depth > 0 {
        let m = edge_mids(p1, p2, p3);
        lemma_sierpinski_count(p1, m.0, m.1, (depth - 1) as nat);
        lemma_sierpinski_count(m.0, p2, m.2, (depth - 1) as nat);
        lemma_sierpinski_count(m.1, m.2, p3, (depth - 1) as nat);
    }
}

/// Every pixel drawn by subdividing to a given depth is also drawn when
/// subdividing one level deeper.
pub proof fn lemma_sierpinski_monotone(
    p1: (int, int),
    p2: (int, int),
    p3: (int, int),
    depth: nat,
    q: (int, int),
)
    requires
        tris_points(sierpinski_tris(p1, p2, p3, depth)).contains(q),
    ensures
        tris_points(sierpinski_tris(p1, p2, p3, (depth + 1) as nat)).contains(q),
    decreases depth,
{
    let m = edge_mids(p1, p2, p3);
    let d1 = (depth - 1) as nat;
    let ti = seq![m];
    let sa = sierpinski_tris(p1, m.0, m.1, d1);
    let sb = sierpinski_tris(m.0, p2, m.2, d1);
    let sc = sierpinski_tris(m.1, m.2, p3, d1);
    let sa1 = sierpinski_tris(p1, m.0, m.1, depth);
    let sb1 = sierpinski_tris(m.0, p2, m.2, depth);
    let sc1 = sierpinski_tris(m.1, m.2, p3, depth);
    lemma_tris_points_concat(ti + sa1 + sb1, sc1);
    lemma_tris_points_concat(ti + sa1, sb1);
    lemma_tris_points_concat(ti, sa1);
    lemma_concat_contains(tris_points(ti + sa1 + sb1), tris_points(sc1), q);
    lemma_concat_contains(tris_points(ti + sa1), tris_points(sb1), q);
    lemma_concat_contains(tris_points(ti), tris_points(sa1), q);
    if depth == 0 {
        assert(false);
    } else {
        lemma_tris_points_concat(ti + sa + sb, sc);
        lemma_tris_points_concat(ti + sa, sb);
        lemma_tris_points_concat(ti, sa);
        lemma_concat_contains(tris_points(ti + sa + sb), tris_points(sc), q);
        lemma_concat_contains(tris_points(ti + sa), tris_points(sb), q);
        lemma_concat_contains(tris_points(ti), tris_points(sa), q);
        if tris_points(sa).contains(q) {
            lemma_sierpinski_monotone(p1, m.0, m.1, d1, q);
        } else if tris_points(sb).contains(q) {
            lemma_sierpinski_monotone(m.0, p2, m.2, d1, q);
        } else if tris_points(sc).contains(q) {
            lemma_sierpinski_monotone(m.1, m.2, p3, d1, q);
        }
    }
}

/// With no subdivision the black pixels are exactly the pixels of the outer
/// triangle's three edges.
pub proof fn lemma_render_depth_zero(size: int, q: (int, int))
    requires
        1 <= size,
        render_model(size, 0).dom().contains(q),
    ensures
        render_model(size, 0)[q] == 0 <==> {
            let t = initial_triangle(size);
            triangle_points(t.0, t.1, t.2).contains(q)
        },
{
    let t = initial_triangle(size);
    let tp = triangle_points(t.0, t.1, t.2);
    let blank = uniform_canvas(size, size, 255u8);
    assert(tp + tris_points(sierpinski_tris(t.0, t.1, t.2, 0)) =~= tp);
    lemma_painted_at(blank, tp, q);
}

/// For a fixed size, every pixel black at a given depth is black one depth
/// deeper: the set of black pixels never shrinks as the depth grows.
pub proof fn lemma_render_monotone(size: int, depth: nat, q: (int, int))
    requires
        1 <= size,
        render_model(size, depth).dom().contains(q),
        render_model(size, depth)[q] == 0,
    ensures
        render_model(size, (depth + 1) as nat).dom().contains(q),
        render_model(size, (depth + 1) as nat)[q] == 0,
{
    let t = initial_triangle(size);
    let tp = triangle_points(t.0, t.1, t.2);
    let sp = tris_points(sierpinski_tris(t.0, t.1, t.2, depth));
    let sp1 = tris_points(sierpinski_tris(t.0, t.1, t.2, (depth + 1) as nat));
    let blank = uniform_canvas(size, size, 255u8);
    lemma_painted_at(blank, tp + sp, q);
    lemma_painted_at(blank, tp + sp1, q);
    lemma_concat_contains(tp, sp, q);
    lemma_concat_contains(tp, sp1, q);
    if (tp + sp).contains(q) {
        if sp.contains(q) {
            lemma_sierpinski_monotone(t.0, t.1, t.2, depth, q);
        }
    }
}



/// The coordinates of a `w` x `h` canvas form a finite set.
proof fn lemma_rect_finite(w: int, h: int)
    ensures
        Set::new(|p: (int, int)| in_rect(w, h, p)).finite(),
    decreases (if h > 0 { h } else { 0int }),
{
    let rect = Set::new(|p: (int, int)| in_rect(w, h, p));
    if h <= 0 || w <= 0 {
        assert(rect =~= Set::<(int, int)>::empty());
    } else {
        lemma_rect_finite(w, h - 1);
        let prev = Set::new(|p: (int, int)| in_rect(w, h - 1, p));
        let f = |x: int| (x, h - 1);
        let row = set_int_range(0, w).map(f);
        lemma_int_range(0, w);
        set_int_range(0, w).lemma_map_finite(f);
        assert forall|p: (int, int)| #[trigger] rect.contains(p) implies prev.union(
            row,
        ).contains(p) by {
            if p.1 == h - 1 {
                assert(set_int_range(0, w).contains(p.0) && p == f(p.0));
                assert(row.contains(p));
            }
        }
        assert forall|p: (int, int)| #[trigger] prev.union(row).contains(p) implies rect.contains(
            p,
        ) by {
            if row.contains(p) {
                let x = choose|x: int| set_int_range(0, w).contains(x) && p == f(x);
                assert(in_rect(w, h, (x, h - 1)));
            }
        }
        assert(rect =~= prev.union(row));
    }
}

/// For a fixed size the number of distinct black pixels never decreases as
/// the depth grows.
pub proof fn lemma_render_black_count_monotone(size: int, depth: nat)
    requires
        1 <= size,
    ensures
        black_pixels(render_model(size, depth)).finite(),
        black_pixels(render_model(size, (depth + 1) as nat)).finite(),
        black_pixels(render_model(size, depth)).len() <= black_pixels(
            render_model(size, (depth + 1) as nat),
        ).len(),
{
    let b0 = black_pixels(render_model(size, depth));
    let b1 = black_pixels(render_model(size, (depth + 1) as nat));
    assert forall|q: (int, int)| #[trigger] b0.contains(q) implies b1.contains(q) by {
        lemma_render_monotone(size, depth, q);
    }
    let t = initial_triangle(size);
    let blank = uniform_canvas(size, size, 255u8);
    let pts1 = triangle_points(t.0, t.1, t.2) + tris_points(
        sierpinski_tris(t.0, t.1, t.2, (depth + 1) as nat),
    );
    lemma_rect_finite(size, size);
    assert(blank.dom() =~= Set::new(|p: (int, int)| in_rect(size, size, p)));
    lemma_painted_dom_finite(blank, pts1);
    let dom1 = painted(blank, pts1).dom();
    assert(b1.subset_of(dom1));
    lemma_len_subset(b1, dom1);
    lemma_len_subset(b0, b1);
}

} // verus!
