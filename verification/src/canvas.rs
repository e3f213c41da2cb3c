//! The canvas: a grayscale pixel buffer, modelled as a map from coordinates
//! to intensity values (0 = drawn, 255 = background).
//!
//! The buffer itself is the `image` crate's `ImageBuffer`, held in an opaque
//! field; the library only relies on it through the trusted wrappers below
//! and proves everything else against the map model.

use vstd::prelude::*;
use crate::line::{pt, rasterize_spec, Line};
use crate::line::lemma_rasterize_in_box;
use crate::triangle::{triangle_points, Triangle};

verus! {

/// Largest canvas side length the library accepts; keeps every in-canvas
/// coordinate inside the rasterizer's range.
pub const MAX_SIZE: u32 = 0x4000_0000;

/// An in-memory grayscale canvas.
#[verifier::external_body]
pub struct Image {
    img: image::ImageBuffer<image::Luma<u8>, Vec<u8>>,
}

/// The intensity value each coordinate of the canvas holds.
pub uninterp spec fn canvas_pixels(img: Image) -> Map<(int, int), u8>;

/// The width and height the canvas was made with.
pub uninterp spec fn canvas_dims(img: Image) -> (int, int);

/// `p` is a coordinate of a `w` x `h` canvas.
pub open spec fn in_rect(w: int, h: int, p: (int, int)) -> bool {
    0 <= p.0 < w && 0 <= p.1 < h
}

/// A `w` x `h` canvas holding the value `v` everywhere.
pub open spec fn uniform_canvas(w: int, h: int, v: u8) -> Map<(int, int), u8> {
    Map::new(|p: (int, int)| in_rect(w, h, p), |p: (int, int)| v)
}

/// Relies on `image::ImageBuffer::from_pixel`: a `width` x `height` buffer
/// with every pixel set to the given value.
#[verifier::external_body]
fn buffer_filled(width: u32, height: u32, value: u8) -> (r: Image)
    requires
        width as int * height as int <= usize::MAX as int,
    ensures
        canvas_dims(r) == (width as int, height as int),
        canvas_pixels(r) == uniform_canvas(width as int, height as int, value),
{
    Image { img: image::ImageBuffer::from_pixel(width, height, image::Luma([value])) }
}

/// Relies on `image::ImageBuffer::put_pixel`: writes the given value at
/// `(x, y)` and changes nothing else.
#[verifier::external_body]
fn buffer_put(img: &mut Image, x: u32, y: u32, value: u8)
    requires
        in_rect(canvas_dims(*old(img)).0, canvas_dims(*old(img)).1, (x as int, y as int)),
    ensures
        canvas_dims(*final(img)) == canvas_dims(*old(img)),
        canvas_pixels(*final(img)) == canvas_pixels(*old(img)).insert(
            (x as int, y as int),
            value,
        ),
{
    img.img.put_pixel(x, y, image::Luma([value]));
}

/// Relies on `image::ImageBuffer::get_pixel`: returns the pixel at `(x, y)`.
#[verifier::external_body]
fn buffer_get(img: &Image, x: u32, y: u32) -> (r: u8)
    requires
        in_rect(canvas_dims(*img).0, canvas_dims(*img).1, (x as int, y as int)),
    ensures
        r == canvas_pixels(*img)[(x as int, y as int)],
{
    img.img.get_pixel(x, y).0[0]
}

/// The canvas after setting each point of `pts`, in order, to 0 (drawn).
pub open spec fn painted(m: Map<(int, int), u8>, pts: Seq<(int, int)>) -> Map<(int, int), u8>
    decreases pts.len(),
{
    if pts.len() == 0 {
        m
    } else {
        painted(m, pts.drop_last()).insert(pts.last(), 0u8)
    }
}

/// The view of an executable point list.
pub open spec fn pts_view(s: Seq<(i32, i32)>) -> Seq<(int, int)> {
    s.map_values(|p: (i32, i32)| pt(p))
}

/// Painting a concatenation paints the two halves one after the other.
pub proof fn lemma_painted_concat(
    m: Map<(int, int), u8>,
    s1: Seq<(int, int)>,
    s2: Seq<(int, int)>,
)
    ensures
        painted(m, s1 + s2) == painted(painted(m, s1), s2),
    decreases s2.len(),
{
    if s2.len() == 0 {
        assert(s1 + s2 =~= s1);
    } else {
        lemma_painted_concat(m, s1, s2.drop_last());
        assert((s1 + s2).drop_last() =~= s1 + s2.drop_last());
        assert((s1 + s2).last() == s2.last());
    }
}

/// What one pixel holds after painting: 0 on every painted point, and the
/// old value elsewhere.
pub proof fn lemma_painted_at(m: Map<(int, int), u8>, pts: Seq<(int, int)>, q: (int, int))
    ensures
        painted(m, pts).dom().contains(q) <==> (m.dom().contains(q) || pts.contains(q)),
        pts.contains(q) ==> painted(m, pts)[q] == 0u8,
        !pts.contains(q) && m.dom().contains(q) ==> painted(m, pts)[q] == m[q],
    decreases pts.len(),
{
    if pts.len() > 0 {
        lemma_painted_at(m, pts.drop_last(), q);
        if pts.contains(q) && pts.last() != q {
            let i = choose|i: int| 0 <= i < pts.len() && pts[i] == q;
            assert(pts.drop_last()[i] == q);
            assert(pts.drop_last().contains(q));
        }
        if pts.drop_last().contains(q) {
            let i = choose|i: int| 0 <= i < pts.drop_last().len() && pts.drop_last()[i] == q;
            assert(pts[i] == q);
            assert(pts.contains(q));
        }
    }
}

/// The set of drawn (black) pixels of a canvas.
pub open spec fn black_pixels(m: Map<(int, int), u8>) -> Set<(int, int)> {
    Set::new(|q: (int, int)| m.dom().contains(q) && m[q] == 0u8)
}

/// Painting keeps the domain finite: it only adds the painted points.
pub proof fn lemma_painted_dom_finite(m: Map<(int, int), u8>, pts: Seq<(int, int)>)
    requires
        m.dom().finite(),
    ensures
        painted(m, pts).dom().finite(),
{
    broadcast use vstd::seq_lib::seq_to_set_is_finite;

    assert forall|q: (int, int)| #[trigger] painted(m, pts).dom().contains(q) <==> m.dom().union(
        pts.to_set(),
    ).contains(q) by {
        lemma_painted_at(m, pts, q);
    }
    assert(painted(m, pts).dom() =~= m.dom().union(pts.to_set()));
}

/// Painting the same point sequence twice leaves the same canvas as painting
/// it once.
pub proof fn lemma_painted_idempotent(m: Map<(int, int), u8>, pts: Seq<(int, int)>)
    ensures
        painted(painted(m, pts), pts) == painted(m, pts),
{
    let m1 = painted(m, pts);
    let m2 = painted(m1, pts);
    assert forall|q: (int, int)| #[trigger] m2.dom().contains(q) <==> m1.dom().contains(q) by {
        lemma_painted_at(m, pts, q);
        lemma_painted_at(m1, pts, q);
    }
    assert forall|q: (int, int)| m1.dom().contains(q) implies #[trigger] m2[q] == m1[q] by {
        lemma_painted_at(m, pts, q);
        lemma_painted_at(m1, pts, q);
    }
    assert(m2 =~= m1);
}

impl Image {
    /// The intensity value at each coordinate.
    pub open spec fn pixels(self) -> Map<(int, int), u8> {
        canvas_pixels(self)
    }

    /// The canvas's width.
    pub open spec fn width(self) -> int {
        canvas_dims(self).0
    }

    /// The canvas's height.
    pub open spec fn height(self) -> int {
        canvas_dims(self).1
    }

    /// The canvas's dimensions are in range and it holds a value for exactly
    /// the coordinates inside it.
    pub open spec fn wf(self) -> bool {
        &&& 1 <= self.width() <= MAX_SIZE as int
        &&& 1 <= self.height() <= MAX_SIZE as int
        &&& forall|p: (int, int)|
            #[trigger] self.pixels().dom().contains(p) <==> in_rect(
                self.width(),
                self.height(),
                p,
            )
    }

    /// A size x size canvas, all background (255).
    pub fn new(size: u32) -> (r: Image)
        requires
            1 <= size,
            size <= MAX_SIZE,
            size as int * size as int <= usize::MAX as int,
        ensures
            r.wf(),
            r.width() == size as int,
            r.height() == size as int,
            r.pixels() == uniform_canvas(size as int, size as int, 255u8),
    {
        buffer_filled(size, size, 255)
    }

    /// A `width` x `height` canvas, all background (255).
    pub fn with_dims(width: u32, height: u32) -> (r: Image)
        requires
            1 <= width && width <= MAX_SIZE,
            1 <= height && height <= MAX_SIZE,
            width as int * height as int <= usize::MAX as int,
        ensures
            r.wf(),
            r.width() == width as int,
            r.height() == height as int,
            r.pixels() == uniform_canvas(width as int, height as int, 255u8),
    {
        buffer_filled(width, height, 255)
    }

    /// The intensity value at `(x, y)`.
    pub fn get(&self, x: u32, y: u32) -> (r: u8)
        requires
            self.wf(),
            in_rect(self.width(), self.height(), (x as int, y as int)),
        ensures
            r == self.pixels()[(x as int, y as int)],
    {
        buffer_get(self, x, y)
    }

    /// Relies on `image::ImageBuffer::into_raw`: hands the finished pixel
    /// buffer out as its dimensions and its raw row-major bytes, for
    /// encoding by the caller.
    #[verifier::external_body]
    pub fn into_raw(self) -> (r: (u32, u32, Vec<u8>))
        ensures
            (r.0 as int, r.1 as int) == canvas_dims(self),
            r.2@.len() == canvas_dims(self).0 * canvas_dims(self).1,
            forall|p: (int, int)| canvas_pixels(self).dom().contains(p)
                && in_rect(r.0 as int, r.1 as int, p) ==> #[trigger] canvas_pixels(self)[p]
                == r.2@[p.1 * r.0 as int + p.0],
    {
        let width = self.img.width();
        let height = self.img.height();
        (width, height, self.img.into_raw())
    }

    /// Paints a single pixel black (0).
    pub fn paint(&mut self, x: u32, y: u32)
        requires
            old(self).wf(),
            in_rect(old(self).width(), old(self).height(), (x as int, y as int)),
        ensures
            final(self).wf(),
            final(self).width() == old(self).width(),
            final(self).height() == old(self).height(),
            final(self).pixels() == old(self).pixels().insert((x as int, y as int), 0u8),
    {
        buffer_put(self, x, y, 0);
        proof {
            assert forall|p: (int, int)| #[trigger] self.pixels().dom().contains(p) <==> in_rect(
                self.width(),
                self.height(),
                p,
            ) by {
                assert(old(self).pixels().dom().contains(p) <==> in_rect(
                    old(self).width(),
                    old(self).height(),
                    p,
                ));
            }
        }
    }

    /// Paints every point of `vec` black (0), in order.
    pub fn draw_vec(&mut self, vec: Vec<(i32, i32)>)
        requires
            old(self).wf(),
            forall|i: int| 0 <= i < vec@.len() ==> in_rect(
                old(self).width(),
                old(self).height(),
                pt(#[trigger] vec@[i]),
            ),
        ensures
            final(self).wf(),
            final(self).width() == old(self).width(),
            final(self).height() == old(self).height(),
            final(self).pixels() == painted(old(self).pixels(), pts_view(vec@)),
    {
        let ghost all = pts_view(vec@);
        let mut i: usize = 0;
        while i < vec.len()
            invariant
                self.wf(),
                self.width() == old(self).width(),
                self.height() == old(self).height(),
                all == pts_view(vec@),
                forall|j: int| 0 <= j < vec@.len() ==> in_rect(
                    old(self).width(),
                    old(self).height(),
                    pt(#[trigger] vec@[j]),
                ),
                i <= vec@.len(),
                self.pixels() == painted(old(self).pixels(), all.take(i as int)),
            decreases vec@.len() - i as int,
        {
            let p = vec[i];
            let x = p.0 as u32;
            let y = p.1 as u32;
            proof {
                assert(in_rect(self.width(), self.height(), pt(vec@[i as int])));
            }
            buffer_put(self, x, y, 0);
            proof {
                assert(all.take(i as int + 1).drop_last() =~= all.take(i as int));
                assert(all.take(i as int + 1).last() == pt(vec@[i as int]));
            }
            i = i + 1;
        }
        proof {
            assert(all.take(vec@.len() as int) =~= all);
        }
    }

    /// Rasterizes the line and paints its pixels black.
    pub fn draw_line(&mut self, line: Line)
        requires
            old(self).wf(),
            in_rect(old(self).width(), old(self).height(), pt(line.start)),
            in_rect(old(self).width(), old(self).height(), pt(line.end)),
        ensures
            final(self).wf(),
            final(self).width() == old(self).width(),
            final(self).height() == old(self).height(),
            final(self).pixels() == painted(
                old(self).pixels(),
                rasterize_spec(pt(line.start), pt(line.end)),
            ),
    {
        proof {
            lemma_rasterize_in_box(pt(line.start), pt(line.end));
        }
        let points = line.points();
        proof {
            assert(pts_view(points@) =~= rasterize_spec(pt(line.start), pt(line.end)));
        }
        self.draw_vec(points);
    }

    /// Draws the triangle's three edges.
    pub fn draw_triangle(&mut self, triangle: &Triangle)
        requires
            old(self).wf(),
            in_rect(old(self).width(), old(self).height(), pt(triangle.p1)),
            in_rect(old(self).width(), old(self).height(), pt(triangle.p2)),
            in_rect(old(self).width(), old(self).height(), pt(triangle.p3)),
        ensures
            final(self).wf(),
            final(self).width() == old(self).width(),
            final(self).height() == old(self).height(),
            final(self).pixels() == painted(
                old(self).pixels(),
                triangle_points(pt(triangle.p1), pt(triangle.p2), pt(triangle.p3)),
            ),
    {
        let ghost m0 = self.pixels();
        let ghost e1 = rasterize_spec(pt(triangle.p1), pt(triangle.p2));
        let ghost e2 = rasterize_spec(pt(triangle.p1), pt(triangle.p3));
        let ghost e3 = rasterize_spec(pt(triangle.p2), pt(triangle.p3));
        let lines = triangle.lines();
        let l1 = lines[0];
        let l2 = lines[1];
        let l3 = lines[2];
        self.draw_line(l1);
        self.draw_line(l2);
        self.draw_line(l3);
        proof {
            lemma_painted_concat(m0, e1, e2);
            lemma_painted_concat(m0, e1 + e2, e3);
            assert(e1 + e2 + e3 == triangle_points(pt(triangle.p1), pt(triangle.p2), pt(
                triangle.p3,
            )));
        }
    }
}

} // verus!
