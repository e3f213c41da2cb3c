//! A Sierpinski-triangle renderer.
//!
//! The library rasterizes integer line segments with Bresenham's algorithm,
//! snaps triangle vertices onto drawn midpoints, and recursively subdivides a
//! triangle onto a grayscale pixel buffer. Encoding the finished buffer to an
//! image file is left to the caller.

pub mod canvas;
pub mod chaos;
pub mod engine;
pub mod line;
pub mod triangle;

pub use canvas::Image;
pub use chaos::chaos_image;
pub use engine::draw_image;
pub use engine::draw_sierpinski;
pub use line::Line;
pub use triangle::Triangle;
