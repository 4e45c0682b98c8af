//! A scanline polygon rasterizer.
//!
//! Polygons — some marked as holes — are rasterized into a pixel buffer:
//! interiors are filled row by row with hole pixels excluded, then every
//! polygon's border is drawn with an integer line-drawing algorithm.

pub mod divmod;
pub mod border;
pub mod framebuffer;
pub mod geometry;
pub mod pipeline;
pub mod scanline;

pub use framebuffer::Color;
pub use framebuffer::FrameBuffer;
pub use geometry::Point;
pub use geometry::Polygon;
