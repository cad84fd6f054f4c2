pub mod area;
pub mod bodies;
pub mod canvas;
pub mod integer;
pub mod scalar;

pub use area::{AreaIntersectionRasterizer, BoundaryWalk, CellSweep, WalkPhase};
pub use bodies::{generate_3_body, Body, PolarVector};
pub use canvas::{FixedSizeCanvas, FrameHandler, HorizontalLineCanvas, HorizontalLineImage};
pub use integer::IntegerRasterizer;
pub use scalar::GrayscaleRgbScalar;
