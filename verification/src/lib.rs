//! A generative-art placement engine: colors are consumed from a queue and
//! grown outward from seed pixels, each color landing on the frontier cell
//! whose already-colored neighbors it matches best.

pub mod boundary;
pub mod canvas;
pub mod color;
pub mod engine;
pub mod geom;
pub mod model;
pub mod normalize;
pub mod par;
pub mod queue;
pub mod render;
pub mod score;
pub mod seeds;
pub mod tie;

pub use boundary::BoundaryRegion;
pub use canvas::Canvas;
pub use canvas::PaintError;
pub use color::Color;
pub use engine::Engine;
pub use geom::Coordinate;
pub use queue::ColorQueue;
pub use score::Score;
pub use seeds::Constraints;
pub use tie::TieBreaker;
