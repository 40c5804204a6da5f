//! A verified bisection root-finding engine.
//!
//! The engine parses a textual expression in one variable `x`, validates a
//! bracketing interval, and iterates the bisection update rule under a
//! configurable error metric, producing a terminal message and a full
//! iteration trace. Midpoints and errors are tracked in an exact
//! high-precision decimal arithmetic of this crate; only the expression
//! evaluation itself runs in double precision.

pub mod digits;
pub mod dec;
pub mod text;
pub mod floats;
pub mod evaluator;
pub mod engine;
pub mod laws;

pub use engine::bisection;
pub use engine::BisectionError;
pub use engine::BisectionRequest;
pub use engine::BisectionResponse;
