//! Text drawn from quadratic curves.
pub mod atlas;
pub mod bands;
pub mod fill;
pub mod outline;
pub mod scene;
