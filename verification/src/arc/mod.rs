//! Text drawn from line and circular-arc segments.
pub mod atlas;
pub mod bands;
pub mod circle;
pub mod contour;
pub mod fill;
pub mod line;
pub mod reach;
pub mod reversal;
pub mod scene;
pub mod segment;
pub mod split;
pub mod winding;
