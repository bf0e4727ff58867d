//! Vector text for the GPU, drawn in two ways and measured.
//!
//! The glyphs of a font are cut into pieces that a fragment shader can test one
//! by one, the pieces are sorted into bands, and columns of text are placed on
//! the screen. [`arc`] draws a glyph with lines and circular arcs, [`slug`] with
//! the quadratic curves themselves.
//!
//! - [`number`], [`fpu`] and [`literal`]: floating-point values as bit patterns,
//!   and the arithmetic that the host does on them; [`arith`]: laws that it
//!   obeys; [`rounding`] and [`wide`]: how far its results are off.
//! - [`order`]: stable sorting.
//! - [`font`], [`sfnt`] and [`trace`]: what comes from a font file.
//! - [`screens`]: what is written, and where; [`placing`] and [`grid`]: that in
//!   numbers.
//! - [`upload`]: the buffers that the shaders read.
//! - [`surface`], [`timing`] and [`stats`]: the frames, how they are timed and
//!   what the times add up to.
pub mod arc;
pub mod arith;
pub mod font;
pub mod fpu;
pub mod grid;
pub mod literal;
pub mod number;
pub mod order;
pub mod placing;
pub mod rounding;
pub mod screens;
pub mod sfnt;
pub mod slug;
pub mod stats;
pub mod surface;
pub mod timing;
pub mod trace;
pub mod upload;
pub mod wide;
