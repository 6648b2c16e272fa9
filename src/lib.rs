//! A bit-granular binary serialisation library: a bit cursor over a fixed-size
//! byte buffer, a floating-point codec of configurable width, and text codecs,
//! with the game types and helpers built on them.
pub mod bits;
pub mod bitstream;
pub mod strings;
pub mod decimal;
pub mod laws;
pub mod suroi_bitstream;
pub mod constants;
pub mod typings;
pub mod object_pool;
pub mod misc;
pub mod ansi_coloring;
