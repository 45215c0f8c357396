//! Integer core of a small Monte Carlo path tracer: material tags, the plain
//! text image format, the order-preserving reassembly of rendered rows, and the
//! nearest-hit selection over ordered distance keys.

pub mod material;
pub mod ppm;
pub mod rows;
pub mod scene;
