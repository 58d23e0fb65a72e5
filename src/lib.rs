//! A retained-mode 2D rendering core: a texture slot table, a model store
//! with explicitly counted handles, a per-frame command builder and the
//! presentation state machine that drives each frame; and the bitmap-font
//! helpers that lay text out as textured triangles.
//!
//! Floating-point vertex data is carried as IEEE-754 bit patterns (`u32`),
//! since the logic here only copies it; the GPU side reinterprets the bits.

pub mod bitw;
pub mod bmtext;
pub mod error;
pub mod model;
pub mod modelman;
pub mod present;
pub mod scene;
pub mod teximg;
pub mod texman;
