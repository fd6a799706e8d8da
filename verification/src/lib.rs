//! Core support library for a handheld console with a fixed 240x160 display:
//! 2D vector algebra, a bitmap drawing surface with page flipping, and an
//! edge-aware keypad sampler. The drawing surface and keypad are modelled as
//! plain values so that every pixel write and every edge predicate is
//! specified exactly; the thin memory-mapped I/O layer around them lives with
//! the host program.

pub mod graphics;
pub mod input;
pub mod tilemap;
pub mod vec2;
