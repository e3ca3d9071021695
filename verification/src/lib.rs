//! Core logic of an interactive raster-painting surface.
//!
//! Pointer input is turned into variable-width ribbon geometry for a brush
//! stroke, the ribbon is conservatively rasterized onto a sparse grid of
//! canvas tiles, and the tiles are backed by a growable pool of texture-array
//! layers with a LIFO free list.
//!
//! All scalar quantities are fixed-point numbers ([`fixed::Fx`]) so that every
//! computation has an exact arithmetic meaning; the GPU itself is an external
//! collaborator that a host binary drives with the plain values this crate
//! produces.

pub mod airbrush;
pub mod atlas;
pub mod context_error;
pub mod distinct;
pub mod fixed;
pub mod geom;
pub mod interpolate;
pub mod piecewise_linear;
pub mod raster;
pub mod shape;
pub mod tile;

pub use fixed::Fx;
