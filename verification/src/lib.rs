//! The discrete core of an offline ray tracer.
//!
//! Everything here is exact: which intersection a ray sees first, which media
//! meet at a refracting surface, how primitives nest inside groups, how far
//! the bounces of a ray go, how the image is cut into bands and put together
//! again, what a mesh file says and how a picture is written. The numeric
//! side of a renderer (vector arithmetic, root finding, colour arithmetic)
//! lives with the caller, which hands distances over as ordered integer codes.

pub mod canvas;
pub mod intersect;
pub mod matrix;
pub mod mesh;
pub mod obj_parser;
pub mod pattern;
pub mod ppm;
pub mod refraction;
pub mod render;
pub mod scene;
pub mod shading;
pub mod walk;
