//! Verified planning core of a Lottie renderer's GPU backends.

pub mod arena;
pub mod commands;
pub mod compute;
pub mod draws;
pub mod error;
pub mod frame;
pub mod geometry;
pub mod host;
pub mod layout;
pub mod lut;
pub mod matte;
pub mod opengl;
pub mod renderer;
pub mod scene;
pub mod stats;
pub mod triangles;
pub mod upload;
