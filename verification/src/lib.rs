//! Verified core of a downloader that turns Sketchfab viewer data into glTF 2.0 binaries.

pub mod json;
pub mod text;
pub mod zigzag;
pub mod texture;
pub mod float_bits;
pub mod buffers;
pub mod mesh;
pub mod outside;
pub mod wasm;
pub mod decrypt;
pub mod gltf;
pub mod scene;
pub mod metadata;
pub mod primitives;
pub mod attributes;
pub mod geometry;
pub mod traversal;
pub mod page;
pub mod model;
pub mod images;
pub mod palette;
pub mod keyframes;
pub mod animation;
pub mod convert;
pub mod layout;
