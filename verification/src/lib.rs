//! Loading of 3D models for thumbnails.
pub mod config;
pub mod files;
pub mod laws;
pub mod load;
pub mod mesh;
pub mod numbers;
pub mod sequences;
pub mod step;
pub mod text;
pub mod three_mf;
