//! 3MF files.
pub mod archive;
pub mod attributes;
pub mod function_laws;
pub mod model;
pub mod model_laws;
pub mod package;
pub mod package_laws;
pub mod path;
pub mod reading_laws;
pub mod scene;
pub mod scene_laws;
pub mod xml;
