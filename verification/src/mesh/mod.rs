//! Triangle meshes.
pub mod bounds;
pub mod laws;
pub mod obj;
pub mod obj_text;
pub mod obj_text_laws;
pub mod single;
pub mod stl;
pub mod triangles;
