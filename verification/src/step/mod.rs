//! STEP (ISO 10303-21) models.
pub mod assembly;
pub mod assembly_laws;
pub mod entity;
pub mod function_laws;
pub mod groups;
pub mod lists;
pub mod load;
pub mod mesh_laws;
pub mod polygons;
pub mod structure;
pub mod structure_laws;
pub mod syntax;
pub mod syntax_laws;
pub mod walk;
pub mod walk_laws;
