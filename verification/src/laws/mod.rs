//! What holds of loading, settings, file names and numbers.
pub mod loading;
pub mod names;
pub mod numbers;
pub mod settings;
