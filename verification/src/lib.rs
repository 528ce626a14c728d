pub mod entry;
pub mod escape;
pub mod field;
pub mod line;
pub mod loader;
pub mod text;
