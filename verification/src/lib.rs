//! Format-preserving INI documents: read, change and write back INI text
//! without losing comments, ordering or spacing.
pub mod effect_laws;
pub mod ini;
pub mod laws;
pub mod lemmas;
pub mod model;
pub mod parse_laws;
pub mod reparse_laws;
pub mod section_laws;
pub mod shape;
pub mod text;

pub use ini::Ini;
