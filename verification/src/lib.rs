//! Obserde: schema-first, versioned, validated data contracts.
pub mod text;
pub mod errors;
pub mod version;
pub mod contract;
pub mod float_bits;
pub mod path;
pub mod document;
pub mod schema;
pub mod grammar;
pub mod validate;
pub mod canonical;
pub mod hash;
pub mod json;
pub mod compat;
pub mod semantic;
pub mod migration;
pub mod graph;
