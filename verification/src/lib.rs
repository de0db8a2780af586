//! Deterministic Protocol Buffer definitions generated from an OCSF schema
//! model: type mapping, transitive object-reference resolution, enumeration
//! synthesis, and byte-exact text emission.

pub mod codegen;
pub mod emit;
pub mod error;
pub mod graph;
pub mod schema;
pub mod strutil;
pub mod text;
pub mod type_map;
