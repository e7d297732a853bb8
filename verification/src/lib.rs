//! Assembles an Envoy configuration from the files of a template directory.
//!
//! A base file holds everything shared, and each upstream file holds one
//! upstream's routes, clusters and key-slot settings. [`render::render`] replaces
//! the `__GM_<NAME>__` tokens in their texts ([`tokens`]), loads the upstreams that
//! the selections pick ([`load`]), builds the Lua `slot_config` table ([`lua`]),
//! adds the internal headers to what each upstream route removes ([`headers`]),
//! puts routes and clusters where the base holds their markers ([`splice`]), and
//! writes the result as JSON ([`yaml`]).

pub mod error;
pub mod files;
pub mod headers;
pub mod load;
pub mod lua;
pub mod node;
pub mod render;
pub mod selection;
pub mod splice;
pub mod text;
pub mod tokens;
pub mod upstream;
pub mod yaml;
