//! A dynamically typed document value and an insertion-ordered map over it.
//!
//! `YamlValue` is a closed tagged union for one node of a structured document:
//! null, booleans, 64-bit integers, strings, sequences and mappings. `Mapping`
//! is the companion associative container, keyed and valued by `YamlValue`,
//! that keeps insertion order for iteration while its equality, hashing and
//! ordering look only at the set of entries.


pub mod model;
pub mod order;
pub mod laws;
pub mod hashing;
pub mod value;
pub mod compare;
pub mod mapping;
pub mod doc;
pub mod convert;
pub mod render;
