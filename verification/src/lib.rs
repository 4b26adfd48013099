//! Indexing and cross-file resolution for ARXML configuration files.
//!
//! The crate turns one parsed document into a path-keyed index of named
//! elements, their values and the references between them, keeps one such
//! index per file of a workspace, and answers the lookups an editor asks for:
//! definitions, references, outline, symbol search and hover text.

pub mod backend;
pub mod path_map;
pub mod position;
pub mod text;
pub mod xml_parser;
pub mod xml_tree;
