//! Parsing and validation of textual container-image references, such as
//! `registry.example.com:5000/org/name:tag@sha256:…`, into structured,
//! round-trippable values, and rendering those values back to their
//! canonical textual form.
//!
//! The library is purely lexical: it validates syntax and extracts
//! components.  It performs no I/O and talks to no registry.

pub mod digest;
pub mod image;
pub mod registry;
pub mod repository;
pub mod text;
