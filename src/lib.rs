//! Index of which package provides which executable.
//!
//! The index is built from per-package manifest text (`alpm`), persisted in a
//! compact length-sorted record format (`cdb`) and queried by a forward scan
//! that stops as soon as the records grow longer than the name looked up.
pub mod cdb;
pub mod cdb_laws;
pub mod error;
pub mod alpm;
pub mod argparser;
pub mod pacutils;
pub mod text;
