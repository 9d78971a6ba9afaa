//! An in-memory file system: a path-addressed store of files and directories,
//! with open handles that keep the bytes of a file alive after its name has gone.

pub mod error;
pub mod path;
pub mod node;
pub mod model;
pub mod registry;
pub mod options;
pub mod metadata;
pub mod open_file;
pub mod dir;
pub mod fake;
pub mod laws;
