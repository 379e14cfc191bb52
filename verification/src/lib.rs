//! Listings of directories as trees: the data model, a walker that goes
//! through a directory tree level by level without touching the filesystem
//! itself, and the proof that it builds the tree that the recursive
//! definition of a walk describes.

pub mod dir;
pub mod guarantees;
pub mod machine;
pub mod metadata;
pub mod model;
pub mod params;
pub mod path;
pub mod run;
pub mod views;
pub mod volumes;
pub mod walker;
