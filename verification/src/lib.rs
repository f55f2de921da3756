//! Consolidating scattered files into one flat directory and normalizing
//! a numeric-prefix naming convention.
//!
//! The library works on an in-memory model of the directories involved:
//! file names are byte strings (`Vec<u8>`), a source tree is an `FsTree`,
//! and the flat destination directory is a `DirListing`. The collector
//! (`collect`) moves every file of a tree into the destination, renaming
//! around collisions; the normalizer (`normalize`) zero-pads the numeric
//! prefix of each destination name to a fixed width. A thin command-line
//! front end maps the real filesystem onto this model and performs the
//! actual renames.

pub mod names;
pub mod collect;
pub mod normalize;
