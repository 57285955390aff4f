//! A read-only mirror of a directory tree that shows only the files and
//! directories its glob rules let through, and can hide directories that show
//! nothing. The library holds the decisions; a FUSE front end does the reads.

pub mod args;
pub mod fhman;
pub mod filter;
pub mod filterfs;
pub mod id;
pub mod inoman;
pub mod options;
pub mod paths;
pub mod pattern;
pub mod prune;
pub mod utils;
