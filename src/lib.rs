//! Packaging of CHIP-8 program images into calculator variable files: a
//! sliding-window compressor, the fixed variable-file header, and the
//! trailer and checksum that close the file.
use vstd::prelude::*;

pub mod checksum;
pub mod compress;
pub mod filename;
pub mod header;
pub mod package;
