//! The settings of a run: where the source tree is, where the virtual tree
//! is mounted, and where the generated files are cached.
use vstd::prelude::*;

use crate::path::FsPath;

verus! {

/// The command line: the source tree, the mount point, the cache
/// directory, and whether to stay in the foreground.
pub struct Cli {
    pub source: FsPath,
    pub mount: FsPath,
    pub cache: FsPath,
    pub foreground: bool,
}

/// The settings after the source tree was found to be a directory and the
/// mount point and cache directory were created.
pub struct Config {
    pub source: FsPath,
    pub mount: FsPath,
    pub cache: FsPath,
    pub foreground: bool,
}

} // verus!
