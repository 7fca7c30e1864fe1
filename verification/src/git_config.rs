//! The repository's typed configuration values. Reading and writing the
//! configuration file itself is the caller's work; the core only holds the
//! values and the rule for which repositories it supports.

use vstd::prelude::*;

verus! {

/// The configuration values the object store cares about.
#[derive(Debug, Clone, PartialEq, Eq, Structural)]
pub struct GitConfig {
    pub repository_format_version: i32,
    pub filemode: bool,
    pub bare: bool,
}

impl Default for GitConfig {
    /// A fresh repository's configuration: format version zero, no file
    /// modes, not bare.
    fn default() -> (r: Self)
        ensures
            r.repository_format_version == 0,
            !r.filemode,
            !r.bare,
    {
        GitConfig { repository_format_version: 0, filemode: false, bare: false }
    }
}

impl GitConfig {
    /// Only format version zero is supported.
    pub fn supported(&self) -> (r: bool)
        ensures
            r == (self.repository_format_version == 0),
    {
        self.repository_format_version == 0
    }
}

} // verus!
