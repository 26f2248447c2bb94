//! Providers of configuration trees.

use crate::error::ConfigError;
use crate::tree::Tree;
use vstd::prelude::*;

pub mod env;
pub mod file;

pub use env::Env;
pub use file::File;

verus! {

/// Anything that can provide a configuration tree, or fail.
pub trait Source {
    /// Whether `outcome` is something that this source hands back. Each
    /// source says for itself what it yields; one that says nothing may hand
    /// back anything.
    open spec fn yields(&self, outcome: Result<Tree, ConfigError>) -> bool {
        true
    }

    /// Gathers this source's tree.
    fn collect(&self) -> (outcome: Result<Tree, ConfigError>)
        ensures
            self.yields(outcome),
    ;
}

} // verus!
