//! The merged configuration.

use crate::builder::{ConfigBuilder, Registered};
use crate::tree::{Tree, TreeModel};
use vstd::prelude::*;

verus! {

/// The tree merged from all sources. It is made by a [`ConfigBuilder`] and
/// does not change afterwards.
#[derive(Debug)]
pub struct Config {
    value: Tree,
}

impl View for Config {
    type V = TreeModel;

    closed spec fn view(&self) -> TreeModel {
        self.value@
    }
}

impl Config {
    /// A builder without sources: the way to make a configuration.
    pub fn builder() -> (builder: ConfigBuilder)
        ensures
            builder@ == Seq::<Registered>::empty(),
    {
        ConfigBuilder::new()
    }

    pub(crate) fn new(value: Tree) -> (config: Config)
        ensures
            config@ == value@,
    {
        Config { value }
    }

    /// The merged tree.
    pub fn get_value(&self) -> (value: &Tree)
        ensures
            value@ == self@,
    {
        &self.value
    }

    /// The merged tree, handed over.
    pub fn into_value(self) -> (value: Tree)
        ensures
            value@ == self@,
    {
        self.value
    }
}

} // verus!
