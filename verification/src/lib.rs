//! Layered configuration.
//!
//! Every [`Source`](source::Source) hands back a [`Tree`](tree::Tree) of
//! semi-structured data, or fails. A [`ConfigBuilder`] asks its sources in the
//! order in which they were registered and merges their trees with
//! [`merge`](merge::merge), each on top of all before it, into one [`Config`]:
//! objects blend key by key, anything else is replaced by what the later
//! source says.
//!
//! The sources of this crate work on values that the caller hands in:
//! [`File`](source::File) on the text of a file, whose format it tells by the
//! path's extension, and [`Env`](source::Env) on a list of environment
//! variables, whose names it turns into paths of nested objects.

pub mod builder;
pub mod config;
pub mod error;
pub mod merge;
pub mod source;
pub mod text;
pub mod tree;

pub use builder::ConfigBuilder;
pub use config::Config;
pub use error::ConfigError;
