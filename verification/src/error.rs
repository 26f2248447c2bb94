//! The failures that loading a configuration can end in.

use vstd::prelude::*;

verus! {

/// `std::io::Error`, carried through unread.
#[verifier::external_type_specification]
#[verifier::external_body]
pub struct ExIoError(std::io::Error);

/// `toml::de::Error`, carried through unread.
#[verifier::external_type_specification]
#[verifier::external_body]
pub struct ExTomlError(toml::de::Error);

/// `serde_yaml::Error`, carried through unread.
#[verifier::external_type_specification]
#[verifier::external_body]
pub struct ExYamlError(serde_yaml::Error);

/// `serde_json::Error`, carried through unread.
#[verifier::external_type_specification]
#[verifier::external_body]
pub struct ExJsonError(serde_json::Error);

/// `validator::ValidationErrors`, carried through unread.
#[verifier::external_type_specification]
#[verifier::external_body]
pub struct ExValidationErrors(validator::ValidationErrors);

/// Why a configuration could not be loaded.
#[derive(Debug)]
pub enum ConfigError {
    /// A file could not be read.
    Io(std::io::Error),
    /// A file's text is not TOML.
    Toml(toml::de::Error),
    /// A file's text is not YAML.
    Yaml(serde_yaml::Error),
    /// A text is not JSON, or a tree does not have the shape asked for.
    Json(serde_json::Error),
    /// Fields of the loaded configuration are not valid.
    Validation(validator::ValidationErrors),
    /// A source failed; the message says how.
    Source(String),
    /// The path's extension names no known format; holds the path.
    UnknownFileFormat(String),
    /// An environment variable could not be had; the message says why.
    EnvVar(String),
    /// The configuration could not be built; the message says why.
    Build(String),
}

} // verus!
