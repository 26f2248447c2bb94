//! Configuration from a file: the extension of its path says in which format
//! its text is read.

use crate::error::ConfigError;
use crate::text::occurs_at;
use crate::tree::{tree_from_json, value_model, Tree, TreeModel};
use vstd::prelude::*;

verus! {

/// The formats that a file can be written in.
#[derive(Clone, Copy, Debug, PartialEq, Eq, Structural)]
pub enum Format {
    Toml,
    Yaml,
    Json,
}

/// What `toml::from_str` reads out of a text as a `serde_json::Value`, `None`
/// where it fails.
pub uninterp spec fn toml_value(text: Seq<char>) -> Option<serde_json::Value>;

/// What `serde_yaml::from_str` reads out of a text as a `serde_json::Value`,
/// `None` where it fails.
pub uninterp spec fn yaml_value(text: Seq<char>) -> Option<serde_json::Value>;

/// What `serde_json::from_str` reads out of a text as a `serde_json::Value`,
/// `None` where it fails.
pub uninterp spec fn json_value(text: Seq<char>) -> Option<serde_json::Value>;

/// `toml::from_str`, asked for a `serde_json::Value`: whether it succeeds and
/// what it reads depend on the text alone.
#[verifier::external_body]
fn parse_toml(text: &str) -> (parsed: Result<serde_json::Value, toml::de::Error>)
    ensures
        match parsed {
            Ok(value) => toml_value(text@) == Some(value),
            Err(_) => toml_value(text@) is None,
        },
{
    toml::from_str::<serde_json::Value>(text)
}

/// `serde_yaml::from_str`, asked for a `serde_json::Value`: whether it
/// succeeds and what it reads depend on the text alone.
#[verifier::external_body]
fn parse_yaml(text: &str) -> (parsed: Result<serde_json::Value, serde_yaml::Error>)
    ensures
        match parsed {
            Ok(value) => yaml_value(text@) == Some(value),
            Err(_) => yaml_value(text@) is None,
        },
{
    serde_yaml::from_str::<serde_json::Value>(text)
}

/// `serde_json::from_str`, asked for a `serde_json::Value`: whether it
/// succeeds and what it reads depend on the text alone.
#[verifier::external_body]
fn parse_json(text: &str) -> (parsed: Result<serde_json::Value, serde_json::Error>)
    ensures
        match parsed {
            Ok(value) => json_value(text@) == Some(value),
            Err(_) => json_value(text@) is None,
        },
{
    serde_json::from_str::<serde_json::Value>(text)
}

/// The tree of a value that may be missing.
pub open spec fn held(value: Option<serde_json::Value>) -> Option<TreeModel> {
    match value {
        Some(v) => Some(value_model(v)),
        None => None,
    }
}

/// Whether `extension` can be the extension of `path`: it holds no dot, and
/// it stands in the path behind a dot.
pub open spec fn can_be_extension(path: Seq<char>, extension: Seq<char>) -> bool {
    !extension.contains('.') && exists|at: int| occurs_at(path, seq!['.'] + extension, at)
}

/// Whether `path` is a file name and no more: it holds no separator of any
/// platform (`/`, `\`, `:`) and is not `..`.
pub open spec fn bare_name(path: Seq<char>) -> bool {
    !path.contains('/') && !path.contains('\\') && !path.contains(':') && path != seq!['.', '.']
}

/// Whether the last dot of `name` stands at `at`, and not at its very start.
pub open spec fn last_dot(name: Seq<char>, at: int) -> bool {
    0 < at < name.len() && name[at] == '.' && forall|j: int| at < j < name.len() ==> name[j] != '.'
}

/// The extension of a file name: what stands behind its last dot, unless the
/// name has no dot or only the one it begins with.
pub open spec fn name_extension(name: Seq<char>) -> Option<Seq<char>> {
    if exists|at: int| last_dot(name, at) {
        Some(name.skip(choose|at: int| last_dot(name, at)).skip(1))
    } else {
        None
    }
}

/// A name has one last dot: where it stands, the extension is what follows.
pub proof fn lemma_name_extension(name: Seq<char>, at: int)
    requires
        last_dot(name, at),
    ensures
        name_extension(name) == Some(name.skip(at + 1)),
{
    let chosen = choose|i: int| last_dot(name, i);
    assert(chosen == at) by {
        if chosen < at {
            assert(name[at] != '.');
        } else if at < chosen {
            assert(name[chosen] != '.');
        }
    }
    assert(name.skip(at).skip(1) =~= name.skip(at + 1));
}

/// The view of a text that may be missing.
pub open spec fn text_view(text: Option<String>) -> Option<Seq<char>> {
    match text {
        Some(t) => Some(t@),
        None => None,
    }
}

/// `std::path::Path::extension` of the path: the part of the file name behind
/// its last dot. Which part of a path is the file name depends on the
/// platform's separators; a path without any is the file name on every
/// platform, and its extension is then fixed.
#[verifier::external_body]
fn extension_of(path: &str) -> (extension: Option<String>)
    ensures
        extension matches Some(e) ==> can_be_extension(path@, e@),
        bare_name(path@) ==> text_view(extension) == name_extension(path@),
{
    std::path::Path::new(path).extension().and_then(|e| e.to_str()).map(|e| e.to_owned())
}

/// The format that an extension names: `toml`, `yaml` or `yml`, `json`, in
/// exactly this spelling.
pub open spec fn format_model(extension: Option<Seq<char>>) -> Option<Format> {
    match extension {
        Some(e) => if e == "toml"@ {
            Some(Format::Toml)
        } else if e == "yaml"@ || e == "yml"@ {
            Some(Format::Yaml)
        } else if e == "json"@ {
            Some(Format::Json)
        } else {
            None
        },
        None => None,
    }
}

/// The tree that a text holds when read in a format, `None` where it cannot
/// be read so.
pub open spec fn text_tree(format: Format, text: Seq<char>) -> Option<TreeModel> {
    match format {
        Format::Toml => held(toml_value(text)),
        Format::Yaml => held(yaml_value(text)),
        Format::Json => held(json_value(text)),
    }
}

/// Whether a failure is the one that reading in `format` ends in.
pub open spec fn is_parse_error(format: Format, error: ConfigError) -> bool {
    match format {
        Format::Toml => error is Toml,
        Format::Yaml => error is Yaml,
        Format::Json => error is Json,
    }
}

/// Whether `outcome` is what reading `text` from the file at `path` must give
/// when the path has this extension: the tree that the text holds in the
/// extension's format, that format's failure where the text cannot be read,
/// and `UnknownFileFormat` with the path where the extension names no format.
pub open spec fn reads(
    extension: Option<Seq<char>>,
    path: Seq<char>,
    text: Seq<char>,
    outcome: Result<Tree, ConfigError>,
) -> bool {
    match format_model(extension) {
        None => outcome matches Err(ConfigError::UnknownFileFormat(p)) && p@ == path,
        Some(format) => match text_tree(format, text) {
            Some(model) => outcome matches Ok(tree) && tree@ == model,
            None => outcome matches Err(error) && is_parse_error(format, error),
        },
    }
}

/// Whether `outcome` is what reading `text` from the file at `path` can give.
/// Where the path is a bare file name, it is what reading must give for the
/// extension of that name. Else it is what reading must give for some
/// extension that the path can have, or for none.
pub open spec fn parses(path: Seq<char>, text: Seq<char>, outcome: Result<Tree, ConfigError>) -> bool {
    &&& bare_name(path) ==> reads(name_extension(path), path, text, outcome)
    &&& exists|extension: Option<Seq<char>>|
        #![trigger reads(extension, path, text, outcome)]
        reads(extension, path, text, outcome) && (extension matches Some(e) ==> can_be_extension(
            path,
            e,
        ))
}

/// A path in which none of `.toml`, `.yaml`, `.yml` and `.json` stands names
/// no format, whatever the text of the file: reading it ends in
/// `UnknownFileFormat` with the path.
pub proof fn lemma_unknown_format(path: Seq<char>, text: Seq<char>, outcome: Result<Tree, ConfigError>)
    requires
        parses(path, text, outcome),
        forall|at: int| !occurs_at(path, seq!['.'] + "toml"@, at),
        forall|at: int| !occurs_at(path, seq!['.'] + "yaml"@, at),
        forall|at: int| !occurs_at(path, seq!['.'] + "yml"@, at),
        forall|at: int| !occurs_at(path, seq!['.'] + "json"@, at),
    ensures
        outcome matches Err(ConfigError::UnknownFileFormat(p)) && p@ == path,
{
}

/// The view of an extension that may be missing.
pub open spec fn extension_view(extension: Option<&str>) -> Option<Seq<char>> {
    match extension {
        Some(e) => Some(e@),
        None => None,
    }
}

/// The format that an extension names, if any.
pub fn format_of(extension: Option<&str>) -> (format: Option<Format>)
    ensures
        format == format_model(extension_view(extension)),
{
    match extension {
        Some(e) => {
            let e = e.to_owned();
            if e == "toml".to_owned() {
                Some(Format::Toml)
            } else if e == "yaml".to_owned() || e == "yml".to_owned() {
                Some(Format::Yaml)
            } else if e == "json".to_owned() {
                Some(Format::Json)
            } else {
                None
            }
        },
        None => None,
    }
}

/// Reads `text` in `format`.
pub fn parse_as(format: Format, text: &str) -> (outcome: Result<Tree, ConfigError>)
    ensures
        match outcome {
            Ok(tree) => text_tree(format, text@) == Some(tree@),
            Err(error) => text_tree(format, text@) is None && is_parse_error(format, error),
        },
{
    match format {
        Format::Toml => match parse_toml(text) {
            Ok(value) => Ok(tree_from_json(value)),
            Err(e) => Err(ConfigError::Toml(e)),
        },
        Format::Yaml => match parse_yaml(text) {
            Ok(value) => Ok(tree_from_json(value)),
            Err(e) => Err(ConfigError::Yaml(e)),
        },
        Format::Json => match parse_json(text) {
            Ok(value) => Ok(tree_from_json(value)),
            Err(e) => Err(ConfigError::Json(e)),
        },
    }
}

/// Reads the text of the file at `path`, whose extension is given.
pub fn read_with(extension: Option<&str>, path: &str, text: &str) -> (outcome: Result<
    Tree,
    ConfigError,
>)
    ensures
        reads(extension_view(extension), path@, text@, outcome),
{
    match format_of(extension) {
        Some(format) => parse_as(format, text),
        None => Err(ConfigError::UnknownFileFormat(path.to_owned())),
    }
}

/// A configuration file. Its format is told by the extension of its path.
pub struct File {
    path: String,
}

impl View for File {
    type V = Seq<char>;

    closed spec fn view(&self) -> Seq<char> {
        self.path@
    }
}

impl File {
    /// The file at `path`.
    pub fn new(path: &str) -> (file: File)
        ensures
            file@ == path@,
    {
        File { path: path.to_owned() }
    }

    /// The path of the file.
    pub fn path(&self) -> (path: &str)
        ensures
            path@ == self@,
    {
        self.path.as_str()
    }

    /// The tree that `text`, the content of this file, holds. The extension
    /// is taken from the path as the platform reads paths.
    pub fn collect(&self, text: &str) -> (outcome: Result<Tree, ConfigError>)
        ensures
            parses(self@, text@, outcome),
    {
        let extension = extension_of(self.path.as_str());
        let outcome = match &extension {
            Some(e) => read_with(Some(e.as_str()), self.path.as_str(), text),
            None => read_with(None, self.path.as_str(), text),
        };
        proof {
            let seen = match extension {
                Some(e) => Some(e@),
                None => None,
            };
            assert(reads(seen, self@, text@, outcome));
        }
        outcome
    }
}

} // verus!
