//! The texts of the errors that stop an analysis, and its options.
use vstd::prelude::*;

use crate::config::{ConfigError, ConfigFault};
use crate::text::concat_text;

verus! {

/// The text of a configuration error.
pub open spec fn config_error_text(e: ConfigFault) -> Seq<char> {
    match e {
        ConfigFault::ReadFailed { path, message } => "failed to read "@ + path + ": "@ + message,
        ConfigFault::ParseFailed { path, message } => "failed to parse "@ + path + ": "@ + message,
        ConfigFault::MissingRoot { path } => "configured root does not exist: "@ + path,
        ConfigFault::UnmatchedRootGlob { pattern } => "configured root glob matched no paths: "@ + pattern,
        ConfigFault::DuplicateModule { module } => "duplicate configured module root: "@ + module,
        ConfigFault::DuplicateRootGroup { name } => "duplicate configured root group: "@ + name,
        ConfigFault::EmptyRoots => "configuration must include at least one root"@,
        ConfigFault::EmptyRootGroupName => "root group name must not be empty"@,
        ConfigFault::EmptyRootGroupEntrypoints { name } => "root group "@ + name + " must include at least one entrypoint"@,
        ConfigFault::InvalidRule { message } => "invalid rule: "@ + message,
    }
}

fn three(a: &str, b: &str, c: &str) -> (r: String)
    ensures
        r@ == a@ + b@ + c@,
{
    let ab = concat_text(a, b);
    concat_text(ab.as_str(), c)
}

impl ConfigError {
    /// What the error says (its `Display` text).
    pub fn message(&self) -> (r: String)
        ensures
            r@ == config_error_text(self@),
    {
        match self {
            ConfigError::ReadFailed { path, message } => {
                let head = three("failed to read ", path.as_str(), ": ");
                concat_text(head.as_str(), message.as_str())
            },
            ConfigError::ParseFailed { path, message } => {
                let head = three("failed to parse ", path.as_str(), ": ");
                concat_text(head.as_str(), message.as_str())
            },
            ConfigError::MissingRoot { path } => concat_text("configured root does not exist: ", path.as_str()),
            ConfigError::UnmatchedRootGlob { pattern } => concat_text(
                "configured root glob matched no paths: ",
                pattern.as_str(),
            ),
            ConfigError::DuplicateModule { module } => concat_text("duplicate configured module root: ", module.as_str()),
            ConfigError::DuplicateRootGroup { name } => concat_text("duplicate configured root group: ", name.as_str()),
            ConfigError::EmptyRoots => String::from_str("configuration must include at least one root"),
            ConfigError::EmptyRootGroupName => String::from_str("root group name must not be empty"),
            ConfigError::EmptyRootGroupEntrypoints { name } => three(
                "root group ",
                name.as_str(),
                " must include at least one entrypoint",
            ),
            ConfigError::InvalidRule { message } => concat_text("invalid rule: ", message.as_str()),
        }
    }
}

/// Why the files of a project could not be indexed: a file or a directory
/// could not be read, with the reason the system gave.
#[derive(Debug)]
pub enum SymbolIndexError {
    ReadFile { path: String, message: String },
    ReadDirectory { path: String, message: String },
}

impl SymbolIndexError {
    /// What the error says (its `Display` text).
    pub fn message(&self) -> (r: String)
        ensures
            r@ == (match self {
                SymbolIndexError::ReadFile { path, message } => "failed to read Python file "@ + path@ + ": "@ + message@,
                SymbolIndexError::ReadDirectory { path, message } => "failed to read directory "@ + path@ + ": "@
                    + message@,
            }),
    {
        match self {
            SymbolIndexError::ReadFile { path, message } => {
                let head = three("failed to read Python file ", path.as_str(), ": ");
                concat_text(head.as_str(), message.as_str())
            },
            SymbolIndexError::ReadDirectory { path, message } => {
                let head = three("failed to read directory ", path.as_str(), ": ");
                concat_text(head.as_str(), message.as_str())
            },
        }
    }
}

/// The text of an error that stops indexing.
pub open spec fn index_error_text(e: SymbolIndexError) -> Seq<char> {
    match e {
        SymbolIndexError::ReadFile { path, message } => "failed to read Python file "@ + path@ + ": "@ + message@,
        SymbolIndexError::ReadDirectory { path, message } => "failed to read directory "@ + path@ + ": "@ + message@,
    }
}

/// Why an analysis could not run: its configuration could not be loaded,
/// or its files could not be indexed.
#[derive(Debug)]
pub enum AnalyzeError {
    Config(ConfigError),
    SymbolIndex(SymbolIndexError),
}

impl AnalyzeError {
    /// What the error says (its `Display` text): that of the error inside.
    pub fn message(&self) -> (r: String)
        ensures
            r@ == (match self {
                AnalyzeError::Config(e) => config_error_text(e@),
                AnalyzeError::SymbolIndex(e) => index_error_text(*e),
            }),
    {
        match self {
            AnalyzeError::Config(e) => e.message(),
            AnalyzeError::SymbolIndex(e) => e.message(),
        }
    }
}

/// What one analysis reads: the path of its configuration file.
#[derive(Debug, Clone, PartialEq, Eq)]
pub struct AnalyzeOptions {
    pub config_path: String,
}

impl AnalyzeOptions {
    pub fn new(config_path: &str) -> (r: Self)
        ensures
            r.config_path@ == config_path@,
    {
        AnalyzeOptions { config_path: String::from_str(config_path) }
    }
}

} // verus!
