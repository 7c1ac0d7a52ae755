//! File names, directories and the check of a terminology document's format.
use crate::reader::opt_view;
use crate::stream::{is_json, json_valid, same_text};
use vstd::prelude::*;

verus! {

pub const CONFIG_DIR: &'static str = "config";

pub const TRANSLATION_DIR: &'static str = "translation";

pub const TERM_DIR: &'static str = "term";

/// What `Path::file_stem` gives for a path on the target platform: its final
/// component without the extension.
pub uninterp spec fn file_stem_of(p: Seq<char>) -> Option<Seq<char>>;

/// What `Path::file_name` gives for a path on the target platform: its final
/// component.
pub uninterp spec fn file_name_of(p: Seq<char>) -> Option<Seq<char>>;

/// What `Path::extension` gives for a path on the target platform.
pub uninterp spec fn extension_of(p: Seq<char>) -> Option<Seq<char>>;

/// Whether `toml` parses the text as a TOML document.
pub uninterp spec fn toml_document(s: Seq<char>) -> bool;

/// Whether `serde_yaml` parses the text as a YAML document.
pub uninterp spec fn yaml_document(s: Seq<char>) -> bool;

/// Relies on `Path::file_stem`, which splits at the target platform's separators;
/// a path made from a `&str` converts back losslessly.
#[verifier::external_body]
fn path_file_stem(p: &str) -> (r: Option<String>)
    ensures
        opt_view(r) == file_stem_of(p@),
{
    std::path::Path::new(p).file_stem().map(|s| s.to_string_lossy().to_string())
}

/// Relies on `Path::file_name`, which splits at the target platform's separators;
/// a path made from a `&str` converts back losslessly.
#[verifier::external_body]
fn path_file_name(p: &str) -> (r: Option<String>)
    ensures
        opt_view(r) == file_name_of(p@),
{
    std::path::Path::new(p).file_name().map(|s| s.to_string_lossy().to_string())
}

/// Relies on `Path::extension`, which splits at the target platform's separators;
/// a path made from a `&str` converts back losslessly.
#[verifier::external_body]
fn path_extension(p: &str) -> (r: Option<String>)
    ensures
        opt_view(r) == extension_of(p@),
{
    std::path::Path::new(p).extension().map(|s| s.to_string_lossy().to_string())
}

/// Relies on `toml::de::from_str::<toml::Value>`: succeeds exactly on a TOML document.
#[verifier::external_body]
fn is_toml(s: &str) -> (r: bool)
    ensures
        r == toml_document(s@),
{
    toml::de::from_str::<toml::Value>(s).is_ok()
}

/// Relies on `serde_yaml::from_str::<serde_yaml::Value>`: succeeds exactly on a YAML document.
#[verifier::external_body]
fn is_yaml(s: &str) -> (r: bool)
    ensures
        r == yaml_document(s@),
{
    serde_yaml::from_str::<serde_yaml::Value>(s).is_ok()
}

/// The file name without its extension; the whole name where it has no stem.
pub fn remove_extension(file_name: &str) -> (r: String)
    ensures
        r@ == match file_stem_of(file_name@) {
            Some(stem) => stem,
            None => file_name@,
        },
{
    match path_file_stem(file_name) {
        Some(stem) => stem,
        None => String::from_str(file_name),
    }
}

/// Why a path has no usable file name.
#[derive(Debug, Clone, Copy, PartialEq, Eq, Structural)]
pub enum PathError {
    /// The path ends in no file name (`..`, `/`, or nothing).
    NotFound,
}

/// The final component of a path.
pub fn get_filename(file_path: &str) -> (r: Result<String, PathError>)
    ensures
        match file_name_of(file_path@) {
            Some(name) => r matches Ok(s) && s@ == name,
            None => r == Err::<String, PathError>(PathError::NotFound),
        },
{
    match path_file_name(file_path) {
        Some(name) => Ok(name),
        None => Err(PathError::NotFound),
    }
}

/// Why a terminology document was refused.
#[derive(Debug, Clone, Copy, PartialEq, Eq, Structural)]
pub enum DocumentError {
    /// The extension names no supported format.
    Unsupported,
    /// The content does not parse in the format that the extension names.
    Invalid,
}

/// The result of reading a terminology document: text is taken as it is,
/// JSON, TOML and YAML must parse, other extensions are refused.
pub open spec fn document_result(ext: Option<Seq<char>>, content: Seq<char>) -> Result<
    Seq<char>,
    DocumentError,
> {
    let e = match ext {
        Some(e) => e,
        None => Seq::empty(),
    };
    if e == seq!['t', 'x', 't'] {
        Ok(content)
    } else if e == seq!['j', 's', 'o', 'n'] {
        if json_valid(content) {
            Ok(content)
        } else {
            Err(DocumentError::Invalid)
        }
    } else if e == seq!['t', 'o', 'm', 'l'] {
        if toml_document(content) {
            Ok(content)
        } else {
            Err(DocumentError::Invalid)
        }
    } else if e == seq!['y', 'a', 'm', 'l'] || e == seq!['y', 'm', 'l'] {
        if yaml_document(content) {
            Ok(content)
        } else {
            Err(DocumentError::Invalid)
        }
    } else {
        Err(DocumentError::Unsupported)
    }
}

pub open spec fn result_view(r: Result<String, DocumentError>) -> Result<Seq<char>, DocumentError> {
    match r {
        Ok(s) => Ok(s@),
        Err(e) => Err(e),
    }
}

/// Checks the content read from `file_path` against the format that its
/// extension names, and returns it unchanged where it passes.
pub fn check_document(file_path: &str, content: String) -> (r: Result<String, DocumentError>)
    ensures
        result_view(r) == document_result(extension_of(file_path@), content@),
{
    let ext = match path_extension(file_path) {
        Some(e) => e,
        None => String::new(),
    };
    proof {
        reveal_strlit("txt");
        reveal_strlit("json");
        reveal_strlit("toml");
        reveal_strlit("yaml");
        reveal_strlit("yml");
        assert("txt"@ =~= seq!['t', 'x', 't']);
        assert("json"@ =~= seq!['j', 's', 'o', 'n']);
        assert("toml"@ =~= seq!['t', 'o', 'm', 'l']);
        assert("yaml"@ =~= seq!['y', 'a', 'm', 'l']);
        assert("yml"@ =~= seq!['y', 'm', 'l']);
    }
    if same_text(ext.as_str(), "txt") {
        Ok(content)
    } else if same_text(ext.as_str(), "json") {
        if is_json(content.as_str()) {
            Ok(content)
        } else {
            Err(DocumentError::Invalid)
        }
    } else if same_text(ext.as_str(), "toml") {
        if is_toml(content.as_str()) {
            Ok(content)
        } else {
            Err(DocumentError::Invalid)
        }
    } else if same_text(ext.as_str(), "yaml") || same_text(ext.as_str(), "yml") {
        if is_yaml(content.as_str()) {
            Ok(content)
        } else {
            Err(DocumentError::Invalid)
        }
    } else {
        Err(DocumentError::Unsupported)
    }
}

} // verus!
