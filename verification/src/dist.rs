//! Where the metadata of an installed package lies, and which directories a
//! search for source files passes by.

use crate::outside::{regex_captures, regex_compiles, regex_groups};
use crate::text::{eq_chars, occurs_at_chars, to_chars};
use vstd::prelude::*;

verus! {

/// The way in which a package is stored: with its path.
#[derive(Debug, Clone)]
pub enum DistType {
    /// A directory `*.egg-info`, with the metadata in its file `PKG-INFO`.
    EggDir(String),
    /// A directory `*.dist-info`, with the metadata in its file `METADATA`.
    DistDir(String),
    /// A file `*.egg-info` or `*.dist-info` that is the metadata.
    Info(String),
}

/// `p` is what `s` ends with.
pub open spec fn has_suffix(s: Seq<char>, p: Seq<char>) -> bool {
    p.len() <= s.len() && s.subrange(s.len() - p.len(), s.len() as int) == p
}

/// The kind of an entry of a package directory: 0 for an egg directory, 1 for
/// a dist directory, 2 for a metadata file, and none for any other entry.
pub open spec fn dist_kind(filename: Seq<char>, is_dir: bool) -> Option<int> {
    if has_suffix(filename, ".egg-info"@) {
        Some(if is_dir { 0int } else { 2int })
    } else if has_suffix(filename, ".dist-info"@) {
        Some(if is_dir { 1int } else { 2int })
    } else {
        None
    }
}

impl DistType {
    pub open spec fn kind(self) -> int {
        match self {
            DistType::EggDir(_) => 0,
            DistType::DistDir(_) => 1,
            DistType::Info(_) => 2,
        }
    }

    pub open spec fn path_view(self) -> Seq<char> {
        match self {
            DistType::EggDir(p) => p@,
            DistType::DistDir(p) => p@,
            DistType::Info(p) => p@,
        }
    }

    /// The path of the entry.
    pub fn path(&self) -> (p: &String)
        ensures
            p@ == self.path_view(),
    {
        match self {
            DistType::EggDir(p) => p,
            DistType::DistDir(p) => p,
            DistType::Info(p) => p,
        }
    }

    /// The name of the file below the path that holds the metadata; none where
    /// the path is that file.
    pub fn metadata_file(&self) -> (name: Option<String>)
        ensures
            match name {
                Some(n) => (self.kind() == 0 && n@ == "PKG-INFO"@) || (self.kind() == 1 && n@
                    == "METADATA"@),
                None => self.kind() == 2,
            },
    {
        match self {
            DistType::EggDir(_) => Some(String::from_str("PKG-INFO")),
            DistType::DistDir(_) => Some(String::from_str("METADATA")),
            DistType::Info(_) => None,
        }
    }
}

fn has_suffix_chars(s: &Vec<char>, p: &Vec<char>) -> (b: bool)
    ensures
        b == has_suffix(s@, p@),
{
    if p.len() > s.len() {
        return false;
    }
    occurs_at_chars(s, p, s.len() - p.len())
}

/// Tells how the entry `filename` of a package directory stores a package,
/// where it stores one: by the end of its name, and by whether it is a
/// directory.
pub fn dist_type(path: String, filename: &str, is_dir: bool) -> (r: Option<DistType>)
    ensures
        match r {
            Some(d) => dist_kind(filename@, is_dir) == Some(d.kind()) && d.path_view() == path@,
            None => dist_kind(filename@, is_dir) is None,
        },
{
    let name = to_chars(filename);
    if has_suffix_chars(&name, &to_chars(".egg-info")) {
        if is_dir {
            Some(DistType::EggDir(path))
        } else {
            Some(DistType::Info(path))
        }
    } else if has_suffix_chars(&name, &to_chars(".dist-info")) {
        if is_dir {
            Some(DistType::DistDir(path))
        } else {
            Some(DistType::Info(path))
        }
    } else {
        None
    }
}

/// The pattern `pattern` matches somewhere in `name`.
pub open spec fn pattern_matches(pattern: Seq<char>, name: Seq<char>) -> bool {
    regex_compiles(pattern) && regex_groups(pattern, name) is Some
}

/// A search for source files passes the directory by: a build directory, a
/// cache directory, package metadata, or a hidden directory.
pub open spec fn ignored_dir(name: Seq<char>) -> bool {
    ||| pattern_matches("^dist$"@, name)
    ||| pattern_matches("^__pycache__$"@, name)
    ||| pattern_matches("^.*\\.egg-info$"@, name)
    ||| pattern_matches("^\\..*$"@, name)
}

fn matches_pattern(pattern: &str, name: &str) -> (b: bool)
    ensures
        b == pattern_matches(pattern@, name@),
{
    match regex_captures(pattern, name) {
        Ok(groups) => groups.is_some(),
        Err(_) => false,
    }
}

/// Whether a search for source files passes the directory `name` by.
pub fn is_ignored_dir(name: &str) -> (b: bool)
    ensures
        b == ignored_dir(name@),
{
    matches_pattern("^dist$", name) || matches_pattern("^__pycache__$", name) || matches_pattern(
        "^.*\\.egg-info$",
        name,
    ) || matches_pattern("^\\..*$", name)
}

/// Whether a file with this extension is a Python source file.
pub fn is_python_extension(extension: &str) -> (b: bool)
    ensures
        b == (extension@ == "py"@),
{
    eq_chars(&to_chars(extension), &to_chars("py"))
}

} // verus!
