//! The generated catalogue: extensions, grammars and their pinned sources.
//!
//! These are the records written out as one JSON file per extension and
//! per grammar. Maps of the on-disk format are held here as vectors of
//! pairs in key order.

use vstd::prelude::*;

verus! {

/// The whole catalogue: every known extension and every known grammar.
#[derive(Debug, Clone, PartialEq, Eq)]
pub struct NixExtensions {
    pub extensions: Vec<Extension>,
    pub grammars: Vec<Grammar>,
}

impl NixExtensions {
    /// An empty catalogue.
    pub fn new() -> (r: NixExtensions)
        ensures
            r.extensions@.len() == 0,
            r.grammars@.len() == 0,
    {
        NixExtensions { extensions: Vec::new(), grammars: Vec::new() }
    }
}

impl Default for NixExtensions {
    fn default() -> (r: NixExtensions)
        ensures
            r.extensions@.len() == 0,
            r.grammars@.len() == 0,
    {
        NixExtensions::new()
    }
}

/// One Zed extension pinned to a source revision.
#[derive(Debug, Clone, PartialEq, Eq)]
pub struct Extension {
    pub name: String,
    pub version: String,
    pub src: Source,
    /// Directory of the extension inside its repository, if not the root.
    pub root: Option<String>,
    /// Ids of the grammars this extension ships.
    pub grammars: Vec<String>,
    pub kind: ExtensionKind,
}

/// How an extension is built.
#[derive(Debug, Clone, PartialEq, Eq)]
pub enum ExtensionKind {
    /// Copied as it is.
    Plain,
    /// Compiled from a Cargo project to WebAssembly.
    Rust { cargo_root: Option<String>, cargo_hash: String, cargo_lock: Option<CargoLock> },
}

/// A vendored `Cargo.lock` and the hashes of its git dependencies.
#[derive(Debug, Clone, PartialEq, Eq)]
pub struct CargoLock {
    pub lock_file: String,
    /// Pairs of dependency and hash, in key order, each key once.
    pub output_hashes: Vec<(String, String)>,
}

/// A pinned git source, as `nix-prefetch-git` reports it.
#[derive(Debug, Clone, PartialEq, Eq)]
pub struct Source {
    pub url: String,
    pub rev: String,
    pub date: String,
    pub path: String,
    pub sha256: String,
    pub hash: String,
    pub fetch_lfs: bool,
    pub fetch_submodules: bool,
    pub deep_clone: bool,
    pub leave_dot_git: bool,
}

/// One tree-sitter grammar pinned to a source revision.
#[derive(Debug, Clone, PartialEq, Eq)]
pub struct Grammar {
    /// `<extension>_<grammar name>`.
    pub id: String,
    pub name: String,
    pub version: String,
    pub src: Source,
    /// Directory of the grammar inside its repository, if not the root.
    pub root: Option<String>,
}

} // verus!
