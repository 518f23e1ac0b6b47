//! The path of an entry below its source's root.

use std::path::{Path, PathBuf};
use vstd::prelude::*;
use vstd::utf8::{encode_utf8, valid_utf8};
use crate::bytes::{order_text, string_from_utf8, text_lt, Order};
use crate::Source;

verus! {

/// `Path` of std: a path as the platform writes it, carried through as it
/// is.
#[verifier::external_type_specification]
#[verifier::external_body]
pub struct ExPath(Path);

/// `PathBuf` of std: a path of its own, carried through as it is.
#[verifier::external_type_specification]
#[verifier::external_body]
pub struct ExPathBuf(PathBuf);

/// The text that a path holds, where what it holds is UTF-8.
pub uninterp spec fn path_str(path: &Path) -> Option<Seq<char>>;

/// The text that a path of its own holds, where what it holds is UTF-8.
pub uninterp spec fn path_buf_str(path: PathBuf) -> Option<Seq<char>>;

/// The text of what is left of `path` below the path that holds `base`,
/// where `path` lies below it and what is left is UTF-8. Paths are taken
/// apart as the platform takes them apart for which the library is built.
pub uninterp spec fn path_below(path: &Path, base: Seq<char>) -> Option<Seq<char>>;

/// The text of the path with `rest` below `base`, written as the platform
/// writes it for which the library is built.
pub uninterp spec fn path_joined(base: Seq<char>, rest: Seq<char>) -> Seq<char>;

/// Calls `Path::strip_prefix` of std: what is left of `path` below `base`,
/// where `path` lies below `base`, and nothing where it does not.
#[verifier::external_body]
fn strip_prefix<'a>(path: &'a Path, base: &Path) -> (rest: Option<&'a Path>)
    ensures
        path_str(base) matches Some(text) ==> match rest {
            Some(rest) => path_below(path, text) == path_str(rest),
            None => path_below(path, text) is None,
        },
{
    path.strip_prefix(base).ok()
}

/// Calls `Path::to_str` of std: the text that the path holds, where it is
/// UTF-8.
#[verifier::external_body]
fn path_text(path: &Path) -> (text: Option<&str>)
    ensures
        match text {
            Some(text) => path_str(path) == Some(text@),
            None => path_str(path) is None,
        },
{
    path.to_str()
}

/// Calls `Path::join` of std: `rest` below `base`, as the platform writes
/// it. Two paths that hold text give one that holds text.
#[verifier::external_body]
fn join(base: &Path, rest: &Path) -> (path: PathBuf)
    ensures
        path_str(base) matches Some(b) ==> (path_str(rest) matches Some(r) ==> path_buf_str(path)
            == Some(path_joined(b, r))),
{
    base.join(rest)
}

/// Calls `Path::new` of std: a path that holds the text and nothing else.
#[verifier::external_body]
fn as_path(text: &str) -> (path: &Path)
    ensures
        path_str(path) == Some(text@),
{
    Path::new(text)
}

/// Calls `PathBuf::from` of std: a path of its own that holds the text and
/// nothing else.
#[verifier::external_body]
fn path_buf(text: &str) -> (path: PathBuf)
    ensures
        path_buf_str(path) == Some(text@),
{
    PathBuf::from(text)
}

/// Relative path of an entry: UTF-8 text, empty where the source is itself
/// the file.
#[derive(Debug)]
pub struct EntryPath(String);

impl View for EntryPath {
    type V = Seq<char>;

    closed spec fn view(&self) -> Seq<char> {
        self.0@
    }
}

impl Clone for EntryPath {
    fn clone(&self) -> (path: Self)
        ensures
            path == *self,
    {
        EntryPath(self.0.clone())
    }
}

impl EntryPath {
    /// The path of a source that is itself the file.
    pub fn empty() -> (path: Self)
        ensures
            path@ == Seq::<char>::empty(),
    {
        EntryPath(String::new())
    }

    /// The path of `path` below the root of `source`; `None` where `path`
    /// does not lie below that root, or what is left of it is not UTF-8.
    pub fn new(source: &Source, path: &Path) -> (entry_path: Option<Self>)
        ensures
            match entry_path {
                Some(entry_path) => path_below(path, source.path@) == Some(entry_path@),
                None => path_below(path, source.path@) is None,
            },
    {
        match strip_prefix(path, as_path(source.path.as_str())) {
            Some(rest) => EntryPath::from_path(rest),
            None => None,
        }
    }

    /// The entry path that holds the text of `path`, where that is UTF-8.
    pub fn from_path(path: &Path) -> (entry_path: Option<Self>)
        ensures
            match entry_path {
                Some(entry_path) => path_str(path) == Some(entry_path@),
                None => path_str(path) is None,
            },
    {
        match path_text(path) {
            Some(text) => Some(EntryPath(text.to_owned())),
            None => None,
        }
    }

    /// The place of the entry in the file system: its path below the root
    /// of `source`, and the root itself for the empty path.
    pub fn in_source(&self, source: &Source) -> (path: PathBuf)
        ensures
            path_buf_str(path) == Some(
                if self@.len() == 0 {
                    source.path@
                } else {
                    path_joined(source.path@, self@)
                },
            ),
    {
        if self.is_empty() {
            path_buf(source.path.as_str())
        } else {
            join(as_path(source.path.as_str()), as_path(self.0.as_str()))
        }
    }

    /// How the path stands to `other`: by the bytes of their UTF-8.
    pub fn order(&self, other: &EntryPath) -> (order: Order)
        ensures
            order == Order::Less <==> text_lt(self@, other@),
            order == Order::Equal <==> self@ == other@,
            order == Order::Greater <==> text_lt(other@, self@),
    {
        order_text(self.0.as_str(), other.0.as_str())
    }

    /// The path as a path of the file system: one that holds its text.
    pub fn as_path(&self) -> (path: &Path)
        ensures
            path_str(path) == Some(self@),
    {
        as_path(self.0.as_str())
    }

    /// The path that `bytes` spell, where they are UTF-8.
    pub fn from_bytes(bytes: Vec<u8>) -> (path: Option<Self>)
        ensures
            path is Some <==> valid_utf8(bytes@),
            path matches Some(p) ==> encode_utf8(p@) == bytes@,
    {
        match string_from_utf8(bytes) {
            Some(text) => Some(EntryPath(text)),
            None => None,
        }
    }

    /// The path as UTF-8.
    pub fn as_bytes(&self) -> (bytes: &[u8])
        ensures
            bytes@ == encode_utf8(self@),
    {
        self.0.as_str().as_bytes()
    }

    /// The path as text.
    pub fn as_str(&self) -> (text: &str)
        ensures
            text@ == self@,
    {
        self.0.as_str()
    }

    /// A copy of the path's text.
    pub fn to_string(&self) -> (text: String)
        ensures
            text@ == self@,
    {
        self.0.clone()
    }

    /// Whether the path is empty: the source is itself the file.
    pub fn is_empty(&self) -> (empty: bool)
        ensures
            empty == (self@.len() == 0),
    {
        self.0.as_str().is_empty()
    }
}

} // verus!
