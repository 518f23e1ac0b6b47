//! Encrypted backup archives: the container format, its header codec, the
//! seekable stream cipher adapter, the indexer and the bin-packer, all on
//! in-memory byte streams.

pub mod archive;
pub mod bytes;
pub mod crypto;
pub mod error;
pub mod group;
pub mod header;
pub mod index;
pub mod pack;
pub mod roundtrip;
pub mod sorted;
pub mod stream;
pub mod unpack;

use vstd::prelude::*;
use crate::bytes::{order_text, text_lt, Order};
use crate::bytes::{lemma_text_lt_irreflexive, lemma_text_lt_transitive};
use crate::index::EntryPath;

pub use crate::archive::Archive;
pub use crate::crypto::{encode_key, generate_key, parse_key, Key};
pub use crate::error::Error;
pub use crate::pack::pack;

verus! {

/// The marker at the front of every container: `backy archive v0.2` and a
/// line feed.
pub const BKY_HEADER: [u8; 19] = [
    0x62, 0x61, 0x63, 0x6b, 0x79, 0x20, 0x61, 0x72, 0x63, 0x68, 0x69, 0x76, 0x65, 0x20, 0x76, 0x30,
    0x2e, 0x32, 0x0a,
];

/// A root that the user named: a directory tree or a single file.
#[derive(Debug)]
pub struct Source {
    /// The root's file name, by which the archive knows the source.
    pub id: String,
    /// Whether the root is itself a file.
    pub is_file: bool,
    /// The root's canonical absolute path.
    pub path: String,
}

/// What a source is, as plain values.
pub struct SourceView {
    pub id: Seq<char>,
    pub is_file: bool,
    pub path: Seq<char>,
}

impl View for Source {
    type V = SourceView;

    open spec fn view(&self) -> SourceView {
        SourceView { id: self.id@, is_file: self.is_file, path: self.path@ }
    }
}

impl Source {
    /// `self` comes before `other`: by id, and by path where the ids are
    /// the same.
    pub open spec fn lt(&self, other: &Source) -> bool {
        text_lt(self.id@, other.id@) || (self.id@ == other.id@ && text_lt(self.path@, other.path@))
    }

    /// How the source stands to `other`: by id, then by path.
    pub fn order(&self, other: &Source) -> (order: Order)
        ensures
            order == Order::Less <==> self.lt(other),
            order == Order::Equal <==> self.id@ == other.id@ && self.path@ == other.path@,
            order == Order::Greater <==> other.lt(self),
    {
        proof {
            lemma_text_lt_irreflexive(self.id@);
            lemma_text_lt_irreflexive(self.path@);
            if text_lt(self.id@, other.id@) && text_lt(other.id@, self.id@) {
                lemma_text_lt_transitive(self.id@, other.id@, self.id@);
            }
            if text_lt(self.path@, other.path@) && text_lt(other.path@, self.path@) {
                lemma_text_lt_transitive(self.path@, other.path@, self.path@);
            }
        }
        match order_text(self.id.as_str(), other.id.as_str()) {
            Order::Equal => order_text(self.path.as_str(), other.path.as_str()),
            order => order,
        }
    }
}

impl Clone for Source {
    fn clone(&self) -> (source: Self)
        ensures
            source == *self,
    {
        Source { id: self.id.clone(), is_file: self.is_file, path: self.path.clone() }
    }
}

/// One file found under a source, with the size it had when it was found.
#[derive(Debug)]
pub struct Entry {
    pub source: Source,
    pub path: EntryPath,
    pub size: u64,
}

/// What an entry is, as plain values.
pub struct EntryView {
    pub source: SourceView,
    pub path: Seq<char>,
    pub size: u64,
}

impl View for Entry {
    type V = EntryView;

    open spec fn view(&self) -> EntryView {
        EntryView { source: self.source@, path: self.path@, size: self.size }
    }
}

} // verus!
