//! The index: the files found under the sources, by source and by group.

pub mod entry_path;

use vstd::prelude::*;
use vstd::multiset::Multiset;
use vstd::seq_lib::{lemma_multiset_commutative, to_multiset_build, to_multiset_insert};
use crate::bytes::{order_text, text_lt, Order};
use crate::bytes::{lemma_text_lt_irreflexive, lemma_text_lt_total, lemma_text_lt_transitive};
use crate::error::Error;
use crate::group::{create_groups, entry_views, group_views, grouping, total_size};
use crate::group::{lemma_group_is_part, lemma_grouping_partitions, lemma_no_entries};
use crate::group::{lemma_total_size_push, reversed, GroupView};
use crate::sorted::{search, sorted, Keyed};
use crate::sorted::lemma_insert_sorted;
use crate::{EntryView, Source, SourceView};

pub use crate::index::entry_path::EntryPath;

verus! {

/// One file of a source, with the size it had when it was found.
#[derive(Debug)]
pub struct Entry {
    pub path: EntryPath,
    pub size: u64,
}

/// What an index entry is, as plain values.
pub struct FileRecord {
    pub path: Seq<char>,
    pub size: u64,
}

impl View for Entry {
    type V = FileRecord;

    open spec fn view(&self) -> FileRecord {
        FileRecord { path: self.path@, size: self.size }
    }
}

impl Clone for Entry {
    fn clone(&self) -> (entry: Self)
        ensures
            entry == *self,
    {
        Entry { path: self.path.clone(), size: self.size }
    }
}

impl Keyed for Entry {
    open spec fn key(&self) -> Seq<char> {
        self.path@
    }

    fn key_str(&self) -> (key: &str) {
        self.path.as_str()
    }
}

/// The files of one source.
#[derive(Debug)]
pub enum Entries {
    /// The files below a directory, in ascending order of their paths.
    Directory(Vec<Entry>),
    /// The one file that the source is.
    File(Entry),
}

impl View for Entries {
    type V = Seq<FileRecord>;

    open spec fn view(&self) -> Seq<FileRecord> {
        match self {
            Entries::Directory(entries) => entries@.map_values(|e: Entry| e@),
            Entries::File(entry) => seq![entry@],
        }
    }
}

impl Entries {
    /// The number of files.
    pub fn len(&self) -> (len: usize)
        ensures
            len == self@.len(),
    {
        match self {
            Entries::Directory(entries) => entries.len(),
            Entries::File(_) => 1,
        }
    }

    /// The file at `index`.
    pub fn get(&self, index: usize) -> (entry: &Entry)
        requires
            index < self@.len(),
        ensures
            entry@ == self@[index as int],
    {
        match self {
            Entries::Directory(entries) => &entries[index],
            Entries::File(entry) => entry,
        }
    }
}

/// A source with its files.
#[derive(Debug)]
pub struct SourceEntries {
    pub source: Source,
    pub entries: Entries,
}

/// What a source with its files is, as plain values.
pub struct SourceFiles {
    pub source: SourceView,
    pub files: Seq<FileRecord>,
}

impl View for SourceEntries {
    type V = SourceFiles;

    open spec fn view(&self) -> SourceFiles {
        SourceFiles { source: self.source@, files: self.entries@ }
    }
}

impl Keyed for SourceEntries {
    open spec fn key(&self) -> Seq<char> {
        self.source.id@
    }

    fn key_str(&self) -> (key: &str) {
        self.source.id.as_str()
    }
}

impl SourceEntries {
    /// A file source has its one file; a directory source has its files, at
    /// least one, in ascending order of their paths, each once.
    pub open spec fn wf(&self) -> bool {
        match self.entries {
            Entries::Directory(entries) => !self.source.is_file && sorted(entries@)
                && entries@.len() > 0,
            Entries::File(entry) => self.source.is_file,
        }
    }
}

/// Sources with their files, in ascending order of the sources' ids, each id
/// once.
#[derive(Debug)]
pub struct Sources {
    items: Vec<SourceEntries>,
}

impl View for Sources {
    type V = Seq<SourceFiles>;

    closed spec fn view(&self) -> Seq<SourceFiles> {
        self.items@.map_values(|s: SourceEntries| s@)
    }
}

impl Sources {
    /// The sources as they are held.
    pub closed spec fn items(&self) -> Seq<SourceEntries> {
        self.items@
    }

    pub open spec fn wf(&self) -> bool {
        &&& sorted(self.items())
        &&& forall|i: int| 0 <= i < self.items().len() ==> (#[trigger] self.items()[i]).wf()
        &&& self@ == self.items().map_values(|s: SourceEntries| s@)
    }

    /// No sources.
    pub fn new() -> (sources: Self)
        ensures
            sources.wf(),
            sources.items().len() == 0,
    {
        Sources { items: Vec::new() }
    }

    /// The number of sources.
    pub fn len(&self) -> (len: usize)
        ensures
            len == self.items().len(),
    {
        self.items.len()
    }

    /// The source at `index`, with its files.
    pub fn get(&self, index: usize) -> (item: &SourceEntries)
        requires
            index < self.items().len(),
        ensures
            *item == self.items()[index as int],
    {
        &self.items[index]
    }
}

/// The files of a source as entries of the index.
pub open spec fn source_entries(source: SourceFiles) -> Seq<EntryView> {
    Seq::new(
        source.files.len(),
        |j: int|
            EntryView { source: source.source, path: source.files[j].path, size: source.files[j].size },
    )
}

/// The files of all sources as entries of the index, source by source.
pub open spec fn flat_entries(sources: Seq<SourceFiles>) -> Seq<EntryView>
    decreases sources.len(),
{
    if sources.len() == 0 {
        Seq::empty()
    } else {
        flat_entries(sources.drop_last()) + source_entries(sources.last())
    }
}

/// Two entries that cannot both stand in an index: they share the source's
/// id, and either the sources differ, or the source is a file, which has one
/// entry, or they share the path.
pub open spec fn conflict(a: EntryView, b: EntryView) -> bool {
    a.source.id == b.source.id && (a.source != b.source || a.source.is_file || a.path == b.path)
}

/// No two of the entries are in conflict, and none occurs twice.
pub open spec fn unique_entries(entries: Multiset<EntryView>) -> bool {
    forall|a: EntryView, b: EntryView|
        entries.count(a) > 0 && entries.count(b) > 0 && #[trigger] conflict(a, b) ==> a == b
            && entries.count(a) == 1
}

pub proof fn lemma_flat_entries_concat(left: Seq<SourceFiles>, right: Seq<SourceFiles>)
    ensures
        flat_entries(left + right) == flat_entries(left) + flat_entries(right),
    decreases right.len(),
{
    if right.len() == 0 {
        assert(left + right =~= left);
        assert(flat_entries(left) + flat_entries(right) =~= flat_entries(left));
    } else {
        assert((left + right).drop_last() =~= left + right.drop_last());
        lemma_flat_entries_concat(left, right.drop_last());
        assert(flat_entries(left + right) =~= flat_entries(left) + flat_entries(right));
    }
}

pub proof fn lemma_flat_entries_one(source: SourceFiles)
    ensures
        flat_entries(seq![source]) == source_entries(source),
{
    assert(seq![source].drop_last() =~= Seq::<SourceFiles>::empty());
    assert(flat_entries(seq![source].drop_last()) =~= Seq::<EntryView>::empty());
    assert(flat_entries(seq![source]) =~= source_entries(source));
}

/// What stands in one of the sources stands among all their entries.
pub proof fn lemma_flat_entries_contains(sources: Seq<SourceFiles>, i: int, j: int)
    requires
        0 <= i < sources.len(),
        0 <= j < sources[i].files.len(),
    ensures
        flat_entries(sources).contains(source_entries(sources[i])[j]),
{
    let before = sources.take(i);
    let after = sources.skip(i + 1);
    assert(sources =~= before + seq![sources[i]] + after);
    lemma_flat_entries_concat(before + seq![sources[i]], after);
    lemma_flat_entries_concat(before, seq![sources[i]]);
    lemma_flat_entries_one(sources[i]);
    let flat = flat_entries(sources);
    assert(flat[flat_entries(before).len() + j] == source_entries(sources[i])[j]);
}

/// Putting a source among the others adds its entries to theirs.
pub proof fn lemma_flat_entries_insert(sources: Seq<SourceFiles>, at: int, source: SourceFiles)
    requires
        0 <= at <= sources.len(),
    ensures
        flat_entries(sources.insert(at, source)).to_multiset() == flat_entries(
            sources,
        ).to_multiset().add(source_entries(source).to_multiset()),
{
    let before = sources.take(at);
    let after = sources.skip(at);
    assert(sources =~= before + after);
    assert(sources.insert(at, source) =~= before + seq![source] + after);
    lemma_flat_entries_concat(before, after);
    lemma_flat_entries_concat(before + seq![source], after);
    lemma_flat_entries_concat(before, seq![source]);
    lemma_flat_entries_one(source);
    lemma_multiset_commutative(flat_entries(before), flat_entries(after));
    lemma_multiset_commutative(flat_entries(before) + source_entries(source), flat_entries(after));
    lemma_multiset_commutative(flat_entries(before), source_entries(source));
    assert(flat_entries(sources.insert(at, source)).to_multiset() =~= flat_entries(
        sources,
    ).to_multiset().add(source_entries(source).to_multiset()));
}

/// Replacing a source by one with other files changes the entries by those
/// files.
pub proof fn lemma_flat_entries_update(sources: Seq<SourceFiles>, at: int, source: SourceFiles)
    requires
        0 <= at < sources.len(),
    ensures
        flat_entries(sources.update(at, source)).to_multiset().add(
            source_entries(sources[at]).to_multiset(),
        ) == flat_entries(sources).to_multiset().add(source_entries(source).to_multiset()),
{
    let before = sources.take(at);
    let after = sources.skip(at + 1);
    assert(sources =~= before + seq![sources[at]] + after);
    assert(sources.update(at, source) =~= before + seq![source] + after);
    lemma_flat_entries_concat(before + seq![sources[at]], after);
    lemma_flat_entries_concat(before, seq![sources[at]]);
    lemma_flat_entries_concat(before + seq![source], after);
    lemma_flat_entries_concat(before, seq![source]);
    lemma_flat_entries_one(source);
    lemma_flat_entries_one(sources[at]);
    lemma_multiset_commutative(flat_entries(before) + source_entries(source), flat_entries(after));
    lemma_multiset_commutative(flat_entries(before), source_entries(source));
    lemma_multiset_commutative(
        flat_entries(before) + source_entries(sources[at]),
        flat_entries(after),
    );
    lemma_multiset_commutative(flat_entries(before), source_entries(sources[at]));
    assert(flat_entries(sources.update(at, source)).to_multiset().add(
        source_entries(sources[at]).to_multiset(),
    ) =~= flat_entries(sources).to_multiset().add(source_entries(source).to_multiset()));
}

/// One entry makes the multiset of that entry.
pub proof fn lemma_one_entry(entry: EntryView)
    ensures
        seq![entry].to_multiset() == Multiset::<EntryView>::empty().insert(entry),
{
    lemma_no_entries(Seq::<EntryView>::empty());
    to_multiset_build(Seq::<EntryView>::empty(), entry);
    assert(Seq::<EntryView>::empty().push(entry) =~= seq![entry]);
}

impl Sources {
    /// Puts `entry` among the files of its source, which becomes a new
    /// source where its id is not there yet. Fails, changing nothing, where
    /// an entry that is there is in conflict with `entry`.
    pub fn insert(&mut self, entry: crate::Entry) -> (result: Result<(), Error>)
        requires
            old(self).wf(),
        ensures
            final(self).wf(),
            match result {
                Ok(()) => flat_entries(final(self)@).to_multiset() == flat_entries(
                    old(self)@,
                ).to_multiset().insert(entry@),
                Err(e) => {
                    &&& e == Error::DuplicateEntry
                    &&& final(self)@ == old(self)@
                    &&& exists|other: EntryView|
                        flat_entries(old(self)@).contains(other) && #[trigger] conflict(
                            other,
                            entry@,
                        )
                },
            },
    {
        let ghost before = self@;
        let ghost added = entry@;
        match search(&self.items, entry.source.id.as_str()) {
            Err(at) => {
                let file = Entry { path: entry.path, size: entry.size };
                let entries = if entry.source.is_file {
                    Entries::File(file)
                } else {
                    let mut files: Vec<Entry> = Vec::new();
                    files.push(file);
                    Entries::Directory(files)
                };
                let item = SourceEntries { source: entry.source, entries };
                proof {
                    assert(item@.files =~= seq![file@]);
                    assert(source_entries(item@) =~= seq![added]);
                    lemma_one_entry(added);
                    lemma_insert_sorted(self.items@, at, item);
                    lemma_flat_entries_insert(before, at as int, item@);
                    assert(before.insert(at as int, item@) =~= self.items@.insert(
                        at as int,
                        item,
                    ).map_values(|s: SourceEntries| s@));
                    assert(flat_entries(before).to_multiset().add(seq![added].to_multiset())
                        =~= flat_entries(before).to_multiset().insert(added));
                }
                self.items.insert(at, item);
                proof {
                    assert forall|i: int| 0 <= i < self.items@.len() implies (
                    #[trigger] self.items@[i]).wf() by {
                        if i < at {
                            assert(self.items@[i] == old(self).items@[i]);
                        } else if i > at {
                            assert(self.items@[i] == old(self).items@[i - 1]);
                        }
                    }
                }
                Ok(())
            },
            Ok(at) => {
                let ghost held = before[at as int];
                assert(held == self.items@[at as int]@);
                assert(self.items@[at as int].wf());
                let same = match order_text(
                    self.items[at].source.path.as_str(),
                    entry.source.path.as_str(),
                ) {
                    Order::Equal => true,
                    _ => false,
                };
                if entry.source.is_file || self.items[at].source.is_file || !same {
                    proof {
                        lemma_flat_entries_contains(before, at as int, 0);
                        assert(conflict(source_entries(held)[0], added));
                    }
                    return Err(Error::DuplicateEntry);
                }
                assert(held.source == added.source);
                let found = match &self.items[at].entries {
                    Entries::Directory(files) => search(files, entry.path.as_str()),
                    Entries::File(_) => vstd::pervasive::unreached(),
                };
                match found {
                    Ok(j) => {
                        proof {
                            lemma_flat_entries_contains(before, at as int, j as int);
                            assert(conflict(source_entries(held)[j as int], added));
                        }
                        Err(Error::DuplicateEntry)
                    },
                    Err(j) => {
                        let file = Entry { path: entry.path, size: entry.size };
                        let ghost old_files = self.items@[at as int].entries->Directory_0@;
                        proof {
                            lemma_insert_sorted(old_files, j, file);
                        }
                        match &mut self.items[at].entries {
                            Entries::Directory(files) => {
                                files.insert(j, file);
                            },
                            Entries::File(_) => {},
                        }
                        proof {
                            let now = self.items@[at as int]@;
                            assert(now.files =~= held.files.insert(j as int, file@));
                            assert(now.source == held.source);
                            assert(source_entries(now) =~= source_entries(held).insert(
                                j as int,
                                added,
                            ));
                            to_multiset_insert(source_entries(held), j as int, added);
                            assert(self@ =~= before.update(at as int, now));
                            lemma_flat_entries_update(before, at as int, now);
                            assert(flat_entries(self@).to_multiset() =~= flat_entries(
                                before,
                            ).to_multiset().insert(added)) by {
                                let a = flat_entries(self@).to_multiset();
                                let b = flat_entries(before).to_multiset();
                                let h = source_entries(held).to_multiset();
                                assert(a.add(h) =~= b.add(h.insert(added)));
                                assert forall|x: EntryView| a.count(x) == b.insert(added).count(
                                    x,
                                ) by {
                                    assert(a.add(h).count(x) == b.add(h.insert(added)).count(x));
                                }
                            }
                            assert forall|a: int, b: int|
                                0 <= a < b < self.items@.len() implies crate::bytes::text_lt(
                                #[trigger] self.items@[a].key(),
                                #[trigger] self.items@[b].key(),
                            ) by {
                                assert(self.items@[a].key() == old(self).items@[a].key());
                                assert(self.items@[b].key() == old(self).items@[b].key());
                            }
                            assert forall|i: int| 0 <= i < self.items@.len() implies (
                            #[trigger] self.items@[i]).wf() by {
                                if i != at {
                                    assert(self.items@[i] == old(self).items@[i]);
                                }
                            }
                        }
                        Ok(())
                    },
                }
            },
        }
    }
}

/// Where no two entries of the whole are in conflict and none occurs twice,
/// the same holds of every part of it.
pub proof fn lemma_unique_entries_part(part: Multiset<EntryView>, whole: Multiset<EntryView>)
    requires
        unique_entries(whole),
        part.subset_of(whole),
    ensures
        unique_entries(part),
{
    assert forall|a: EntryView, b: EntryView|
        part.count(a) > 0 && part.count(b) > 0 && #[trigger] conflict(a, b) implies a == b
        && part.count(a) == 1 by {
        assert(part.count(a) <= whole.count(a));
        assert(part.count(b) <= whole.count(b));
    }
}

/// The first entries are a part of all.
pub proof fn lemma_take_is_part(entries: Seq<EntryView>, n: int)
    requires
        0 <= n <= entries.len(),
    ensures
        entries.take(n).to_multiset().subset_of(entries.to_multiset()),
{
    lemma_multiset_commutative(entries.take(n), entries.skip(n));
    assert(entries.take(n) + entries.skip(n) =~= entries);
}

/// `a` does not come behind `b` in the order of the sources' ids and, within
/// one id, of the paths.
pub open spec fn entry_le(a: EntryView, b: EntryView) -> bool {
    text_lt(a.source.id, b.source.id) || (a.source.id == b.source.id && !text_lt(b.path, a.path))
}

/// No entry comes behind a later one.
pub open spec fn ascending(entries: Seq<EntryView>) -> bool {
    forall|i: int, j: int|
        0 <= i < j < entries.len() ==> entry_le(#[trigger] entries[i], #[trigger] entries[j])
}

/// Two runs in ascending order as one: of two entries of which neither comes
/// behind the other, the one in `left` comes first.
pub open spec fn merge_ordered(left: Seq<EntryView>, right: Seq<EntryView>) -> Seq<EntryView>
    decreases left.len() + right.len(),
{
    if left.len() == 0 {
        right
    } else if right.len() == 0 {
        left
    } else if entry_le(left.last(), right.last()) {
        merge_ordered(left, right.drop_last()).push(right.last())
    } else {
        merge_ordered(left.drop_last(), right).push(left.last())
    }
}

/// The entries in ascending order of their sources' ids and their paths, by
/// halving and merging.
pub open spec fn sort_ordered(entries: Seq<EntryView>) -> Seq<EntryView>
    decreases entries.len(),
{
    if entries.len() <= 1 {
        entries
    } else {
        let mid = (entries.len() / 2) as int;
        merge_ordered(sort_ordered(entries.take(mid)), sort_ordered(entries.skip(mid)))
    }
}

/// Of two entries, one does not come behind the other.
pub proof fn lemma_entry_le_total(a: EntryView, b: EntryView)
    ensures
        entry_le(a, b) || entry_le(b, a),
{
    lemma_text_lt_total(a.source.id, b.source.id);
    lemma_text_lt_irreflexive(a.path);
    if text_lt(a.path, b.path) && text_lt(b.path, a.path) {
        lemma_text_lt_transitive(a.path, b.path, a.path);
    }
}

/// What does not come behind an entry does not come behind what that entry
/// does not come behind.
pub proof fn lemma_entry_le_transitive(a: EntryView, b: EntryView, c: EntryView)
    requires
        entry_le(a, b),
        entry_le(b, c),
    ensures
        entry_le(a, c),
{
    if text_lt(a.source.id, b.source.id) && text_lt(b.source.id, c.source.id) {
        lemma_text_lt_transitive(a.source.id, b.source.id, c.source.id);
    }
    if a.source.id == b.source.id && b.source.id == c.source.id && text_lt(c.path, a.path) {
        lemma_text_lt_total(a.path, b.path);
        if text_lt(a.path, b.path) {
            lemma_text_lt_transitive(c.path, a.path, b.path);
        }
    }
}

/// An ascending run stays one when an entry is put behind it that does not
/// come before its last.
pub proof fn lemma_ascending_push(entries: Seq<EntryView>, entry: EntryView)
    requires
        ascending(entries),
        entries.len() > 0 ==> entry_le(entries.last(), entry),
    ensures
        ascending(entries.push(entry)),
{
    let pushed = entries.push(entry);
    assert forall|i: int, j: int| 0 <= i < j < pushed.len() implies entry_le(
        #[trigger] pushed[i],
        #[trigger] pushed[j],
    ) by {
        if j == entries.len() {
            if i < entries.len() - 1 {
                assert(entry_le(entries[i], entries[entries.len() - 1]));
                lemma_entry_le_transitive(entries[i], entries.last(), entry);
            }
        } else {
            assert(entry_le(entries[i], entries[j]));
        }
    }
}

/// The first entries of an ascending run are an ascending run.
pub proof fn lemma_ascending_drop_last(entries: Seq<EntryView>)
    requires
        ascending(entries),
        entries.len() > 0,
    ensures
        ascending(entries.drop_last()),
        entries.len() > 1 ==> entry_le(entries.drop_last().last(), entries.last()),
{
    let front = entries.drop_last();
    assert forall|i: int, j: int| 0 <= i < j < front.len() implies entry_le(
        #[trigger] front[i],
        #[trigger] front[j],
    ) by {
        assert(entry_le(entries[i], entries[j]));
    }
    if entries.len() > 1 {
        assert(entry_le(entries[entries.len() - 2], entries[entries.len() - 1]));
    }
}

/// Merging keeps every entry, each as often as it was there, and the
/// ascending order; the last entry of the merged run is the last of one of
/// the two.
pub proof fn lemma_merge_ordered(left: Seq<EntryView>, right: Seq<EntryView>)
    requires
        ascending(left),
        ascending(right),
    ensures
        ascending(merge_ordered(left, right)),
        merge_ordered(left, right).to_multiset() == left.to_multiset().add(right.to_multiset()),
        merge_ordered(left, right).len() == left.len() + right.len(),
        left.len() + right.len() > 0 ==> merge_ordered(left, right).last() == if left.len() == 0 {
            right.last()
        } else if right.len() == 0 {
            left.last()
        } else if entry_le(left.last(), right.last()) {
            right.last()
        } else {
            left.last()
        },
    decreases left.len() + right.len(),
{
    let merged = merge_ordered(left, right);
    if left.len() == 0 {
        lemma_no_entries(left);
        assert(merged.to_multiset() =~= left.to_multiset().add(right.to_multiset()));
    } else if right.len() == 0 {
        lemma_no_entries(right);
        assert(merged.to_multiset() =~= left.to_multiset().add(right.to_multiset()));
    } else if entry_le(left.last(), right.last()) {
        let front = right.drop_last();
        let inner = merge_ordered(left, front);
        lemma_ascending_drop_last(right);
        lemma_merge_ordered(left, front);
        to_multiset_build(inner, right.last());
        to_multiset_build(front, right.last());
        assert(front.push(right.last()) =~= right);
        assert(merged.to_multiset() =~= left.to_multiset().add(right.to_multiset()));
        lemma_ascending_push(inner, right.last());
    } else {
        let front = left.drop_last();
        let inner = merge_ordered(front, right);
        lemma_ascending_drop_last(left);
        lemma_entry_le_total(left.last(), right.last());
        lemma_merge_ordered(front, right);
        to_multiset_build(inner, left.last());
        to_multiset_build(front, left.last());
        assert(front.push(left.last()) =~= left);
        assert(merged.to_multiset() =~= left.to_multiset().add(right.to_multiset()));
        lemma_ascending_push(inner, left.last());
    }
}

/// Sorting keeps every entry, each as often as it was there, and puts them
/// in ascending order of their sources' ids and their paths.
pub proof fn lemma_sort_ordered(entries: Seq<EntryView>)
    ensures
        ascending(sort_ordered(entries)),
        sort_ordered(entries).to_multiset() == entries.to_multiset(),
        sort_ordered(entries).len() == entries.len(),
    decreases entries.len(),
{
    if entries.len() > 1 {
        let mid = (entries.len() / 2) as int;
        lemma_sort_ordered(entries.take(mid));
        lemma_sort_ordered(entries.skip(mid));
        lemma_merge_ordered(sort_ordered(entries.take(mid)), sort_ordered(entries.skip(mid)));
        lemma_multiset_commutative(entries.take(mid), entries.skip(mid));
        assert(entries.take(mid) + entries.skip(mid) =~= entries);
    }
}

/// Whether `a` may go before `b` when entries are put in the order of their
/// sources' ids and their paths: whether it does not come behind `b`.
fn goes_first(a: &crate::Entry, b: &crate::Entry) -> (first: bool)
    ensures
        first == entry_le(a@, b@),
{
    proof {
        lemma_text_lt_irreflexive(a.source.id@);
        if text_lt(a.source.id@, b.source.id@) && text_lt(b.source.id@, a.source.id@) {
            lemma_text_lt_transitive(a.source.id@, b.source.id@, a.source.id@);
        }
    }
    match order_text(a.source.id.as_str(), b.source.id.as_str()) {
        Order::Less => true,
        Order::Greater => false,
        Order::Equal => match a.path.order(&b.path) {
            Order::Greater => false,
            _ => true,
        },
    }
}

/// Merges two runs of entries in ascending order into one.
fn merge_runs(left: Vec<crate::Entry>, right: Vec<crate::Entry>) -> (merged: Vec<crate::Entry>)
    ensures
        entry_views(merged@) == merge_ordered(entry_views(left@), entry_views(right@)),
{
    let ghost goal = merge_ordered(entry_views(left@), entry_views(right@));
    let mut left = left;
    let mut right = right;
    let mut tail: Vec<crate::Entry> = Vec::new();
    assert(goal + entry_views(tail@).reverse() =~= goal);
    while left.len() > 0 && right.len() > 0
        invariant
            goal == merge_ordered(entry_views(left@), entry_views(right@)) + entry_views(
                tail@,
            ).reverse(),
        decreases left@.len() + right@.len(),
    {
        let ghost before = merge_ordered(entry_views(left@), entry_views(right@));
        let ghost lefts = entry_views(left@);
        let ghost rights = entry_views(right@);
        let ghost tails = entry_views(tail@);
        assert(lefts.last() == left@[left@.len() - 1]@);
        assert(rights.last() == right@[right@.len() - 1]@);
        let from_right = goes_first(&left[left.len() - 1], &right[right.len() - 1]);
        let popped = if from_right { right.pop() } else { left.pop() };
        match popped {
            Some(entry) => {
                proof {
                    if from_right {
                        assert(entry_views(right@) =~= rights.drop_last());
                        assert(entry@ == rights.last());
                    } else {
                        assert(entry_views(left@) =~= lefts.drop_last());
                        assert(entry@ == lefts.last());
                    }
                    let inner = merge_ordered(entry_views(left@), entry_views(right@));
                    assert(before == inner.push(entry@));
                    assert(entry_views(tail@.push(entry)) =~= tails.push(entry@));
                    assert(tails.push(entry@).reverse() =~= seq![entry@] + tails.reverse());
                    assert(inner.push(entry@) + tails.reverse() =~= inner + (seq![entry@]
                        + tails.reverse()));
                }
                tail.push(entry);
            },
            None => vstd::pervasive::unreached(),
        }
    }
    let mut merged = if left.len() == 0 { right } else { left };
    while tail.len() > 0
        invariant
            goal == entry_views(merged@) + entry_views(tail@).reverse(),
        decreases tail@.len(),
    {
        let ghost done = entry_views(merged@);
        let ghost tails = entry_views(tail@);
        match tail.pop() {
            Some(entry) => {
                proof {
                    assert(entry_views(tail@) =~= tails.drop_last());
                    assert(entry@ == tails.last());
                    assert(tails.reverse() =~= seq![entry@] + tails.drop_last().reverse());
                    assert(entry_views(merged@.push(entry)) =~= done.push(entry@));
                    assert(done.push(entry@) + tails.drop_last().reverse() =~= done + tails.reverse());
                }
                merged.push(entry);
            },
            None => vstd::pervasive::unreached(),
        }
    }
    assert(entry_views(merged@) + entry_views(tail@).reverse() =~= entry_views(merged@));
    merged
}

/// Puts the entries in ascending order of their sources' ids and their
/// paths, by halving and merging, so that grouping them takes each at the
/// end of what is there. The same entries come back, each as often as it
/// was there.
fn presort(entries: Vec<crate::Entry>) -> (sorted: Vec<crate::Entry>)
    ensures
        entry_views(sorted@) == sort_ordered(entry_views(entries@)),
        ascending(entry_views(sorted@)),
        entry_views(sorted@).to_multiset() == entry_views(entries@).to_multiset(),
    decreases entries@.len(),
{
    proof {
        lemma_sort_ordered(entry_views(entries@));
    }
    if entries.len() <= 1 {
        return entries;
    }
    let ghost all = entry_views(entries@);
    let mid = entries.len() / 2;
    let mut left = entries;
    let right = left.split_off(mid);
    proof {
        assert(entry_views(left@) =~= all.take(mid as int));
        assert(entry_views(right@) =~= all.skip(mid as int));
    }
    let left = presort(left);
    let right = presort(right);
    merge_runs(left, right)
}

/// Groups the entries by their sources: the sources in ascending order of
/// their ids, the files of each in ascending order of their paths. Fails
/// where two entries are in conflict or one occurs twice.
pub fn group_by_source(entries: Vec<crate::Entry>) -> (result: Result<Sources, Error>)
    ensures
        match result {
            Ok(sources) => {
                &&& sources.wf()
                &&& flat_entries(sources@).to_multiset() == entry_views(entries@).to_multiset()
            },
            Err(e) => {
                &&& e == Error::DuplicateEntry
                &&& !unique_entries(entry_views(entries@).to_multiset())
            },
        },
{
    group_in_order(presort(entries))
}

/// Takes the entries one by one, each to its place among those that are
/// there.
fn group_in_order(entries: Vec<crate::Entry>) -> (result: Result<Sources, Error>)
    ensures
        match result {
            Ok(sources) => {
                &&& sources.wf()
                &&& flat_entries(sources@).to_multiset() == entry_views(entries@).to_multiset()
            },
            Err(e) => {
                &&& e == Error::DuplicateEntry
                &&& !unique_entries(entry_views(entries@).to_multiset())
            },
        },
{
    let ghost all = entry_views(entries@);
    let mut sources = Sources::new();
    let mut rest = entries;
    let mut reversed: Vec<crate::Entry> = Vec::new();
    assert(entry_views(rest@) + entry_views(reversed@).reverse() =~= all);
    while rest.len() > 0
        invariant
            all == entry_views(rest@) + entry_views(reversed@).reverse(),
        decreases rest@.len(),
    {
        let ghost front = entry_views(rest@);
        let ghost back = entry_views(reversed@);
        match rest.pop() {
            Some(entry) => {
                proof {
                    assert(entry_views(rest@) =~= front.drop_last());
                    assert(entry_views(reversed@.push(entry)) =~= back.push(entry@));
                    assert(back.push(entry@).reverse() =~= seq![entry@] + back.reverse());
                    assert(front.drop_last() + (seq![front.last()] + back.reverse()) =~= front
                        + back.reverse());
                }
                reversed.push(entry);
            },
            None => vstd::pervasive::unreached(),
        }
    }
    let ghost mut done: int = 0;
    proof {
        assert(entry_views(rest@) + entry_views(reversed@).reverse() =~= entry_views(
            reversed@,
        ).reverse());
        assert(all.skip(0) =~= all);
        assert(all.take(0) =~= Seq::<EntryView>::empty());
        lemma_no_entries(all.take(0));
        assert(sources@ =~= Seq::<SourceFiles>::empty());
        lemma_no_entries(flat_entries(sources@));
    }
    while reversed.len() > 0
        invariant
            0 <= done <= all.len(),
            all == entry_views(entries@),
            entry_views(reversed@).reverse() == all.skip(done),
            sources.wf(),
            flat_entries(sources@).to_multiset() == all.take(done).to_multiset(),
        decreases reversed@.len(),
    {
        let ghost back = entry_views(reversed@);
        match reversed.pop() {
            Some(entry) => {
                proof {
                    assert(entry_views(reversed@) =~= back.drop_last());
                    assert(entry@ == back.last());
                    assert(back.reverse().len() == back.len());
                    assert(back.reverse()[0] == back.last());
                    assert(all.skip(done)[0] == all[done]);
                    assert(entry@ == all[done]);
                    assert(back.drop_last().reverse() =~= back.reverse().skip(1));
                    assert(all.skip(done).skip(1) =~= all.skip(done + 1));
                    assert(all.take(done + 1) =~= all.take(done).push(all[done]));
                    to_multiset_build(all.take(done), all[done]);
                }
                let ghost held = flat_entries(sources@);
                match sources.insert(entry) {
                    Ok(()) => {},
                    Err(e) => {
                        proof {
                            let other = choose|other: EntryView|
                                held.contains(other) && #[trigger] conflict(other, all[done]);
                            let part = all.take(done + 1).to_multiset();
                            held.to_multiset_ensures();
                            assert(part.count(other) > 0);
                            assert(part.count(all[done]) > 0);
                            if other == all[done] {
                                assert(part.count(other) >= 2);
                            }
                            lemma_take_is_part(all, done + 1);
                            if unique_entries(all.to_multiset()) {
                                lemma_unique_entries_part(part, all.to_multiset());
                            }
                        }
                        return Err(e);
                    },
                }
                proof {
                    done = done + 1;
                }
            },
            None => vstd::pervasive::unreached(),
        }
    }
    assert(all.take(done) =~= all);
    Ok(sources)
}

/// What a walk found at one place below a directory.
#[derive(Debug)]
pub struct Found {
    /// The place, relative to the source's root.
    pub path: EntryPath,
    /// Whether a regular file is there.
    pub is_file: bool,
    /// The size that was reported.
    pub size: u64,
}

/// What was found, as plain values.
pub struct FoundView {
    pub path: Seq<char>,
    pub is_file: bool,
    pub size: u64,
}

impl View for Found {
    type V = FoundView;

    open spec fn view(&self) -> FoundView {
        FoundView { path: self.path@, is_file: self.is_file, size: self.size }
    }
}

/// A source with what a look at it gave: for a file its size, for a
/// directory what a walk found below it, links followed.
#[derive(Debug)]
pub struct SourceListing {
    pub source: Source,
    /// The size of the root, which counts where the root is a file.
    pub size: u64,
    /// What the walk found, which counts where the root is a directory.
    pub found: Vec<Found>,
}

/// A listing, as plain values.
pub struct ListingView {
    pub source: SourceView,
    pub size: u64,
    pub found: Seq<FoundView>,
}

impl View for SourceListing {
    type V = ListingView;

    open spec fn view(&self) -> ListingView {
        ListingView {
            source: self.source@,
            size: self.size,
            found: self.found@.map_values(|f: Found| f@),
        }
    }
}

/// The listings as plain values.
pub open spec fn listing_views(listings: Seq<SourceListing>) -> Seq<ListingView> {
    listings.map_values(|l: SourceListing| l@)
}

/// One entry for each regular file that was found, in the order of the
/// walk; what is no regular file is passed over.
pub open spec fn found_entries(source: SourceView, found: Seq<FoundView>) -> Seq<EntryView>
    decreases found.len(),
{
    if found.len() == 0 {
        Seq::empty()
    } else if found.last().is_file {
        found_entries(source, found.drop_last()).push(
            EntryView { source, path: found.last().path, size: found.last().size },
        )
    } else {
        found_entries(source, found.drop_last())
    }
}

/// The entries of one source: for a file the one entry with the empty path
/// and the file's size, for a directory its regular files.
pub open spec fn listing_entries(listing: ListingView) -> Seq<EntryView> {
    if listing.source.is_file {
        seq![EntryView { source: listing.source, path: Seq::empty(), size: listing.size }]
    } else {
        found_entries(listing.source, listing.found)
    }
}

/// The entries of all sources, in the order of the sources.
pub open spec fn index_entries(listings: Seq<ListingView>) -> Seq<EntryView>
    decreases listings.len(),
{
    if listings.len() == 0 {
        Seq::empty()
    } else {
        index_entries(listings.drop_last()) + listing_entries(listings.last())
    }
}

/// The sum of the sizes of the files below a directory; nothing for a file.
pub open spec fn listing_size(listing: ListingView) -> nat {
    if listing.source.is_file {
        0
    } else {
        total_size(found_entries(listing.source, listing.found))
    }
}

/// The sum of the sizes of all files below directories.
pub open spec fn index_size(listings: Seq<ListingView>) -> nat
    decreases listings.len(),
{
    if listings.len() == 0 {
        0
    } else {
        index_size(listings.drop_last()) + listing_size(listings.last())
    }
}

/// The size of the first listings is at most the size of all.
pub proof fn lemma_index_size_take(listings: Seq<ListingView>, n: int)
    requires
        0 <= n <= listings.len(),
    ensures
        index_size(listings.take(n)) <= index_size(listings),
    decreases listings.len(),
{
    if n < listings.len() {
        assert(listings.drop_last().take(n) =~= listings.take(n));
        lemma_index_size_take(listings.drop_last(), n);
    } else {
        assert(listings.take(n) =~= listings);
    }
}

/// The size of what was found first is at most the size of all.
pub proof fn lemma_found_size_take(source: SourceView, found: Seq<FoundView>, n: int)
    requires
        0 <= n <= found.len(),
    ensures
        total_size(found_entries(source, found.take(n))) <= total_size(
            found_entries(source, found),
        ),
    decreases found.len(),
{
    if n < found.len() {
        assert(found.drop_last().take(n) =~= found.take(n));
        lemma_found_size_take(source, found.drop_last(), n);
        if found.last().is_file {
            lemma_total_size_push(
                found_entries(source, found.drop_last()),
                EntryView { source, path: found.last().path, size: found.last().size },
            );
        }
    } else {
        assert(found.take(n) =~= found);
    }
}

/// Makes the index of the listings: one entry for a file source, one for
/// each regular file below a directory source, and the sum of the sizes of
/// the files below directories. Fails where that sum is more than a size can
/// hold.
pub fn index_files(sources: &Vec<SourceListing>) -> (result: Result<(Vec<crate::Entry>, u64), Error>)
    ensures
        match result {
            Ok((index, total_size)) => {
                &&& entry_views(index@) == index_entries(listing_views(sources@))
                &&& total_size == index_size(listing_views(sources@))
            },
            Err(e) => {
                &&& e == Error::TooLarge
                &&& index_size(listing_views(sources@)) > u64::MAX
            },
        },
{
    let ghost listings = listing_views(sources@);
    let mut index: Vec<crate::Entry> = Vec::new();
    let mut total: u64 = 0;
    let mut i: usize = 0;
    proof {
        assert(listings.take(0) =~= Seq::<ListingView>::empty());
        assert(entry_views(index@) =~= Seq::<EntryView>::empty());
    }
    while i < sources.len()
        invariant
            0 <= i <= sources@.len(),
            listings == listing_views(sources@),
            entry_views(index@) == index_entries(listings.take(i as int)),
            total == index_size(listings.take(i as int)),
        decreases sources@.len() - i,
    {
        let listing = &sources[i];
        let ghost view = listings[i as int];
        let ghost before = entry_views(index@);
        proof {
            assert(view == listing@);
            assert(listings.take(i as int + 1).drop_last() =~= listings.take(i as int));
            assert(listings.take(i as int + 1).last() == view);
            lemma_index_size_take(listings, i as int + 1);
        }
        if listing.source.is_file {
            let entry = crate::Entry {
                path: EntryPath::empty(),
                size: listing.size,
                source: listing.source.clone(),
            };
            assert(entry_views(index@.push(entry)) =~= before + listing_entries(view));
            index.push(entry);
        } else {
            let mut source_size: u64 = 0;
            let mut j: usize = 0;
            assert(view.found.take(0) =~= Seq::<FoundView>::empty());
            assert(before + found_entries(view.source, view.found.take(0)) =~= before);
            while j < listing.found.len()
                invariant
                    0 <= j <= listing.found@.len(),
                    listings == listing_views(sources@),
                    view == listing@,
                    !view.source.is_file,
                    entry_views(index@) == before + found_entries(
                        view.source,
                        view.found.take(j as int),
                    ),
                    source_size == total_size(found_entries(view.source, view.found.take(j as int))),
                    total + listing_size(view) <= index_size(listings),
                decreases listing.found@.len() - j,
            {
                let found = &listing.found[j];
                let ghost so_far = found_entries(view.source, view.found.take(j as int));
                proof {
                    assert(view.found[j as int] == found@);
                    assert(view.found.take(j as int + 1).drop_last() =~= view.found.take(j as int));
                    assert(view.found.take(j as int + 1).last() == found@);
                    lemma_found_size_take(view.source, view.found, j as int + 1);
                }
                if found.is_file {
                    let entry = crate::Entry {
                        source: listing.source.clone(),
                        path: found.path.clone(),
                        size: found.size,
                    };
                    proof {
                        lemma_total_size_push(so_far, entry@);
                        assert(entry_views(index@.push(entry)) =~= entry_views(index@).push(entry@));
                        assert((before + so_far).push(entry@) =~= before + so_far.push(entry@));
                    }
                    if found.size > u64::MAX - source_size {
                        return Err(Error::TooLarge);
                    }
                    source_size = source_size + found.size;
                    index.push(entry);
                }
                j = j + 1;
            }
            assert(view.found.take(j as int) =~= view.found);
            if source_size > u64::MAX - total {
                return Err(Error::TooLarge);
            }
            total = total + source_size;
        }
        i = i + 1;
    }
    assert(listings.take(i as int) =~= listings);
    Ok((index, total))
}

/// Entries that become one container, by source, with the sum of their
/// sizes.
#[derive(Debug)]
pub struct Group {
    pub size: u64,
    pub sources: Sources,
}

impl Group {
    /// The group holds the entries of `plan`, by source, and has its size.
    pub open spec fn holds(&self, plan: GroupView) -> bool {
        &&& self.size == plan.size
        &&& self.sources.wf()
        &&& flat_entries(self.sources@).to_multiset() == plan.entries.to_multiset()
    }
}

/// The groups hold, one for one, the entries of `plan`.
pub open spec fn groups_hold(groups: Seq<Group>, plan: Seq<GroupView>) -> bool {
    &&& groups.len() == plan.len()
    &&& forall|g: int| 0 <= g < groups.len() ==> (#[trigger] groups[g]).holds(plan[g])
}

/// Packs the entries into groups of at most `max_group_size` and groups the
/// entries of each by their sources. Fails where two entries are in
/// conflict or one occurs twice.
pub fn group_files(entries: Vec<crate::Entry>, max_group_size: u64) -> (result: Result<
    Vec<Group>,
    Error,
>)
    ensures
        match result {
            Ok(groups) => groups_hold(groups@, grouping(entry_views(entries@), max_group_size)),
            Err(e) => {
                &&& e == Error::DuplicateEntry
                &&& !unique_entries(entry_views(entries@).to_multiset())
            },
        },
{
    let ghost all = entry_views(entries@);
    let ghost plan = grouping(all, max_group_size);
    let unsorted = create_groups(entries, max_group_size);
    let ghost planned = unsorted@;
    let mut rest = reversed(unsorted);
    let mut groups: Vec<Group> = Vec::new();
    let ghost mut done: int = 0;
    proof {
        assert(planned.reverse().reverse() =~= planned);
        assert(planned.skip(0) =~= planned);
    }
    while rest.len() > 0
        invariant
            0 <= done <= planned.len(),
            plan == group_views(planned),
            plan == grouping(all, max_group_size),
            all == entry_views(entries@),
            rest@.reverse() == planned.skip(done),
            groups@.len() == done,
            forall|g: int| 0 <= g < done ==> (#[trigger] groups@[g]).holds(plan[g]),
        decreases rest@.len(),
    {
        let ghost back = rest@;
        match rest.pop() {
            Some(unsorted_group) => {
                proof {
                    assert(back.reverse().len() == back.len());
                    assert(back.reverse()[0] == back.last());
                    assert(planned.skip(done)[0] == planned[done]);
                    assert(back.drop_last().reverse() =~= back.reverse().skip(1));
                    assert(planned.skip(done).skip(1) =~= planned.skip(done + 1));
                    assert(plan[done] == planned[done]@);
                }
                let size = unsorted_group.size;
                match group_by_source(unsorted_group.entries) {
                    Ok(sources) => {
                        groups.push(Group { size, sources });
                    },
                    Err(e) => {
                        proof {
                            lemma_grouping_partitions(all, max_group_size);
                            lemma_group_is_part(plan, done);
                            if unique_entries(all.to_multiset()) {
                                lemma_unique_entries_part(
                                    plan[done].entries.to_multiset(),
                                    all.to_multiset(),
                                );
                            }
                        }
                        return Err(e);
                    },
                }
                proof {
                    done = done + 1;
                }
            },
            None => vstd::pervasive::unreached(),
        }
    }
    Ok(groups)
}

/// The entries of an index: by source, or by group and source.
#[derive(Debug)]
pub enum Contents {
    Simple(Sources),
    Grouped(Vec<Group>),
}

/// The files found under the sources, ready to be packed.
#[derive(Debug)]
pub struct Index {
    total_size: u64,
    entries: Contents,
}

impl Index {
    /// The entries as they are held.
    pub closed spec fn contents(&self) -> Contents {
        self.entries
    }

    /// The sum that `total_size` gives.
    pub closed spec fn size(&self) -> u64 {
        self.total_size
    }

    /// The index holds the entries of `listings`: by source where no cap is
    /// given, else in groups of at most that size.
    pub open spec fn indexes(&self, listings: Seq<ListingView>, max_group_size: Option<u64>) -> bool {
        &&& self.size() == index_size(listings)
        &&& match max_group_size {
            Some(max_size) => self.contents() matches Contents::Grouped(groups) && groups_hold(
                groups@,
                grouping(index_entries(listings), max_size),
            ),
            None => self.contents() matches Contents::Simple(sources) && sources.wf()
                && flat_entries(sources@).to_multiset() == index_entries(listings).to_multiset(),
        }
    }

    /// Makes the index of the listings. Fails with `TooLarge` where the
    /// sizes add up to more than a size can hold, else with `DuplicateEntry`
    /// where two entries are in conflict or one occurs twice.
    pub fn from_sources(sources: &Vec<SourceListing>, max_group_size: Option<u64>) -> (result:
        Result<Self, Error>)
        ensures
            match result {
                Ok(index) => index.indexes(listing_views(sources@), max_group_size),
                Err(e) => if index_size(listing_views(sources@)) > u64::MAX {
                    e == Error::TooLarge
                } else {
                    e == Error::DuplicateEntry && !unique_entries(
                        index_entries(listing_views(sources@)).to_multiset(),
                    )
                },
            },
    {
        let (entries, total_size) = match index_files(sources) {
            Ok(indexed) => indexed,
            Err(e) => {
                return Err(e);
            },
        };
        let entries = match max_group_size {
            Some(max_size) => match group_files(entries, max_size) {
                Ok(groups) => Contents::Grouped(groups),
                Err(e) => {
                    return Err(e);
                },
            },
            None => match group_by_source(entries) {
                Ok(sources) => Contents::Simple(sources),
                Err(e) => {
                    return Err(e);
                },
            },
        };
        Ok(Index { total_size, entries })
    }

    /// The entries, by source or by group.
    pub fn entries(&self) -> (entries: &Contents)
        ensures
            *entries == self.contents(),
    {
        &self.entries
    }

    /// The sum of the sizes of the files below directories.
    pub fn total_size(&self) -> (size: u64)
        ensures
            size == self.size(),
    {
        self.total_size
    }
}

} // verus!
