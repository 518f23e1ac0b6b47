//! The header codec: a builder that is filled while the payload streams and
//! then serialized, and a reader that parses a header back.

pub mod format;

use vstd::prelude::*;
use vstd::utf8::encode_utf8_decode_utf8;
use crate::bytes::{string_from_utf8, u32_from_le_bytes, u32_to_le_bytes};
use crate::bytes::{u32_le, u32_of_le, u64_from_le_bytes, u64_of_le, u64_to_le_bytes};
use crate::crypto::{DecryptReader, EncryptWriter, KEYSTREAM_LEN};
use crate::error::Error;
use crate::header::format::{builder_complete, builder_fits, entries_bytes, entries_size};
use crate::header::format::{entry_bytes, entry_offset, flags_bytes, header_bytes, header_fits};
use crate::header::format::{header_of, parse_entries, parse_entry, parse_header, parse_source};
use crate::header::format::{parse_sources, parse_text, skeleton_size, skeleton_sources_size};
use crate::header::format::{slot_entry, slots_size, slots_source, source_bytes, sources_bytes};
use crate::header::format::{sources_size, text_bytes, text_fits};
use crate::header::format::{BuilderRecord, EntryRecord, HeaderRecord, SlotRecord, SlotsRecord};
use crate::header::format::{SourceRecord, ValueRecord};
use crate::header::format::{lemma_entries_bytes_push, lemma_entries_size_push};
use crate::header::format::{lemma_fill_keeps_size, lemma_header_size_exact};
use crate::header::format::{lemma_skeleton_sources_size_push, lemma_skeleton_sources_size_take};
use crate::header::format::{lemma_slots_size_push, lemma_slots_size_take};
use crate::header::format::{lemma_sources_bytes_push, lemma_sources_size_concat};
use crate::header::format::{lemma_sources_size_push, lemma_entries_size_concat};
use crate::index::{EntryPath, SourceFiles, Sources};
use crate::sorted::{search, sorted, Keyed};
use crate::sorted::{lemma_search_absent, lemma_sorted_unique};
use crate::stream::overwrite;
use crate::Source;

verus! {

/// A BLAKE3 digest.
pub type Hash = [u8; 32];

/// The flags of a container.
#[derive(Clone, Copy, Debug)]
pub struct Flags {
    pub is_single_source: bool,
}

impl Flags {
    /// The flag word in little-endian bytes: bit 0 is `is_single_source`.
    pub fn to_bytes(self) -> (bytes: [u8; 4])
        ensures
            bytes@ == flags_bytes(self.is_single_source),
    {
        let flags: u32 = if self.is_single_source { 1 } else { 0 };
        u32_to_le_bytes(flags)
    }

    /// The flags that a little-endian flag word holds: bit 0 alone counts.
    pub fn from_bytes(bytes: [u8; 4]) -> (flags: Self)
        ensures
            flags.is_single_source == (bytes@[0] % 2 == 1),
    {
        Flags { is_single_source: bytes[0] % 2 == 1 }
    }
}

/// What the payload pass records of a file: the bytes written and their hash.
#[derive(Clone, Copy, Debug)]
pub struct Value {
    pub size: u64,
    pub hash: Hash,
}

/// The place of one file in a header under construction.
#[derive(Debug)]
pub struct Slot {
    path: EntryPath,
    value: Option<Value>,
}

impl View for Slot {
    type V = SlotRecord;

    closed spec fn view(&self) -> SlotRecord {
        SlotRecord {
            path: self.path@,
            value: match self.value {
                Some(value) => Some(ValueRecord { size: value.size, hash: value.hash@ }),
                None => None,
            },
        }
    }
}

impl Keyed for Slot {
    closed spec fn key(&self) -> Seq<char> {
        self.path@
    }

    fn key_str(&self) -> (key: &str) {
        self.path.as_str()
    }
}

/// The places of one source's files.
#[derive(Debug)]
pub struct SourceSlots {
    source: Source,
    slots: Vec<Slot>,
}

impl View for SourceSlots {
    type V = SlotsRecord;

    closed spec fn view(&self) -> SlotsRecord {
        SlotsRecord { id: self.source.id@, slots: self.slots@.map_values(|s: Slot| s@) }
    }
}

impl Keyed for SourceSlots {
    closed spec fn key(&self) -> Seq<char> {
        self.source.id@
    }

    fn key_str(&self) -> (key: &str) {
        self.source.id.as_str()
    }
}

/// A header under construction: one empty slot for each file, filled as the
/// payload streams.
#[derive(Debug)]
pub struct HeaderBuilder {
    flags: Flags,
    entries: Vec<SourceSlots>,
    size: u64,
}

impl View for HeaderBuilder {
    type V = BuilderRecord;

    closed spec fn view(&self) -> BuilderRecord {
        BuilderRecord {
            is_single_source: self.flags.is_single_source,
            sources: self.entries@.map_values(|s: SourceSlots| s@),
        }
    }
}

/// The empty header for `sources`: a slot for every file, nothing recorded.
pub open spec fn skeleton_of(sources: Seq<SourceFiles>, is_single_source: bool) -> BuilderRecord {
    BuilderRecord {
        is_single_source,
        sources: Seq::new(
            sources.len(),
            |i: int|
                SlotsRecord {
                    id: sources[i].source.id,
                    slots: Seq::new(
                        sources[i].files.len(),
                        |j: int| SlotRecord { path: sources[i].files[j].path, value: None },
                    ),
                },
        ),
    }
}

impl HeaderBuilder {
    /// The sources ascend by id and the slots of each by path, so that a file
    /// has one slot; and the header to be fits the format.
    pub closed spec fn wf(&self) -> bool {
        &&& sorted(self.entries@)
        &&& forall|i: int| 0 <= i < self.entries@.len() ==> sorted((#[trigger] self.entries@[i]).slots@)
        &&& builder_fits(self@)
        &&& self.size == skeleton_size(self@)
    }

    /// What `wf` says of the header to be.
    pub proof fn lemma_wf(&self)
        requires
            self.wf(),
        ensures
            builder_fits(self@),
            forall|i: int, j: int, k: int, l: int|
                self@.has_slot(i, j, self@.sources[k].id, self@.sources[k].slots[l].path) && 0 <= k
                    < self@.sources.len() && 0 <= l < self@.sources[k].slots.len() ==> i == k && j
                    == l,
    {
        assert forall|i: int, j: int, k: int, l: int|
            self@.has_slot(i, j, self@.sources[k].id, self@.sources[k].slots[l].path) && 0 <= k
                < self@.sources.len() && 0 <= l < self@.sources[k].slots.len() implies i == k && j
            == l by {
            lemma_sorted_unique(self.entries@, i, k);
            lemma_sorted_unique(self.entries@[i].slots@, j, l);
        }
    }

    /// Every slot is filled.
    pub open spec fn is_complete(&self) -> bool {
        builder_complete(self@)
    }

    /// The empty header for `sources`. Fails where a count, the length of an
    /// id or of a path, or the header's size is more than the format holds.
    pub fn new(sources: &Sources, flags: Flags) -> (result: Result<Self, Error>)
        requires
            sources.wf(),
        ensures
            match result {
                Ok(builder) => {
                    &&& builder.wf()
                    &&& builder@ == skeleton_of(sources@, flags.is_single_source)
                },
                Err(e) => {
                    &&& e == Error::TooLarge
                    &&& !builder_fits(skeleton_of(sources@, flags.is_single_source))
                },
            },
    {
        let ghost goal = skeleton_of(sources@, flags.is_single_source);
        if sources.len() > u32::MAX as usize {
            return Err(Error::TooLarge);
        }
        let mut entries: Vec<SourceSlots> = Vec::new();
        let mut size: u64 = 8;
        let mut i: usize = 0;
        while i < sources.len()
            invariant
                sources.wf(),
                goal == skeleton_of(sources@, flags.is_single_source),
                0 <= i <= sources.items().len(),
                entries@.len() == i,
                entries@.map_values(|s: SourceSlots| s@) =~= goal.sources.take(i as int),
                forall|k: int| 0 <= k < i ==> (#[trigger] entries@[k]).key() == sources.items()[k].key(),
                forall|k: int| 0 <= k < i ==> sorted((#[trigger] entries@[k]).slots@),
                forall|k: int| 0 <= k < i ==> format::slots_fit(#[trigger] goal.sources[k]),
                size == 8 + skeleton_sources_size(goal.sources.take(i as int)),
            decreases sources.items().len() - i,
        {
            let item = sources.get(i);
            let ghost target = goal.sources[i as int];
            assert(sources@[i as int] == sources.items()[i as int]@);
            assert(item.wf());
            proof {
                lemma_skeleton_sources_size_take(goal.sources, i as int + 1);
                assert(goal.sources.take(i as int + 1) =~= goal.sources.take(i as int).push(target));
                lemma_skeleton_sources_size_push(goal.sources.take(i as int), target);
            }
            let id_len = item.source.id.as_str().as_bytes().len();
            let count = item.entries.len();
            if id_len > u32::MAX as usize || count > u32::MAX as usize {
                assert(!format::slots_fit(goal.sources[i as int]));
                return Err(Error::TooLarge);
            }
            let mut source_size: u64 = 0;
            let mut slots: Vec<Slot> = Vec::new();
            let mut j: usize = 0;
            while j < count
                invariant
                    item.wf(),
                    count == item.entries@.len(),
                    0 <= i < goal.sources.len(),
                    goal == skeleton_of(sources@, flags.is_single_source),
                    target == goal.sources[i as int],
                    skeleton_size(goal) >= slots_size(target.slots),
                    target.slots.len() == count,
                    forall|l: int|
                        0 <= l < count ==> (#[trigger] target.slots[l]) == (SlotRecord {
                            path: item.entries@[l].path,
                            value: None,
                        }),
                    0 <= j <= count,
                    slots@.len() == j,
                    slots@.map_values(|s: Slot| s@) =~= target.slots.take(j as int),
                    forall|l: int| 0 <= l < j ==> (#[trigger] slots@[l]).key() == item.entries@[l].path,
                    forall|l: int| 0 <= l < j ==> text_fits((#[trigger] target.slots[l]).path),
                    source_size == slots_size(target.slots.take(j as int)),
                decreases count - j,
            {
                let entry = item.entries.get(j);
                let path_len = entry.path.as_bytes().len();
                proof {
                    lemma_slots_size_take(target.slots, j as int + 1);
                    assert(target.slots.take(j as int + 1) =~= target.slots.take(j as int).push(
                        target.slots[j as int],
                    ));
                    lemma_slots_size_push(target.slots.take(j as int), target.slots[j as int]);
                }
                if path_len > u32::MAX as usize {
                    assert(!text_fits(target.slots[j as int].path));
                    assert(!format::slots_fit(goal.sources[i as int]));
                    return Err(Error::TooLarge);
                }
                if source_size > u64::MAX - 44 - path_len as u64 {
                    assert(skeleton_size(goal) > u64::MAX);
                    return Err(Error::TooLarge);
                }
                source_size = source_size + 44 + path_len as u64;
                slots.push(Slot { path: entry.path.clone(), value: None });
                j = j + 1;
            }
            assert(target.slots.take(count as int) =~= target.slots);
            if size > u64::MAX - 8 - id_len as u64 || size + 8 + id_len as u64 > u64::MAX
                - source_size {
                assert(skeleton_size(goal) > u64::MAX);
                return Err(Error::TooLarge);
            }
            size = size + 8 + id_len as u64 + source_size;
            proof {
                match &item.entries {
                    crate::index::Entries::Directory(files) => {
                        assert forall|a: int, b: int| 0 <= a < b < slots@.len() implies crate::bytes::text_lt(
                            #[trigger] slots@[a].key(),
                            #[trigger] slots@[b].key(),
                        ) by {
                            assert(files@[a].key() == item.entries@[a].path);
                            assert(files@[b].key() == item.entries@[b].path);
                        }
                    },
                    crate::index::Entries::File(_) => {},
                }
            }
            entries.push(SourceSlots { source: item.source.clone(), slots });
            i = i + 1;
        }
        assert(goal.sources.take(i as int) =~= goal.sources);
        let builder = HeaderBuilder { flags, entries, size };
        proof {
            assert forall|a: int, b: int| 0 <= a < b < entries@.len() implies crate::bytes::text_lt(
                #[trigger] entries@[a].key(),
                #[trigger] entries@[b].key(),
            ) by {
                assert(crate::bytes::text_lt(sources.items()[a].key(), sources.items()[b].key()));
            }
            assert(builder@.sources =~= goal.sources);
        }
        Ok(builder)
    }
    /// Records the size and the hash of the file `path` of `source` in its
    /// slot, which must be there and empty.
    pub fn set_entry(&mut self, source: &Source, path: &EntryPath, size: u64, hash: Hash)
        requires
            old(self).wf(),
            exists|i: int, j: int|
                #[trigger] old(self)@.has_slot(i, j, source.id@, path@) && old(
                    self,
                )@.sources[i].slots[j].value is None,
        ensures
            final(self).wf(),
            forall|i: int, j: int|
                #[trigger] old(self)@.has_slot(i, j, source.id@, path@) ==> final(self)@ == old(
                    self,
                )@.fill(i, j, ValueRecord { size, hash: hash@ }),
    {
        let ghost before = self@;
        let ghost (wi, wj) = choose|i: int, j: int|
            #[trigger] before.has_slot(i, j, source.id@, path@)
                && before.sources[i].slots[j].value is None;
        let found = search(&self.entries, source.id.as_str());
        proof {
            if found is Err {
                lemma_search_absent(self.entries@, source.id@, found->Err_0);
                assert(self.entries@[wi].key() == source.id@);
            }
        }
        let i = match found {
            Ok(i) => i,
            Err(_) => vstd::pervasive::unreached(),
        };
        proof {
            lemma_sorted_unique(self.entries@, i as int, wi);
        }
        let found = search(&self.entries[i].slots, path.as_str());
        proof {
            if found is Err {
                lemma_search_absent(self.entries@[i as int].slots@, path@, found->Err_0);
                assert(self.entries@[i as int].slots@[wj].key() == path@);
            }
        }
        let j = match found {
            Ok(j) => j,
            Err(_) => vstd::pervasive::unreached(),
        };
        proof {
            lemma_sorted_unique(self.entries@[i as int].slots@, j as int, wj);
        }
        self.entries[i].slots[j].value = Some(Value { size, hash });
        proof {
            let value = ValueRecord { size, hash: hash@ };
            let after = before.fill(wi, wj, value);
            assert(self.entries@[i as int].slots@.map_values(|s: Slot| s@)
                =~= before.sources[wi].slots.update(wj, after.sources[wi].slots[wj]));
            assert(self@.sources =~= after.sources);
            lemma_fill_keeps_size(before, wi, wj, value);
            assert forall|a: int, b: int| 0 <= a < b < self.entries@.len() implies crate::bytes::text_lt(
                #[trigger] self.entries@[a].key(),
                #[trigger] self.entries@[b].key(),
            ) by {
                assert(self.entries@[a].key() == old(self).entries@[a].key());
                assert(self.entries@[b].key() == old(self).entries@[b].key());
            }
            assert forall|k: int| 0 <= k < self.entries@.len() implies sorted(
                (#[trigger] self.entries@[k]).slots@,
            ) by {
                let slots = self.entries@[k].slots@;
                let slots0 = old(self).entries@[k].slots@;
                assert(sorted(slots0));
                assert forall|a: int, b: int| 0 <= a < b < slots.len() implies crate::bytes::text_lt(
                    #[trigger] slots[a].key(),
                    #[trigger] slots[b].key(),
                ) by {
                    assert(slots[a].key() == slots0[a].key());
                    assert(slots[b].key() == slots0[b].key());
                }
            }
            assert forall|k: int| 0 <= k < after.sources.len() implies format::slots_fit(
                #[trigger] after.sources[k],
            ) by {
                assert(format::slots_fit(before.sources[k]));
                assert forall|l: int| 0 <= l < after.sources[k].slots.len() implies text_fits(
                    (#[trigger] after.sources[k].slots[l]).path,
                ) by {
                    assert(text_fits(before.sources[k].slots[l].path));
                }
            }
            assert forall|a: int, b: int|
                #[trigger] before.has_slot(a, b, source.id@, path@) implies a == wi && b == wj by {
                lemma_sorted_unique(old(self).entries@, a, wi);
                lemma_sorted_unique(old(self).entries@[a].slots@, b, wj);
            }
        }
    }

    /// The exact number of bytes that the header will take.
    pub fn header_size(&self) -> (size: u64)
        requires
            self.wf(),
        ensures
            size == skeleton_size(self@),
    {
        self.size
    }

    /// The bytes of the header, as many as `header_size` says.
    pub fn to_bytes(&self) -> (bytes: Vec<u8>)
        requires
            self.wf(),
            self.is_complete(),
        ensures
            bytes@ == header_bytes(header_of(self@)),
            bytes@.len() == skeleton_size(self@),
    {
        let ghost header = header_of(self@);
        let mut out: Vec<u8> = Vec::new();
        let flags = self.flags.to_bytes();
        append(&mut out, flags.as_slice());
        let count = u32_to_le_bytes(self.entries.len() as u32);
        append(&mut out, count.as_slice());
        assert(sources_bytes(header.sources.take(0)) =~= Seq::<u8>::empty());
        assert(out@ =~= flags_bytes(header.is_single_source) + u32_le(header.sources.len() as u32)
            + sources_bytes(header.sources.take(0)));
        let mut i: usize = 0;
        while i < self.entries.len()
            invariant
                self.wf(),
                self.is_complete(),
                header == header_of(self@),
                0 <= i <= self.entries@.len(),
                out@ == flags_bytes(header.is_single_source) + u32_le(header.sources.len() as u32)
                    + sources_bytes(header.sources.take(i as int)),
            decreases self.entries@.len() - i,
        {
            let ghost before = out@;
            let ghost source = header.sources[i as int];
            let item = &self.entries[i];
            assert(self@.sources[i as int] == item@);
            assert(format::slots_fit(self@.sources[i as int]));
            assert(source == slots_source(item@));
            write_slice(&mut out, item.source.id.as_str().as_bytes());
            let count = u32_to_le_bytes(item.slots.len() as u32);
            append(&mut out, count.as_slice());
            assert(entries_bytes(source.entries.take(0)) =~= Seq::<u8>::empty());
            assert(out@ =~= before + text_bytes(source.id) + u32_le(source.entries.len() as u32)
                + entries_bytes(source.entries.take(0)));
            let mut j: usize = 0;
            while j < item.slots.len()
                invariant
                    self.wf(),
                    self.is_complete(),
                    0 <= i < self.entries@.len(),
                    *item == self.entries@[i as int],
                    self@.sources[i as int] == item@,
                    source == slots_source(item@),
                    format::slots_fit(item@),
                    0 <= j <= item.slots@.len(),
                    out@ == before + text_bytes(source.id) + u32_le(source.entries.len() as u32)
                        + entries_bytes(source.entries.take(j as int)),
                decreases item.slots@.len() - j,
            {
                let slot = &item.slots[j];
                let ghost entry = source.entries[j as int];
                assert(item@.slots[j as int] == slot@);
                assert(format::slot_filled(self@.sources[i as int].slots[j as int]));
                assert(text_fits(item@.slots[j as int].path));
                assert(entry == slot_entry(slot@));
                let ghost start = out@;
                match &slot.value {
                    Some(value) => {
                        append(&mut out, value.hash.as_slice());
                        let size = u64_to_le_bytes(value.size);
                        append(&mut out, size.as_slice());
                        write_slice(&mut out, slot.path.as_bytes());
                    },
                    None => vstd::pervasive::unreached(),
                }
                proof {
                    assert(out@ =~= start + entry_bytes(entry));
                    assert(source.entries.take(j as int + 1) =~= source.entries.take(j as int).push(
                        entry,
                    ));
                    lemma_entries_bytes_push(source.entries.take(j as int), entry);
                    assert(out@ =~= before + text_bytes(source.id) + u32_le(
                        source.entries.len() as u32,
                    ) + entries_bytes(source.entries.take(j as int + 1)));
                }
                j = j + 1;
            }
            proof {
                assert(source.entries.take(j as int) =~= source.entries);
                assert(out@ =~= before + source_bytes(source));
                assert(header.sources.take(i as int + 1) =~= header.sources.take(i as int).push(
                    source,
                ));
                lemma_sources_bytes_push(header.sources.take(i as int), source);
                assert(out@ =~= flags_bytes(header.is_single_source) + u32_le(
                    header.sources.len() as u32,
                ) + sources_bytes(header.sources.take(i as int + 1)));
            }
            i = i + 1;
        }
        proof {
            assert(header.sources.take(i as int) =~= header.sources);
            lemma_header_size_exact(self@);
        }
        out
    }

    /// Writes the header through `writer`: exactly `header_size` bytes.
    /// Fails, writing nothing, where they reach past the keystream.
    pub fn write_header(&self, writer: &mut EncryptWriter) -> (result: Result<(), Error>)
        requires
            self.wf(),
            self.is_complete(),
            old(writer).wf(),
            old(writer).inner().position() + skeleton_size(self@) <= usize::MAX,
        ensures
            final(writer).wf(),
            final(writer).start() == old(writer).start(),
            final(writer).key() == old(writer).key(),
            final(writer).iv() == old(writer).iv(),
            final(writer).preamble() == old(writer).preamble(),
            match result {
                Ok(()) => {
                    &&& old(writer).position() + skeleton_size(self@) <= KEYSTREAM_LEN
                    &&& final(writer).position() == old(writer).position() + skeleton_size(self@)
                    &&& final(writer).plaintext() == overwrite(
                        old(writer).plaintext(),
                        old(writer).position() as int,
                        header_bytes(header_of(self@)),
                    )
                },
                Err(e) => {
                    &&& e == Error::KeystreamExhausted
                    &&& old(writer).position() + skeleton_size(self@) > KEYSTREAM_LEN
                    &&& final(writer).inner() == old(writer).inner()
                },
            },
    {
        let bytes = self.to_bytes();
        match writer.write(bytes.as_slice()) {
            Ok(_) => Ok(()),
            Err(e) => Err(e),
        }
    }
}

/// Appends `bytes` to `out`.
fn append(out: &mut Vec<u8>, bytes: &[u8])
    ensures
        final(out)@ == old(out)@ + bytes@,
{
    out.extend_from_slice(bytes);
    assert(out@ =~= old(out)@ + bytes@);
}

/// Appends the length of `slice` in four little-endian bytes, then `slice`.
pub fn write_slice(out: &mut Vec<u8>, slice: &[u8])
    requires
        slice@.len() <= u32::MAX,
    ensures
        final(out)@ == old(out)@ + u32_le(slice@.len() as u32) + slice@,
{
    let len = u32_to_le_bytes(slice.len() as u32);
    append(out, len.as_slice());
    append(out, slice);
}

/// One file of a container, as its header records it.
#[derive(Debug)]
pub struct Entry {
    pub path: EntryPath,
    pub hash: Hash,
    /// Where the payload starts, counted from the end of the header.
    pub position: u64,
    pub size: u64,
}

impl View for Entry {
    type V = EntryRecord;

    open spec fn view(&self) -> EntryRecord {
        EntryRecord { path: self.path@, hash: self.hash@, size: self.size }
    }
}

/// One source of a container with its files, in the order of their payloads.
#[derive(Debug)]
pub struct SourceGroup {
    pub id: String,
    /// The sum of the sizes of the files.
    pub size: u64,
    pub entries: Vec<Entry>,
}

impl View for SourceGroup {
    type V = SourceRecord;

    open spec fn view(&self) -> SourceRecord {
        SourceRecord { id: self.id@, entries: self.entries@.map_values(|e: Entry| e@) }
    }
}

impl SourceGroup {
    /// The payloads follow each other from `position` on, and `size` is
    /// their sum.
    #[verifier::opaque]
    pub open spec fn laid_out_from(&self, position: int) -> bool {
        &&& self.size == entries_size(self@.entries)
        &&& forall|j: int|
            0 <= j < self.entries@.len() ==> (#[trigger] self.entries@[j]).position == position
                + entries_size(self@.entries.take(j))
    }
}

/// A container's table of contents, as read.
#[derive(Debug)]
pub struct Header {
    flags: Flags,
    entries: Vec<SourceGroup>,
}

impl View for Header {
    type V = HeaderRecord;

    closed spec fn view(&self) -> HeaderRecord {
        HeaderRecord {
            is_single_source: self.flags.is_single_source,
            sources: self.entries@.map_values(|g: SourceGroup| g@),
        }
    }
}

impl Header {
    /// The sources as they are held.
    pub closed spec fn groups(&self) -> Seq<SourceGroup> {
        self.entries@
    }

    /// The header fits the format, and every payload starts where those
    /// before it end: at the sum of their sizes.
    pub open spec fn wf(&self) -> bool {
        &&& header_fits(self@)
        &&& self@.sources == self.groups().map_values(|g: SourceGroup| g@)
        &&& forall|i: int|
            0 <= i < self.groups().len() ==> (#[trigger] self.groups()[i]).laid_out_from(
                sources_size(self@.sources.take(i)) as int,
            )
    }

    /// The header's sources are the sources that it holds, as plain values.
    pub proof fn lemma_view(&self)
        ensures
            self@.sources == self.groups().map_values(|g: SourceGroup| g@),
    {
    }

    /// Prefix-sum offsets: in a well-formed header, entry `j` of source `i`
    /// starts at the sum of the sizes of all entries before it.
    pub proof fn lemma_positions(&self, i: int, j: int)
        requires
            self.wf(),
            0 <= i < self.groups().len(),
            0 <= j < self.groups()[i].entries@.len(),
        ensures
            self.groups()[i].entries@[j].position == entry_offset(self@.sources, i, j),
            entry_offset(self@.sources, i, j) + self.groups()[i].entries@[j].size <= sources_size(
                self@.sources,
            ) <= u64::MAX,
    {
        reveal(SourceGroup::laid_out_from);
        let sources = self@.sources;
        let entries = sources[i].entries;
        assert(self.groups()[i].laid_out_from(sources_size(sources.take(i)) as int));
        assert(entries.take(j + 1) =~= entries.take(j).push(entries[j]));
        lemma_entries_size_push(entries.take(j), entries[j]);
        assert(entries =~= entries.take(j + 1) + entries.skip(j + 1));
        lemma_entries_size_concat(entries.take(j + 1), entries.skip(j + 1));
        assert(sources.take(i + 1) =~= sources.take(i).push(sources[i]));
        lemma_sources_size_push(sources.take(i), sources[i]);
        assert(sources =~= sources.take(i + 1) + sources.skip(i + 1));
        lemma_sources_size_concat(sources.take(i + 1), sources.skip(i + 1));
    }

    /// Reads a header from `reader`, which then stands at the first byte of
    /// the payload. Fails with `MalformedHeader` where the bytes are
    /// truncated, a string is not UTF-8, or the sizes add up to more than an
    /// offset can hold.
    pub fn read_from(reader: &mut DecryptReader) -> (result: Result<Self, Error>)
        requires
            old(reader).wf(),
        ensures
            final(reader).wf(),
            final(reader).same_stream(old(reader)),
            match result {
                Ok(header) => {
                    &&& header.wf()
                    &&& parse_header(old(reader).remaining()) == Some(
                        (header@, final(reader).position() - old(reader).position()),
                    )
                },
                Err(e) => {
                    &&& e == Error::MalformedHeader
                    &&& parse_header(old(reader).remaining()) is None
                },
            },
    {
        let ghost bytes = reader.remaining();
        let flags = match read_bytes::<4>(reader) {
            Ok(flags) => Flags::from_bytes(flags),
            Err(e) => {
                return Err(e);
            },
        };
        let source_count = match read_u32(reader) {
            Ok(count) => count,
            Err(e) => {
                return Err(e);
            },
        };
        assert(bytes.skip(4).take(4) =~= bytes.subrange(4, 8));
        assert(bytes.skip(4).skip(4) =~= bytes.skip(8));
        assert(bytes.take(4)[0] == bytes[0]);
        let mut position: u64 = 0;
        let mut entries: Vec<SourceGroup> = Vec::new();
        let mut i: u32 = 0;
        let ghost whole = parse_sources(bytes.skip(8), source_count as nat);
        let ghost goal = parse_header(bytes);
        proof {
            assert(entries@.map_values(|g: SourceGroup| g@) =~= Seq::empty());
            if whole is Some {
                assert(Seq::<SourceRecord>::empty() + whole.unwrap().0 =~= whole.unwrap().0);
            }
        }
        while i < source_count
            invariant
                reader.wf(),
                goal == parse_header(old(reader).remaining()),
                goal == match whole {
                    Some((sources, len)) => if sources_size(sources) <= u64::MAX {
                        Some(
                            (
                                HeaderRecord { is_single_source: flags.is_single_source, sources },
                                8 + len,
                            ),
                        )
                    } else {
                        None
                    },
                    None => None,
                },
                reader.same_stream(old(reader)),
                0 <= i <= source_count,
                entries@.len() == i,
                reader.position() >= old(reader).position() + 8,
                whole == format::extend_parse(
                    entries@.map_values(|g: SourceGroup| g@),
                    reader.position() - old(reader).position() - 8,
                    parse_sources(reader.remaining(), (source_count - i) as nat),
                ),
                position == sources_size(entries@.map_values(|g: SourceGroup| g@)),
                forall|k: int|
                    0 <= k < i ==> (#[trigger] entries@[k]).laid_out_from(
                        sources_size(entries@.map_values(|g: SourceGroup| g@).take(k)) as int,
                    ),
                forall|k: int| 0 <= k < i ==> format::source_fits((#[trigger] entries@[k])@),
                whole matches Some((sources, _)) ==> sources_size(sources) >= position,
            decreases source_count - i,
        {
            let ghost here = reader.remaining();
            let ghost done = entries@.map_values(|g: SourceGroup| g@);
            let ghost used = reader.position() - old(reader).position() - 8;
            proof {
                format::lemma_parse_sources_step(here, (source_count - i) as nat, done, used);
            }
            match read_source(reader, position) {
                Ok(group) => {
                    proof {
                        let after = entries@.push(group).map_values(|g: SourceGroup| g@);
                        assert(after =~= done.push(group@));
                        lemma_sources_size_push(done, group@);
                        assert forall|k: int| 0 <= k < i + 1 implies (#[trigger] entries@.push(
                            group,
                        )[k]).laid_out_from(sources_size(after.take(k)) as int) by {
                            format::lemma_sources_push_take(done, group@, k);
                        }
                    }
                    position = position + group.size;
                    entries.push(group);
                },
                Err(e) => {
                    return Err(e);
                },
            }
            i = i + 1;
        }
        let header = Header { flags, entries };
        proof {
            format::lemma_parse_sources_none(reader.remaining());
            format::lemma_extend_parse_done(
                header@.sources,
                reader.position() - old(reader).position() - 8,
            );
        }
        Ok(header)
    }

    /// The container's flags.
    pub fn flags(&self) -> (flags: Flags)
        ensures
            flags.is_single_source == self@.is_single_source,
    {
        self.flags
    }

    /// The sources with their entries, in the order of the payloads.
    pub fn entries(&self) -> (entries: &Vec<SourceGroup>)
        ensures
            entries@ == self.groups(),
    {
        &self.entries
    }
}

/// Reads `LEN` bytes.
fn read_bytes<const LEN: usize>(reader: &mut DecryptReader) -> (result: Result<[u8; LEN], Error>)
    requires
        old(reader).wf(),
    ensures
        final(reader).wf(),
        final(reader).same_stream(old(reader)),
        match result {
            Ok(bytes) => {
                &&& LEN <= old(reader).remaining().len()
                &&& bytes@ == old(reader).remaining().take(LEN as int)
                &&& final(reader).position() == old(reader).position() + LEN
                &&& final(reader).remaining() == old(reader).remaining().skip(LEN as int)
            },
            Err(e) => e == Error::MalformedHeader && LEN > old(reader).remaining().len(),
        },
{
    match reader.read_exact(LEN) {
        Ok(read) => Ok(crate::bytes::to_array::<LEN>(read.as_slice())),
        Err(_) => Err(Error::MalformedHeader),
    }
}

/// Reads a number of four little-endian bytes.
fn read_u32(reader: &mut DecryptReader) -> (result: Result<u32, Error>)
    requires
        old(reader).wf(),
    ensures
        final(reader).wf(),
        final(reader).same_stream(old(reader)),
        match result {
            Ok(x) => {
                &&& 4 <= old(reader).remaining().len()
                &&& x == u32_of_le(old(reader).remaining().take(4))
                &&& final(reader).position() == old(reader).position() + 4
                &&& final(reader).remaining() == old(reader).remaining().skip(4)
            },
            Err(e) => e == Error::MalformedHeader && 4 > old(reader).remaining().len(),
        },
{
    match read_bytes::<4>(reader) {
        Ok(bytes) => Ok(u32_from_le_bytes(&bytes)),
        Err(e) => Err(e),
    }
}

/// Reads a number of eight little-endian bytes.
fn read_u64(reader: &mut DecryptReader) -> (result: Result<u64, Error>)
    requires
        old(reader).wf(),
    ensures
        final(reader).wf(),
        final(reader).same_stream(old(reader)),
        match result {
            Ok(x) => {
                &&& 8 <= old(reader).remaining().len()
                &&& x == u64_of_le(old(reader).remaining().take(8))
                &&& final(reader).position() == old(reader).position() + 8
                &&& final(reader).remaining() == old(reader).remaining().skip(8)
            },
            Err(e) => e == Error::MalformedHeader && 8 > old(reader).remaining().len(),
        },
{
    match read_bytes::<8>(reader) {
        Ok(bytes) => Ok(u64_from_le_bytes(&bytes)),
        Err(e) => Err(e),
    }
}

/// Reads a length of four little-endian bytes, then as many bytes.
fn read_slice(reader: &mut DecryptReader) -> (result: Result<Vec<u8>, Error>)
    requires
        old(reader).wf(),
    ensures
        final(reader).wf(),
        final(reader).same_stream(old(reader)),
        match result {
            Ok(slice) => {
                let len = u32_of_le(old(reader).remaining().take(4)) as int;
                &&& 4 + len <= old(reader).remaining().len()
                &&& slice@ == old(reader).remaining().subrange(4, 4 + len)
                &&& final(reader).position() == old(reader).position() + 4 + len
                &&& final(reader).remaining() == old(reader).remaining().skip(4 + len)
            },
            Err(e) => {
                &&& e == Error::MalformedHeader
                &&& (old(reader).remaining().len() < 4 || old(reader).remaining().len() < 4
                    + u32_of_le(old(reader).remaining().take(4)))
            },
        },
{
    let len = match read_u32(reader) {
        Ok(len) => len,
        Err(e) => {
            return Err(e);
        },
    };
    match reader.read_exact(len as usize) {
        Ok(slice) => {
            assert(slice@ =~= old(reader).remaining().subrange(4, 4 + len));
            assert(reader.remaining() =~= old(reader).remaining().skip(4 + len));
            Ok(slice)
        },
        Err(_) => Err(Error::MalformedHeader),
    }
}

/// Reads a string: its length in bytes, then its UTF-8.
fn read_text(reader: &mut DecryptReader) -> (result: Result<String, Error>)
    requires
        old(reader).wf(),
    ensures
        final(reader).wf(),
        final(reader).same_stream(old(reader)),
        match result {
            Ok(text) => {
                &&& parse_text(old(reader).remaining()) == Some(
                    (text@, final(reader).position() - old(reader).position()),
                )
                &&& final(reader).remaining() == old(reader).remaining().skip(
                    final(reader).position() - old(reader).position(),
                )
            },
            Err(e) => e == Error::MalformedHeader && parse_text(old(reader).remaining()) is None,
        },
{
    reveal(parse_text);
    let slice = match read_slice(reader) {
        Ok(slice) => slice,
        Err(e) => {
            return Err(e);
        },
    };
    match string_from_utf8(slice) {
        Some(text) => {
            proof {
                encode_utf8_decode_utf8(text@);
            }
            Ok(text)
        },
        None => Err(Error::MalformedHeader),
    }
}

/// Reads one entry: hash, size, path. Its payload starts at `position`.
fn read_entry(reader: &mut DecryptReader, position: u64) -> (result: Result<Entry, Error>)
    requires
        old(reader).wf(),
    ensures
        final(reader).wf(),
        final(reader).same_stream(old(reader)),
        match result {
            Ok(entry) => {
                &&& parse_entry(old(reader).remaining()) == Some(
                    (entry@, final(reader).position() - old(reader).position()),
                )
                &&& final(reader).remaining() == old(reader).remaining().skip(
                    final(reader).position() - old(reader).position(),
                )
                &&& entry.position == position
            },
            Err(e) => e == Error::MalformedHeader && parse_entry(old(reader).remaining()) is None,
        },
{
    reveal(parse_text);
    reveal(parse_entry);
    let ghost bytes = reader.remaining();
    let hash = match read_bytes::<32>(reader) {
        Ok(hash) => hash,
        Err(e) => {
            return Err(e);
        },
    };
    let size = match read_u64(reader) {
        Ok(size) => size,
        Err(e) => {
            return Err(e);
        },
    };
    assert(bytes.skip(32).take(8) =~= bytes.subrange(32, 40));
    assert(reader.remaining() =~= bytes.skip(40));
    let slice = match read_slice(reader) {
        Ok(slice) => slice,
        Err(e) => {
            return Err(e);
        },
    };
    let path = match EntryPath::from_bytes(slice) {
        Some(path) => path,
        None => {
            return Err(Error::MalformedHeader);
        },
    };
    proof {
        encode_utf8_decode_utf8(path@);
        assert(reader.remaining() =~= bytes.skip(reader.position() - old(reader).position()));
    }
    Ok(Entry { path, hash, position, size })
}

/// Reads one source: id, number of entries, entries. Its first payload
/// starts at `position`. Fails also where a payload would end past what an
/// offset can hold.
fn read_source(reader: &mut DecryptReader, position: u64) -> (result: Result<SourceGroup, Error>)
    requires
        old(reader).wf(),
    ensures
        final(reader).wf(),
        final(reader).same_stream(old(reader)),
        match result {
            Ok(group) => {
                &&& parse_source(old(reader).remaining()) == Some(
                    (group@, final(reader).position() - old(reader).position()),
                )
                &&& final(reader).remaining() == old(reader).remaining().skip(
                    final(reader).position() - old(reader).position(),
                )
                &&& final(reader).position() >= old(reader).position()
                &&& group.laid_out_from(position as int)
                &&& group.size == entries_size(group@.entries)
                &&& position + group.size <= u64::MAX
                &&& format::source_fits(group@)
            },
            Err(e) => {
                &&& e == Error::MalformedHeader
                &&& parse_source(old(reader).remaining()) matches Some((source, _)) ==> position
                    + entries_size(source.entries) > u64::MAX
            },
        },
{
    let ghost bytes = reader.remaining();
    let id = match read_text(reader) {
        Ok(id) => id,
        Err(e) => {
            proof {
                format::lemma_parse_source_fails(bytes);
            }
            return Err(e);
        },
    };
    let ghost id_len = reader.position() - old(reader).position();
    let entry_count = match read_u32(reader) {
        Ok(count) => count,
        Err(e) => {
            proof {
                format::lemma_parse_source_fails(bytes);
            }
            return Err(e);
        },
    };
    let ghost whole = parse_entries(bytes.skip(id_len + 4), entry_count as nat);
    let ghost id_text = id@;
    let ghost goal = parse_source(bytes);
    proof {
        format::lemma_text_bytes_parse(bytes);
        assert(bytes.skip(id_len).take(4) =~= bytes.subrange(id_len, id_len + 4));
        assert(bytes.skip(id_len).skip(4) =~= bytes.skip(id_len + 4));
        format::lemma_parse_source_parts(bytes, id_text, id_len);
        if whole is Some {
            assert(Seq::<EntryRecord>::empty() + whole.unwrap().0 =~= whole.unwrap().0);
        }
    }
    let mut size: u64 = 0;
    let mut entries: Vec<Entry> = Vec::new();
    let mut j: u32 = 0;
    assert(entries@.map_values(|e: Entry| e@) =~= Seq::empty());
    while j < entry_count
        invariant
            reader.wf(),
            id@ == id_text,
            text_fits(id_text),
            reader.same_stream(old(reader)),
            0 <= j <= entry_count,
            entries@.len() == j,
            id_len >= 4,
            goal == parse_source(old(reader).remaining()),
            goal == match whole {
                Some((records, len)) => Some(
                    (SourceRecord { id: id_text, entries: records }, id_len + 4 + len),
                ),
                None => None,
            },
            reader.position() >= old(reader).position() + id_len + 4,
            whole == format::extend_parse(
                entries@.map_values(|e: Entry| e@),
                reader.position() - old(reader).position() - id_len - 4,
                parse_entries(reader.remaining(), (entry_count - j) as nat),
            ),
            size == entries_size(entries@.map_values(|e: Entry| e@)),
            position + size <= u64::MAX,
            forall|k: int|
                0 <= k < j ==> (#[trigger] entries@[k]).position == position + entries_size(
                    entries@.map_values(|e: Entry| e@).take(k),
                ),
            forall|k: int| 0 <= k < j ==> format::entry_fits((#[trigger] entries@[k])@),
            whole matches Some((records, _)) ==> entries_size(records) >= size,
        decreases entry_count - j,
    {
        let ghost here = reader.remaining();
        let ghost done = entries@.map_values(|e: Entry| e@);
        let ghost used = reader.position() - old(reader).position() - id_len - 4;
        proof {
            format::lemma_parse_entries_step(here, (entry_count - j) as nat, done, used);
        }
        match read_entry(reader, position + size) {
            Ok(entry) => {
                proof {
                    format::lemma_entry_bytes_parse(here);
                    let after = entries@.push(entry).map_values(|e: Entry| e@);
                    assert(after =~= done.push(entry@));
                    lemma_entries_size_push(done, entry@);
                    assert forall|k: int| 0 <= k < j + 1 implies (#[trigger] entries@.push(
                        entry,
                    )[k]).position == position + entries_size(after.take(k)) by {
                        format::lemma_offsets_push(done, entry@, k);
                    }
                }
                if entry.size > u64::MAX - position - size {
                    return Err(Error::MalformedHeader);
                }
                size = size + entry.size;
                entries.push(entry);
            },
            Err(e) => {
                return Err(e);
            },
        }
        j = j + 1;
    }
    let group = SourceGroup { id, size, entries };
    proof {
        reveal(SourceGroup::laid_out_from);
        format::lemma_parse_entries_none(reader.remaining());
        format::lemma_extend_parse_done(
            group@.entries,
            reader.position() - old(reader).position() - id_len - 4,
        );
    }
    Ok(group)
}

} // verus!
