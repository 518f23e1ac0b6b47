//! The header's layout: what a header is, the bytes that stand for it, and the
//! header that given bytes stand for.

use vstd::prelude::*;
use vstd::utf8::{decode_utf8, encode_utf8, valid_utf8};
use vstd::utf8::{decode_utf8_encode_utf8, encode_utf8_decode_utf8, encode_utf8_valid_utf8};
use crate::bytes::{u32_le, u32_of_le, u64_le, u64_of_le};
use crate::bytes::{lemma_u32_le_roundtrip, lemma_u32_of_le_roundtrip};
use crate::bytes::{lemma_u64_le_roundtrip, lemma_u64_of_le_roundtrip};

verus! {

/// One file of a source, as the header records it.
#[verifier::ext_equal]
pub struct EntryRecord {
    /// The path below the source's root; empty where the source is the file.
    pub path: Seq<char>,
    /// The BLAKE3 digest of the contents.
    pub hash: Seq<u8>,
    /// The number of payload bytes.
    pub size: u64,
}

/// One source with its files, in the order of their payloads.
#[verifier::ext_equal]
pub struct SourceRecord {
    pub id: Seq<char>,
    pub entries: Seq<EntryRecord>,
}

/// A container's table of contents.
#[verifier::ext_equal]
pub struct HeaderRecord {
    pub is_single_source: bool,
    pub sources: Seq<SourceRecord>,
}

/// The sum of the sizes of `entries`.
pub open spec fn entries_size(entries: Seq<EntryRecord>) -> nat
    decreases entries.len(),
{
    if entries.len() == 0 {
        0
    } else {
        entries_size(entries.drop_last()) + entries.last().size as nat
    }
}

/// The sum of the sizes of all entries of `sources`.
pub open spec fn sources_size(sources: Seq<SourceRecord>) -> nat
    decreases sources.len(),
{
    if sources.len() == 0 {
        0
    } else {
        sources_size(sources.drop_last()) + entries_size(sources.last().entries)
    }
}

/// Where the payload of entry `j` of source `i` starts, counted from the end
/// of the header: the sum of the sizes of all entries before it.
pub open spec fn entry_offset(sources: Seq<SourceRecord>, i: int, j: int) -> nat
    recommends
        0 <= i < sources.len(),
        0 <= j <= sources[i].entries.len(),
{
    sources_size(sources.take(i)) + entries_size(sources[i].entries.take(j))
}

/// A length-prefixed string fits the format.
pub open spec fn text_fits(text: Seq<char>) -> bool {
    encode_utf8(text).len() <= u32::MAX
}

pub open spec fn entry_fits(entry: EntryRecord) -> bool {
    entry.hash.len() == 32 && text_fits(entry.path)
}

pub open spec fn source_fits(source: SourceRecord) -> bool {
    &&& text_fits(source.id)
    &&& source.entries.len() <= u32::MAX
    &&& forall|j: int| 0 <= j < source.entries.len() ==> entry_fits(#[trigger] source.entries[j])
}

/// Every count, length and offset of `header` can be written down.
pub open spec fn header_fits(header: HeaderRecord) -> bool {
    &&& header.sources.len() <= u32::MAX
    &&& forall|i: int| 0 <= i < header.sources.len() ==> source_fits(#[trigger] header.sources[i])
    &&& sources_size(header.sources) <= u64::MAX
}

/// A string as the header holds it: its length in bytes, then its UTF-8.
pub open spec fn text_bytes(text: Seq<char>) -> Seq<u8> {
    u32_le(encode_utf8(text).len() as u32) + encode_utf8(text)
}

/// An entry as the header holds it: hash, size, path.
pub open spec fn entry_bytes(entry: EntryRecord) -> Seq<u8> {
    entry.hash + u64_le(entry.size) + text_bytes(entry.path)
}

pub open spec fn entries_bytes(entries: Seq<EntryRecord>) -> Seq<u8>
    decreases entries.len(),
{
    if entries.len() == 0 {
        Seq::empty()
    } else {
        entry_bytes(entries.first()) + entries_bytes(entries.drop_first())
    }
}

/// A source as the header holds it: id, number of entries, entries.
pub open spec fn source_bytes(source: SourceRecord) -> Seq<u8> {
    text_bytes(source.id) + u32_le(source.entries.len() as u32) + entries_bytes(source.entries)
}

pub open spec fn sources_bytes(sources: Seq<SourceRecord>) -> Seq<u8>
    decreases sources.len(),
{
    if sources.len() == 0 {
        Seq::empty()
    } else {
        source_bytes(sources.first()) + sources_bytes(sources.drop_first())
    }
}

/// The flag word: bit 0 says that the container holds a single source.
pub open spec fn flags_bytes(is_single_source: bool) -> Seq<u8> {
    u32_le(if is_single_source { 1 } else { 0 })
}

/// The flag word has four bytes, and its first is odd for a single source.
pub proof fn lemma_flags_bytes(is_single_source: bool)
    ensures
        flags_bytes(is_single_source).len() == 4,
        flags_bytes(is_single_source)[0] % 2 == 1 <==> is_single_source,
{
    reveal(u32_le);
}

/// The bytes of a header: flags, number of sources, sources.
pub open spec fn header_bytes(header: HeaderRecord) -> Seq<u8> {
    flags_bytes(header.is_single_source) + u32_le(header.sources.len() as u32) + sources_bytes(
        header.sources,
    )
}

/// The string at the front of `bytes` and the number of bytes it takes.
#[verifier::opaque]
pub open spec fn parse_text(bytes: Seq<u8>) -> Option<(Seq<char>, int)> {
    if bytes.len() < 4 {
        None
    } else {
        let len = u32_of_le(bytes.take(4)) as int;
        if bytes.len() < 4 + len || !valid_utf8(bytes.subrange(4, 4 + len)) {
            None
        } else {
            Some((decode_utf8(bytes.subrange(4, 4 + len)), 4 + len))
        }
    }
}

/// The entry at the front of `bytes` and the number of bytes it takes.
#[verifier::opaque]
pub open spec fn parse_entry(bytes: Seq<u8>) -> Option<(EntryRecord, int)> {
    if bytes.len() < 40 {
        None
    } else {
        match parse_text(bytes.skip(40)) {
            Some((path, len)) => Some(
                (
                    EntryRecord {
                        path,
                        hash: bytes.take(32),
                        size: u64_of_le(bytes.subrange(32, 40)),
                    },
                    40 + len,
                ),
            ),
            None => None,
        }
    }
}

/// The `count` entries at the front of `bytes` and the bytes they take.
#[verifier::opaque]
pub open spec fn parse_entries(bytes: Seq<u8>, count: nat) -> Option<(Seq<EntryRecord>, int)>
    decreases count,
{
    if count == 0 {
        Some((Seq::empty(), 0))
    } else {
        match parse_entry(bytes) {
            Some((entry, len)) => match parse_entries(bytes.skip(len), (count - 1) as nat) {
                Some((entries, rest)) => Some((seq![entry] + entries, len + rest)),
                None => None,
            },
            None => None,
        }
    }
}

/// The source at the front of `bytes` and the number of bytes it takes.
#[verifier::opaque]
pub open spec fn parse_source(bytes: Seq<u8>) -> Option<(SourceRecord, int)> {
    match parse_text(bytes) {
        Some((id, id_len)) => if bytes.len() < id_len + 4 {
            None
        } else {
            let count = u32_of_le(bytes.subrange(id_len, id_len + 4)) as nat;
            match parse_entries(bytes.skip(id_len + 4), count) {
                Some((entries, len)) => Some((SourceRecord { id, entries }, id_len + 4 + len)),
                None => None,
            }
        },
        None => None,
    }
}

/// The `count` sources at the front of `bytes` and the bytes they take.
#[verifier::opaque]
pub open spec fn parse_sources(bytes: Seq<u8>, count: nat) -> Option<(Seq<SourceRecord>, int)>
    decreases count,
{
    if count == 0 {
        Some((Seq::empty(), 0))
    } else {
        match parse_source(bytes) {
            Some((source, len)) => match parse_sources(bytes.skip(len), (count - 1) as nat) {
                Some((sources, rest)) => Some((seq![source] + sources, len + rest)),
                None => None,
            },
            None => None,
        }
    }
}

/// The header at the front of `bytes` and the number of bytes it takes, or
/// `None` where the bytes are truncated, a string is not UTF-8, or the sizes
/// add up to more than an offset can hold. Only bit 0 of the flags counts.
pub open spec fn parse_header(bytes: Seq<u8>) -> Option<(HeaderRecord, int)> {
    if bytes.len() < 8 {
        None
    } else {
        let is_single_source = bytes[0] % 2 == 1;
        let count = u32_of_le(bytes.subrange(4, 8)) as nat;
        match parse_sources(bytes.skip(8), count) {
            Some((sources, len)) => if sources_size(sources) <= u64::MAX {
                Some((HeaderRecord { is_single_source, sources }, 8 + len))
            } else {
                None
            },
            None => None,
        }
    }
}

pub proof fn lemma_entries_size_push(entries: Seq<EntryRecord>, entry: EntryRecord)
    ensures
        entries_size(entries.push(entry)) == entries_size(entries) + entry.size,
{
    assert(entries.push(entry).drop_last() =~= entries);
}

pub proof fn lemma_sources_size_push(sources: Seq<SourceRecord>, source: SourceRecord)
    ensures
        sources_size(sources.push(source)) == sources_size(sources) + entries_size(source.entries),
{
    assert(sources.push(source).drop_last() =~= sources);
}

pub proof fn lemma_entries_size_concat(left: Seq<EntryRecord>, right: Seq<EntryRecord>)
    ensures
        entries_size(left + right) == entries_size(left) + entries_size(right),
    decreases right.len(),
{
    if right.len() == 0 {
        assert(left + right =~= left);
    } else {
        assert((left + right).drop_last() =~= left + right.drop_last());
        lemma_entries_size_concat(left, right.drop_last());
    }
}

pub proof fn lemma_sources_size_concat(left: Seq<SourceRecord>, right: Seq<SourceRecord>)
    ensures
        sources_size(left + right) == sources_size(left) + sources_size(right),
    decreases right.len(),
{
    if right.len() == 0 {
        assert(left + right =~= left);
    } else {
        assert((left + right).drop_last() =~= left + right.drop_last());
        lemma_sources_size_concat(left, right.drop_last());
    }
}

pub proof fn lemma_entries_bytes_push(entries: Seq<EntryRecord>, entry: EntryRecord)
    ensures
        entries_bytes(entries.push(entry)) == entries_bytes(entries) + entry_bytes(entry),
    decreases entries.len(),
{
    let pushed = entries.push(entry);
    if entries.len() == 0 {
        assert(pushed.drop_first() =~= Seq::<EntryRecord>::empty());
        assert(entries_bytes(pushed.drop_first()) =~= Seq::<u8>::empty());
        assert(entries_bytes(entries) =~= Seq::<u8>::empty());
        assert(entries_bytes(pushed) == entry_bytes(entry) + entries_bytes(pushed.drop_first()));
        assert(entry_bytes(entry) + Seq::<u8>::empty() =~= Seq::<u8>::empty() + entry_bytes(entry));
    } else {
        let tail = entries.drop_first();
        assert(pushed.drop_first() =~= tail.push(entry));
        lemma_entries_bytes_push(tail, entry);
        assert(entries_bytes(pushed) == entry_bytes(entries.first()) + entries_bytes(
            tail.push(entry),
        ));
        assert(entry_bytes(entries.first()) + (entries_bytes(tail) + entry_bytes(entry))
            =~= entry_bytes(entries.first()) + entries_bytes(tail) + entry_bytes(entry));
    }
}

pub proof fn lemma_sources_bytes_push(sources: Seq<SourceRecord>, source: SourceRecord)
    ensures
        sources_bytes(sources.push(source)) == sources_bytes(sources) + source_bytes(source),
    decreases sources.len(),
{
    let pushed = sources.push(source);
    if sources.len() == 0 {
        assert(pushed.drop_first() =~= Seq::<SourceRecord>::empty());
        assert(sources_bytes(pushed.drop_first()) =~= Seq::<u8>::empty());
        assert(sources_bytes(sources) =~= Seq::<u8>::empty());
        assert(sources_bytes(pushed) == source_bytes(source) + sources_bytes(
            pushed.drop_first(),
        ));
        assert(source_bytes(source) + Seq::<u8>::empty() =~= Seq::<u8>::empty() + source_bytes(
            source,
        ));
    } else {
        let tail = sources.drop_first();
        assert(pushed.drop_first() =~= tail.push(source));
        lemma_sources_bytes_push(tail, source);
        assert(sources_bytes(pushed) == source_bytes(sources.first()) + sources_bytes(
            tail.push(source),
        ));
        assert(source_bytes(sources.first()) + (sources_bytes(tail) + source_bytes(source))
            =~= source_bytes(sources.first()) + sources_bytes(tail) + source_bytes(source));
    }
}

/// A string that fits is read back from its bytes, whatever follows them.
pub proof fn lemma_parse_text_bytes(text: Seq<char>, rest: Seq<u8>)
    requires
        text_fits(text),
    ensures
        parse_text(text_bytes(text) + rest) == Some((text, text_bytes(text).len() as int)),
        text_bytes(text).len() == 4 + encode_utf8(text).len(),
{
    reveal(parse_text);
    let utf8 = encode_utf8(text);
    let bytes = text_bytes(text) + rest;
    lemma_u32_le_roundtrip(utf8.len() as u32);
    assert(bytes.take(4) =~= u32_le(utf8.len() as u32));
    assert(bytes.subrange(4, 4 + utf8.len() as int) =~= utf8);
    encode_utf8_valid_utf8(text);
    encode_utf8_decode_utf8(text);
}

/// What is read as a string stands at the front as that string's bytes.
pub proof fn lemma_text_bytes_parse(bytes: Seq<u8>)
    requires
        parse_text(bytes) is Some,
    ensures
        ({
            let (text, len) = parse_text(bytes).unwrap();
            &&& text_fits(text)
            &&& 4 <= len <= bytes.len()
            &&& bytes.take(len) == text_bytes(text)
        }),
{
    reveal(parse_text);
    let len = u32_of_le(bytes.take(4)) as int;
    let utf8 = bytes.subrange(4, 4 + len);
    decode_utf8_encode_utf8(utf8);
    lemma_u32_of_le_roundtrip(bytes.take(4));
    assert(bytes.take(4 + len) =~= bytes.take(4) + utf8);
}

/// An entry that fits is read back from its bytes, whatever follows them.
pub proof fn lemma_parse_entry_bytes(entry: EntryRecord, rest: Seq<u8>)
    requires
        entry_fits(entry),
    ensures
        parse_entry(entry_bytes(entry) + rest) == Some((entry, entry_bytes(entry).len() as int)),
{
    reveal(parse_entry);
    let bytes = entry_bytes(entry) + rest;
    lemma_u64_le_roundtrip(entry.size);
    lemma_parse_text_bytes(entry.path, rest);
    assert(bytes.take(32) =~= entry.hash);
    assert(bytes.subrange(32, 40) =~= u64_le(entry.size));
    assert(bytes.skip(40) =~= text_bytes(entry.path) + rest);
}

/// What is read as an entry stands at the front as that entry's bytes.
pub proof fn lemma_entry_bytes_parse(bytes: Seq<u8>)
    requires
        parse_entry(bytes) is Some,
    ensures
        ({
            let (entry, len) = parse_entry(bytes).unwrap();
            &&& entry_fits(entry)
            &&& 44 <= len <= bytes.len()
            &&& bytes.take(len) == entry_bytes(entry)
        }),
{
    reveal(parse_entry);
    let (entry, len) = parse_entry(bytes).unwrap();
    lemma_text_bytes_parse(bytes.skip(40));
    lemma_u64_of_le_roundtrip(bytes.subrange(32, 40));
    assert(bytes.take(len) =~= bytes.take(32) + bytes.subrange(32, 40) + bytes.skip(40).take(
        len - 40,
    ));
}

/// Entries that fit are read back from their bytes, whatever follows them.
pub proof fn lemma_parse_entries_bytes(entries: Seq<EntryRecord>, rest: Seq<u8>)
    requires
        forall|j: int| 0 <= j < entries.len() ==> entry_fits(#[trigger] entries[j]),
    ensures
        parse_entries(entries_bytes(entries) + rest, entries.len()) == Some(
            (entries, entries_bytes(entries).len() as int),
        ),
    decreases entries.len(),
{
    reveal_with_fuel(parse_entries, 2);
    if entries.len() == 0 {
        assert(entries =~= Seq::empty());
    } else {
        let first = entries.first();
        let tail = entries.drop_first();
        let bytes = entries_bytes(entries) + rest;
        assert(entry_fits(entries[0]));
        assert(bytes =~= entry_bytes(first) + (entries_bytes(tail) + rest));
        lemma_parse_entry_bytes(first, entries_bytes(tail) + rest);
        assert(bytes.skip(entry_bytes(first).len() as int) =~= entries_bytes(tail) + rest);
        assert forall|j: int| 0 <= j < tail.len() implies entry_fits(#[trigger] tail[j]) by {
            assert(tail[j] == entries[j + 1]);
        }
        lemma_parse_entries_bytes(tail, rest);
        assert(seq![first] + tail =~= entries);
    }
}

/// What is read as entries stands at the front as those entries' bytes.
pub proof fn lemma_entries_bytes_parse(bytes: Seq<u8>, count: nat)
    requires
        parse_entries(bytes, count) is Some,
    ensures
        ({
            let (entries, len) = parse_entries(bytes, count).unwrap();
            &&& entries.len() == count
            &&& forall|j: int| 0 <= j < entries.len() ==> entry_fits(#[trigger] entries[j])
            &&& 0 <= len <= bytes.len()
            &&& bytes.take(len) == entries_bytes(entries)
        }),
    decreases count,
{
    reveal_with_fuel(parse_entries, 2);
    if count == 0 {
        assert(bytes.take(0) =~= Seq::empty());
    } else {
        let (entry, first_len) = parse_entry(bytes).unwrap();
        let (tail, rest_len) = parse_entries(bytes.skip(first_len), (count - 1) as nat).unwrap();
        let entries = seq![entry] + tail;
        lemma_entry_bytes_parse(bytes);
        lemma_entries_bytes_parse(bytes.skip(first_len), (count - 1) as nat);
        assert(entries.drop_first() =~= tail);
        assert(bytes.take(first_len + rest_len) =~= bytes.take(first_len) + bytes.skip(
            first_len,
        ).take(rest_len));
        assert forall|j: int| 0 <= j < entries.len() implies entry_fits(#[trigger] entries[j]) by {
            if j > 0 {
                assert(entries[j] == tail[j - 1]);
            }
        }
    }
}

/// A source that fits is read back from its bytes, whatever follows them.
pub proof fn lemma_parse_source_bytes(source: SourceRecord, rest: Seq<u8>)
    requires
        source_fits(source),
    ensures
        parse_source(source_bytes(source) + rest) == Some(
            (source, source_bytes(source).len() as int),
        ),
{
    reveal(parse_source);
    let id = text_bytes(source.id);
    let count = u32_le(source.entries.len() as u32);
    let entries = entries_bytes(source.entries);
    let bytes = source_bytes(source) + rest;
    assert(bytes =~= id + (count + entries + rest));
    lemma_parse_text_bytes(source.id, count + entries + rest);
    lemma_u32_le_roundtrip(source.entries.len() as u32);
    assert(bytes.subrange(id.len() as int, id.len() as int + 4) =~= count);
    assert(bytes.skip(id.len() as int + 4) =~= entries + rest);
    lemma_parse_entries_bytes(source.entries, rest);
}

/// What is read as a source stands at the front as that source's bytes.
pub proof fn lemma_source_bytes_parse(bytes: Seq<u8>)
    requires
        parse_source(bytes) is Some,
    ensures
        ({
            let (source, len) = parse_source(bytes).unwrap();
            &&& source_fits(source)
            &&& 8 <= len <= bytes.len()
            &&& bytes.take(len) == source_bytes(source)
        }),
{
    reveal(parse_source);
    let (id, id_len) = parse_text(bytes).unwrap();
    let count_bytes = bytes.subrange(id_len, id_len + 4);
    let count = u32_of_le(count_bytes) as nat;
    let (entries, len) = parse_entries(bytes.skip(id_len + 4), count).unwrap();
    lemma_text_bytes_parse(bytes);
    lemma_u32_of_le_roundtrip(count_bytes);
    lemma_entries_bytes_parse(bytes.skip(id_len + 4), count);
    assert(bytes.take(id_len + 4 + len) =~= bytes.take(id_len) + count_bytes + bytes.skip(
        id_len + 4,
    ).take(len));
}

/// Sources that fit are read back from their bytes, whatever follows them.
pub proof fn lemma_parse_sources_bytes(sources: Seq<SourceRecord>, rest: Seq<u8>)
    requires
        forall|i: int| 0 <= i < sources.len() ==> source_fits(#[trigger] sources[i]),
    ensures
        parse_sources(sources_bytes(sources) + rest, sources.len()) == Some(
            (sources, sources_bytes(sources).len() as int),
        ),
    decreases sources.len(),
{
    reveal_with_fuel(parse_sources, 2);
    if sources.len() == 0 {
        assert(sources =~= Seq::empty());
    } else {
        let first = sources.first();
        let tail = sources.drop_first();
        let bytes = sources_bytes(sources) + rest;
        let first_len = source_bytes(first).len() as int;
        assert(source_fits(sources[0]));
        assert(bytes =~= source_bytes(first) + (sources_bytes(tail) + rest));
        assert(parse_source(bytes) == Some((first, first_len))) by {
            lemma_parse_source_bytes(first, sources_bytes(tail) + rest);
        }
        assert(bytes.skip(first_len) =~= sources_bytes(tail) + rest);
        assert(parse_sources(bytes.skip(first_len), tail.len()) == Some(
            (tail, sources_bytes(tail).len() as int),
        )) by {
            assert forall|i: int| 0 <= i < tail.len() implies source_fits(#[trigger] tail[i]) by {
                assert(tail[i] == sources[i + 1]);
            }
            lemma_parse_sources_bytes(tail, rest);
        }
        assert(seq![first] + tail =~= sources);
        assert(sources_bytes(sources).len() == first_len + sources_bytes(tail).len());
    }
}

/// What is read as sources stands at the front as those sources' bytes.
pub proof fn lemma_sources_bytes_parse(bytes: Seq<u8>, count: nat)
    requires
        parse_sources(bytes, count) is Some,
    ensures
        ({
            let (sources, len) = parse_sources(bytes, count).unwrap();
            &&& sources.len() == count
            &&& forall|i: int| 0 <= i < sources.len() ==> source_fits(#[trigger] sources[i])
            &&& 0 <= len <= bytes.len()
            &&& bytes.take(len) == sources_bytes(sources)
        }),
    decreases count,
{
    reveal_with_fuel(parse_sources, 2);
    if count == 0 {
        assert(bytes.take(0) =~= Seq::empty());
    } else {
        let (source, first_len) = parse_source(bytes).unwrap();
        let (tail, rest_len) = parse_sources(bytes.skip(first_len), (count - 1) as nat).unwrap();
        let sources = seq![source] + tail;
        lemma_source_bytes_parse(bytes);
        lemma_sources_bytes_parse(bytes.skip(first_len), (count - 1) as nat);
        assert(sources.drop_first() =~= tail);
        assert(bytes.take(first_len + rest_len) =~= bytes.take(first_len) + bytes.skip(
            first_len,
        ).take(rest_len));
        assert forall|i: int| 0 <= i < sources.len() implies source_fits(
            #[trigger] sources[i],
        ) by {
            if i > 0 {
                assert(sources[i] == tail[i - 1]);
            }
        }
    }
}

/// Header round trip: a header that fits is read back from its bytes,
/// source for source and entry for entry, whatever payload follows them, and
/// reading takes exactly the header's bytes.
pub proof fn lemma_parse_header_bytes(header: HeaderRecord, rest: Seq<u8>)
    requires
        header_fits(header),
    ensures
        parse_header(header_bytes(header) + rest) == Some(
            (header, header_bytes(header).len() as int),
        ),
{
    let flags = flags_bytes(header.is_single_source);
    let count = u32_le(header.sources.len() as u32);
    let sources = sources_bytes(header.sources);
    let bytes = header_bytes(header) + rest;
    lemma_u32_le_roundtrip(header.sources.len() as u32);
    lemma_flags_bytes(header.is_single_source);
    assert(bytes.subrange(4, 8) =~= count);
    assert(bytes[0] == flags[0]);
    assert(bytes.skip(8) =~= sources + rest);
    lemma_parse_sources_bytes(header.sources, rest);
}

/// Whatever is read as a header fits, and what was read is, but for the
/// unused bits of the flags, the bytes of that header.
pub proof fn lemma_header_bytes_parse(bytes: Seq<u8>)
    requires
        parse_header(bytes) is Some,
    ensures
        ({
            let (header, len) = parse_header(bytes).unwrap();
            &&& header_fits(header)
            &&& 8 <= len <= bytes.len()
            &&& bytes.subrange(4, len) == header_bytes(header).skip(4)
            &&& header.is_single_source == (bytes[0] % 2 == 1)
        }),
{
    let (header, len) = parse_header(bytes).unwrap();
    let count_bytes = bytes.subrange(4, 8);
    let count = u32_of_le(count_bytes) as nat;
    lemma_u32_of_le_roundtrip(count_bytes);
    lemma_sources_bytes_parse(bytes.skip(8), count);
    lemma_flags_bytes(header.is_single_source);
    assert(bytes.subrange(4, len) =~= count_bytes + bytes.skip(8).take(len - 8));
    assert(header_bytes(header).skip(4) =~= count_bytes + sources_bytes(header.sources));
}

/// What the payload pass records of a file.
#[verifier::ext_equal]
pub struct ValueRecord {
    pub size: u64,
    pub hash: Seq<u8>,
}

/// The place of one file in a header under construction.
#[verifier::ext_equal]
pub struct SlotRecord {
    pub path: Seq<char>,
    pub value: Option<ValueRecord>,
}

/// The places of one source's files.
#[verifier::ext_equal]
pub struct SlotsRecord {
    pub id: Seq<char>,
    pub slots: Seq<SlotRecord>,
}

/// A header under construction.
#[verifier::ext_equal]
pub struct BuilderRecord {
    pub is_single_source: bool,
    pub sources: Seq<SlotsRecord>,
}

/// The bytes that the entries for `slots` will take, whatever is recorded in
/// them.
pub open spec fn slots_size(slots: Seq<SlotRecord>) -> nat
    decreases slots.len(),
{
    if slots.len() == 0 {
        0
    } else {
        slots_size(slots.drop_last()) + 44 + encode_utf8(slots.last().path).len()
    }
}

/// The bytes that `sources` will take in the header.
pub open spec fn skeleton_sources_size(sources: Seq<SlotsRecord>) -> nat
    decreases sources.len(),
{
    if sources.len() == 0 {
        0
    } else {
        skeleton_sources_size(sources.drop_last()) + 8 + encode_utf8(sources.last().id).len()
            + slots_size(sources.last().slots)
    }
}

/// The bytes that the header will take: known from the ids and the paths
/// alone, before any file has been read.
pub open spec fn skeleton_size(builder: BuilderRecord) -> nat {
    8 + skeleton_sources_size(builder.sources)
}

pub open spec fn slots_fit(source: SlotsRecord) -> bool {
    &&& text_fits(source.id)
    &&& source.slots.len() <= u32::MAX
    &&& forall|j: int| 0 <= j < source.slots.len() ==> text_fits((#[trigger] source.slots[j]).path)
}

/// Every count and length of the header to be can be written down, and its
/// size can be held.
pub open spec fn builder_fits(builder: BuilderRecord) -> bool {
    &&& builder.sources.len() <= u32::MAX
    &&& forall|i: int| 0 <= i < builder.sources.len() ==> slots_fit(#[trigger] builder.sources[i])
    &&& skeleton_size(builder) <= u64::MAX
}

/// Something is recorded in the slot, with a hash of 32 bytes.
pub open spec fn slot_filled(slot: SlotRecord) -> bool {
    slot.value is Some && slot.value.unwrap().hash.len() == 32
}

/// Every slot is filled.
pub open spec fn builder_complete(builder: BuilderRecord) -> bool {
    forall|i: int, j: int|
        0 <= i < builder.sources.len() && 0 <= j < builder.sources[i].slots.len() ==> slot_filled(
            #[trigger] builder.sources[i].slots[j],
        )
}

pub open spec fn slot_entry(slot: SlotRecord) -> EntryRecord {
    EntryRecord { path: slot.path, hash: slot.value.unwrap().hash, size: slot.value.unwrap().size }
}

pub open spec fn slots_source(source: SlotsRecord) -> SourceRecord {
    SourceRecord { id: source.id, entries: source.slots.map_values(|s: SlotRecord| slot_entry(s)) }
}

/// The header that a complete builder stands for.
pub open spec fn header_of(builder: BuilderRecord) -> HeaderRecord {
    HeaderRecord {
        is_single_source: builder.is_single_source,
        sources: builder.sources.map_values(|s: SlotsRecord| slots_source(s)),
    }
}

impl BuilderRecord {
    /// Slot `j` of source `i` is the one for `path` in the source `id`.
    pub open spec fn has_slot(self, i: int, j: int, id: Seq<char>, path: Seq<char>) -> bool {
        &&& 0 <= i < self.sources.len()
        &&& self.sources[i].id == id
        &&& 0 <= j < self.sources[i].slots.len()
        &&& self.sources[i].slots[j].path == path
    }

    /// `self` with `value` recorded in slot `j` of source `i`.
    pub open spec fn fill(self, i: int, j: int, value: ValueRecord) -> BuilderRecord {
        let source = self.sources[i];
        let slot = SlotRecord { path: source.slots[j].path, value: Some(value) };
        BuilderRecord {
            is_single_source: self.is_single_source,
            sources: self.sources.update(
                i,
                SlotsRecord { id: source.id, slots: source.slots.update(j, slot) },
            ),
        }
    }
}

pub proof fn lemma_slots_size_push(slots: Seq<SlotRecord>, slot: SlotRecord)
    ensures
        slots_size(slots.push(slot)) == slots_size(slots) + 44 + encode_utf8(slot.path).len(),
{
    assert(slots.push(slot).drop_last() =~= slots);
}

pub proof fn lemma_skeleton_sources_size_push(sources: Seq<SlotsRecord>, source: SlotsRecord)
    ensures
        skeleton_sources_size(sources.push(source)) == skeleton_sources_size(sources) + 8
            + encode_utf8(source.id).len() + slots_size(source.slots),
{
    assert(sources.push(source).drop_last() =~= sources);
}

/// The size of a part is at most the size of the whole.
pub proof fn lemma_slots_size_take(slots: Seq<SlotRecord>, n: int)
    requires
        0 <= n <= slots.len(),
    ensures
        slots_size(slots.take(n)) <= slots_size(slots),
    decreases slots.len(),
{
    if n < slots.len() {
        assert(slots.drop_last().take(n) =~= slots.take(n));
        lemma_slots_size_take(slots.drop_last(), n);
    } else {
        assert(slots.take(n) =~= slots);
    }
}

/// The size of a part is at most the size of the whole.
pub proof fn lemma_skeleton_sources_size_take(sources: Seq<SlotsRecord>, n: int)
    requires
        0 <= n <= sources.len(),
    ensures
        skeleton_sources_size(sources.take(n)) <= skeleton_sources_size(sources),
    decreases sources.len(),
{
    if n < sources.len() {
        assert(sources.drop_last().take(n) =~= sources.take(n));
        lemma_skeleton_sources_size_take(sources.drop_last(), n);
    } else {
        assert(sources.take(n) =~= sources);
    }
}

pub proof fn lemma_entries_bytes_len(slots: Seq<SlotRecord>)
    requires
        forall|j: int| 0 <= j < slots.len() ==> slot_filled(#[trigger] slots[j]),
        forall|j: int| 0 <= j < slots.len() ==> text_fits((#[trigger] slots[j]).path),
    ensures
        entries_bytes(slots.map_values(|s: SlotRecord| slot_entry(s))).len() == slots_size(slots),
    decreases slots.len(),
{
    let entries = slots.map_values(|s: SlotRecord| slot_entry(s));
    if slots.len() > 0 {
        let front = slots.drop_last();
        let last = slots.last();
        assert(slot_filled(slots[slots.len() - 1]));
        assert(text_fits(slots[slots.len() - 1].path));
        assert(entries =~= front.map_values(|s: SlotRecord| slot_entry(s)).push(slot_entry(last)));
        lemma_entries_bytes_push(
            front.map_values(|s: SlotRecord| slot_entry(s)),
            slot_entry(last),
        );
        assert forall|j: int| 0 <= j < front.len() implies slot_filled(#[trigger] front[j])
            && text_fits(front[j].path) by {
            assert(front[j] == slots[j]);
        }
        lemma_entries_bytes_len(front);
        lemma_u64_le_roundtrip(last.value.unwrap().size);
        lemma_u32_le_roundtrip(encode_utf8(last.path).len() as u32);
    } else {
        assert(entries =~= Seq::empty());
    }
}

pub proof fn lemma_sources_bytes_len(sources: Seq<SlotsRecord>)
    requires
        forall|i: int, j: int|
            0 <= i < sources.len() && 0 <= j < sources[i].slots.len() ==> slot_filled(
                #[trigger] sources[i].slots[j],
            ),
        forall|i: int| 0 <= i < sources.len() ==> slots_fit(#[trigger] sources[i]),
    ensures
        sources_bytes(sources.map_values(|s: SlotsRecord| slots_source(s))).len()
            == skeleton_sources_size(sources),
    decreases sources.len(),
{
    let records = sources.map_values(|s: SlotsRecord| slots_source(s));
    if sources.len() > 0 {
        let front = sources.drop_last();
        let last = sources.last();
        assert(slots_fit(sources[sources.len() - 1]));
        assert(records =~= front.map_values(|s: SlotsRecord| slots_source(s)).push(
            slots_source(last),
        ));
        lemma_sources_bytes_push(
            front.map_values(|s: SlotsRecord| slots_source(s)),
            slots_source(last),
        );
        assert forall|i: int| 0 <= i < front.len() implies slots_fit(#[trigger] front[i]) by {
            assert(front[i] == sources[i]);
        }
        assert forall|i: int, j: int|
            0 <= i < front.len() && 0 <= j < front[i].slots.len() implies slot_filled(
            #[trigger] front[i].slots[j],
        ) by {
            assert(front[i] == sources[i]);
            assert(slot_filled(sources[i].slots[j]));
        }
        lemma_sources_bytes_len(front);
        assert forall|j: int| 0 <= j < last.slots.len() implies slot_filled(
            #[trigger] last.slots[j],
        ) && text_fits(last.slots[j].path) by {
            assert(slot_filled(sources[sources.len() - 1].slots[j]));
        }
        lemma_entries_bytes_len(last.slots);
        lemma_u32_le_roundtrip(encode_utf8(last.id).len() as u32);
        lemma_u32_le_roundtrip(last.slots.len() as u32);
    } else {
        assert(records =~= Seq::empty());
    }
}

/// Header-size exactness: the bytes of a complete header are as many as its
/// skeleton foretold.
pub proof fn lemma_header_size_exact(builder: BuilderRecord)
    requires
        builder_fits(builder),
        builder_complete(builder),
    ensures
        header_bytes(header_of(builder)).len() == skeleton_size(builder),
{
    lemma_sources_bytes_len(builder.sources);
    lemma_flags_bytes(builder.is_single_source);
    lemma_u32_le_roundtrip(builder.sources.len() as u32);
}

/// The size of the entries to be depends on the paths alone.
pub proof fn lemma_slots_size_paths(a: Seq<SlotRecord>, b: Seq<SlotRecord>)
    requires
        a.len() == b.len(),
        forall|j: int| 0 <= j < a.len() ==> (#[trigger] a[j]).path == b[j].path,
    ensures
        slots_size(a) == slots_size(b),
    decreases a.len(),
{
    if a.len() > 0 {
        assert(a[a.len() - 1].path == b[a.len() - 1].path);
        assert forall|j: int| 0 <= j < a.drop_last().len() implies (#[trigger] a.drop_last()[j]).path
            == b.drop_last()[j].path by {
            assert(a[j].path == b[j].path);
        }
        lemma_slots_size_paths(a.drop_last(), b.drop_last());
    }
}

/// Recording a value in a slot leaves the size of the header to be as it
/// was.
pub proof fn lemma_fill_keeps_size(builder: BuilderRecord, i: int, j: int, value: ValueRecord)
    requires
        0 <= i < builder.sources.len(),
        0 <= j < builder.sources[i].slots.len(),
    ensures
        skeleton_size(builder.fill(i, j, value)) == skeleton_size(builder),
{
    lemma_fill_keeps_sources_size(builder.sources, builder.fill(i, j, value).sources);
}

pub proof fn lemma_fill_keeps_sources_size(a: Seq<SlotsRecord>, b: Seq<SlotsRecord>)
    requires
        a.len() == b.len(),
        forall|i: int| 0 <= i < a.len() ==> (#[trigger] a[i]).id == b[i].id,
        forall|i: int| 0 <= i < a.len() ==> (#[trigger] a[i]).slots.len() == b[i].slots.len(),
        forall|i: int, j: int|
            0 <= i < a.len() && 0 <= j < a[i].slots.len() ==> (#[trigger] a[i].slots[j]).path
                == b[i].slots[j].path,
    ensures
        skeleton_sources_size(a) == skeleton_sources_size(b),
    decreases a.len(),
{
    if a.len() > 0 {
        let n = a.len() - 1;
        assert(a[n].id == b[n].id);
        assert(a[n].slots.len() == b[n].slots.len());
        assert forall|j: int| 0 <= j < a[n].slots.len() implies (#[trigger] a[n].slots[j]).path
            == b[n].slots[j].path by {}
        lemma_slots_size_paths(a[n].slots, b[n].slots);
        assert forall|i: int| 0 <= i < a.drop_last().len() implies (#[trigger] a.drop_last()[i]).id
            == b.drop_last()[i].id && a.drop_last()[i].slots.len() == b.drop_last()[i].slots.len() by {
            assert(a[i].id == b[i].id);
            assert(a[i].slots.len() == b[i].slots.len());
        }
        assert forall|i: int, j: int|
            0 <= i < a.drop_last().len() && 0 <= j < a.drop_last()[i].slots.len() implies (
        #[trigger] a.drop_last()[i].slots[j]).path == b.drop_last()[i].slots[j].path by {
            assert(a[i].slots[j].path == b[i].slots[j].path);
        }
        lemma_fill_keeps_sources_size(a.drop_last(), b.drop_last());
    }
}

/// What was read so far, `done` in `used` bytes, with what the rest gives.
pub open spec fn extend_parse<T>(done: Seq<T>, used: int, rest: Option<(Seq<T>, int)>) -> Option<
    (Seq<T>, int),
> {
    match rest {
        Some((tail, len)) => Some((done + tail, used + len)),
        None => None,
    }
}

/// Reading entries one at a time: after the first, the rest follows.
pub proof fn lemma_parse_entries_step(bytes: Seq<u8>, count: nat, done: Seq<EntryRecord>, used: int)
    requires
        count > 0,
    ensures
        extend_parse(done, used, parse_entries(bytes, count)) == match parse_entry(bytes) {
            Some((entry, len)) => extend_parse(
                done.push(entry),
                used + len,
                parse_entries(bytes.skip(len), (count - 1) as nat),
            ),
            None => None,
        },
        parse_entry(bytes) matches Some((entry, len)) ==> parse_entries(bytes, count) matches Some(
            (entries, _),
        ) ==> entries_size(done + entries) >= entries_size(done) + entry.size,
{
    reveal_with_fuel(parse_entries, 2);
    match parse_entry(bytes) {
        Some((entry, len)) => {
            match parse_entries(bytes.skip(len), (count - 1) as nat) {
                Some((tail, rest)) => {
                    assert(done + (seq![entry] + tail) =~= done.push(entry) + tail);
                    lemma_entries_size_push(done, entry);
                    lemma_entries_size_concat(done.push(entry), tail);
                },
                None => {},
            }
        },
        None => {},
    }
}

/// Reading sources one at a time: after the first, the rest follows.
pub proof fn lemma_parse_sources_step(bytes: Seq<u8>, count: nat, done: Seq<SourceRecord>, used: int)
    requires
        count > 0,
    ensures
        extend_parse(done, used, parse_sources(bytes, count)) == match parse_source(bytes) {
            Some((source, len)) => extend_parse(
                done.push(source),
                used + len,
                parse_sources(bytes.skip(len), (count - 1) as nat),
            ),
            None => None,
        },
        parse_source(bytes) matches Some((source, len)) ==> parse_sources(bytes, count) matches Some(
            (sources, _),
        ) ==> sources_size(done + sources) >= sources_size(done) + entries_size(source.entries),
{
    reveal_with_fuel(parse_sources, 2);
    match parse_source(bytes) {
        Some((source, len)) => {
            match parse_sources(bytes.skip(len), (count - 1) as nat) {
                Some((tail, rest)) => {
                    assert(done + (seq![source] + tail) =~= done.push(source) + tail);
                    lemma_sources_size_push(done, source);
                    lemma_sources_size_concat(done.push(source), tail);
                },
                None => {},
            }
        },
        None => {},
    }
}

/// Nothing is left to read: what was read is the whole.
pub proof fn lemma_extend_parse_done<T>(done: Seq<T>, used: int)
    ensures
        extend_parse(done, used, Some((Seq::<T>::empty(), 0int))) == Some((done, used)),
{
    assert(done + Seq::<T>::empty() =~= done);
}

/// The payloads of a source that follow each other from `position` on still
/// do so when one more is put behind them.
pub proof fn lemma_offsets_push(done: Seq<EntryRecord>, entry: EntryRecord, k: int)
    requires
        0 <= k <= done.len(),
    ensures
        done.push(entry).take(k) == done.take(k),
{
    assert(done.push(entry).take(k) =~= done.take(k));
}

/// The sources before the `k`th stay what they are when one more source is
/// put behind them.
pub proof fn lemma_sources_push_take(done: Seq<SourceRecord>, source: SourceRecord, k: int)
    requires
        0 <= k <= done.len(),
    ensures
        done.push(source).take(k) == done.take(k),
{
    assert(done.push(source).take(k) =~= done.take(k));
}

/// No entries take no bytes.
pub proof fn lemma_parse_entries_none(bytes: Seq<u8>)
    ensures
        parse_entries(bytes, 0) == Some((Seq::<EntryRecord>::empty(), 0int)),
{
    reveal_with_fuel(parse_entries, 1);
}

/// No sources take no bytes.
pub proof fn lemma_parse_sources_none(bytes: Seq<u8>)
    ensures
        parse_sources(bytes, 0) == Some((Seq::<SourceRecord>::empty(), 0int)),
{
    reveal_with_fuel(parse_sources, 1);
}

/// A source is its id, the number of its entries, and the entries.
pub proof fn lemma_parse_source_parts(bytes: Seq<u8>, id: Seq<char>, id_len: int)
    requires
        parse_text(bytes) == Some((id, id_len)),
        bytes.len() >= id_len + 4,
    ensures
        parse_source(bytes) == match parse_entries(
            bytes.skip(id_len + 4),
            u32_of_le(bytes.subrange(id_len, id_len + 4)) as nat,
        ) {
            Some((entries, len)) => Some((SourceRecord { id, entries }, id_len + 4 + len)),
            None => None,
        },
{
    reveal(parse_source);
}

/// Without an id, or without a number of entries after it, there is no
/// source.
pub proof fn lemma_parse_source_fails(bytes: Seq<u8>)
    requires
        parse_text(bytes) matches Some((_, id_len)) ==> bytes.len() < id_len + 4,
    ensures
        parse_source(bytes) is None,
{
    reveal(parse_source);
}

} // verus!
