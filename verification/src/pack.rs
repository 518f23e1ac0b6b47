//! The packer: one container from one group, in two passes.

pub mod hashing_reader;

use vstd::prelude::*;
use vstd::slice::slice_to_vec;
use crate::crypto::{apply_keystream, lemma_decrypt_encrypt, EncryptWriter, Key, IV, KEYSTREAM_LEN};
use crate::error::Error;
use crate::header::format::{builder_fits, entries_size, header_bytes};
use crate::header::format::{header_fits, header_of, skeleton_size, slot_filled, sources_size};
use crate::header::format::{BuilderRecord, EntryRecord, HeaderRecord, SlotRecord, SlotsRecord};
use crate::header::format::{SourceRecord, ValueRecord};
use crate::header::format::{lemma_entries_size_push, lemma_header_size_exact};
use crate::header::format::lemma_sources_size_push;
use crate::header::{skeleton_of, Flags, HeaderBuilder};
use crate::index::{listing_views, Contents, Index, SourceFiles, SourceListing, Sources};
use crate::pack::hashing_reader::{blake3_digest, HashingReader};
use crate::stream::{lemma_overwrite_twice, overwrite, ByteStream, SeekFrom};
use crate::BKY_HEADER;

verus! {

/// The size of the pieces in which a file is copied.
pub const CHUNK_LEN: usize = 0x1_0000;

/// Copies all that is left of `reader` through `writer`, piece by piece, and
/// gives the number of bytes copied. Fails, copying nothing, where they
/// reach past the keystream.
pub fn copy(reader: &mut HashingReader, writer: &mut EncryptWriter) -> (result: Result<u64, Error>)
    requires
        old(reader).inner().wf(),
        old(writer).wf(),
        old(writer).inner().position() + old(reader).inner().remaining().len() <= usize::MAX,
    ensures
        final(reader).inner().wf(),
        final(reader).inner()@ == old(reader).inner()@,
        final(writer).wf(),
        final(writer).start() == old(writer).start(),
        final(writer).key() == old(writer).key(),
        final(writer).iv() == old(writer).iv(),
        final(writer).preamble() == old(writer).preamble(),
        match result {
            Ok(copied) => {
                &&& copied == old(reader).inner().remaining().len()
                &&& old(writer).position() + copied <= KEYSTREAM_LEN
                &&& final(reader).inner().remaining().len() == 0
                &&& final(reader).hashed() == old(reader).hashed() + old(reader).inner().remaining()
                &&& final(writer).position() == old(writer).position() + copied
                &&& final(writer).plaintext() == overwrite(
                    old(writer).plaintext(),
                    old(writer).position() as int,
                    old(reader).inner().remaining(),
                )
            },
            Err(e) => {
                &&& e == Error::KeystreamExhausted
                &&& old(writer).position() + old(reader).inner().remaining().len() > KEYSTREAM_LEN
                &&& final(writer).inner() == old(writer).inner()
                &&& final(reader).inner().position() == old(reader).inner().position()
                &&& final(reader).hashed() == old(reader).hashed()
            },
        },
{
    let ghost data = reader.inner().remaining();
    let ghost before = writer.plaintext();
    let ghost at = writer.position() as int;
    let total = reader.remaining_len() as u64;
    let position = writer.stream_position();
    if position > KEYSTREAM_LEN || total > KEYSTREAM_LEN - position {
        return Err(Error::KeystreamExhausted);
    }
    let mut copied: u64 = 0;
    proof {
        assert(data.take(0) =~= Seq::<u8>::empty());
        assert(overwrite(before, at, data.take(0)) =~= before);
        assert(reader.hashed() + data.take(0) =~= reader.hashed());
        assert(data.skip(0) =~= data);
    }
    while copied < total
        invariant
            reader.inner().wf(),
            reader.inner()@ == old(reader).inner()@,
            writer.wf(),
            writer.start() == old(writer).start(),
            writer.key() == old(writer).key(),
            writer.iv() == old(writer).iv(),
            writer.preamble() == old(writer).preamble(),
            data == old(reader).inner().remaining(),
            before == old(writer).plaintext(),
            at == old(writer).position(),
            at <= before.len(),
            total == data.len(),
            0 <= copied <= total,
            at + total <= KEYSTREAM_LEN,
            old(writer).inner().position() + total <= usize::MAX,
            reader.inner().remaining() == data.skip(copied as int),
            reader.hashed() == old(reader).hashed() + data.take(copied as int),
            writer.position() == at + copied,
            old(writer).wf(),
            writer.inner().position() == old(writer).inner().position() + copied,
            writer.plaintext() == overwrite(before, at, data.take(copied as int)),
        decreases total - copied,
    {
        let chunk = reader.read(CHUNK_LEN);
        proof {
            let n = chunk@.len() as int;
            let done = data.take(copied as int);
            assert(data.skip(copied as int).take(n) + Seq::<u8>::empty() =~= data.subrange(
                copied as int,
                copied + n,
            ));
            assert(done + chunk@ =~= data.take(copied + n));
            assert(data.skip(copied as int).skip(n) =~= data.skip(copied + n));
            assert(old(reader).hashed() + done + chunk@ =~= old(reader).hashed() + (done + chunk@));
            lemma_overwrite_twice(before, at, done, chunk@);
        }
        match writer.write(chunk.as_slice()) {
            Ok(_) => {},
            Err(_) => vstd::pervasive::unreached(),
        }
        copied = copied + chunk.len() as u64;
    }
    assert(data.take(copied as int) =~= data);
    Ok(copied)
}

/// The contents of the files as plain values: for each source, for each of
/// its files, the bytes.
pub open spec fn contents_view(contents: Seq<Vec<Vec<u8>>>) -> Seq<Seq<Seq<u8>>> {
    Seq::new(
        contents.len(),
        |i: int| Seq::new(contents[i]@.len(), |j: int| contents[i]@[j]@),
    )
}

/// The contents of the files of one source, one behind the other.
pub open spec fn files_payload(files: Seq<Seq<u8>>) -> Seq<u8>
    decreases files.len(),
{
    if files.len() == 0 {
        Seq::empty()
    } else {
        files_payload(files.drop_last()) + files.last()
    }
}

/// The contents of all files, source by source, one behind the other.
pub open spec fn payload_bytes(contents: Seq<Seq<Seq<u8>>>) -> Seq<u8>
    decreases contents.len(),
{
    if contents.len() == 0 {
        Seq::empty()
    } else {
        payload_bytes(contents.drop_last()) + files_payload(contents.last())
    }
}

/// There are contents for every file of every source, and for nothing else.
pub open spec fn shape_matches(sources: Seq<SourceFiles>, contents: Seq<Seq<Seq<u8>>>) -> bool {
    &&& contents.len() == sources.len()
    &&& forall|i: int| 0 <= i < sources.len() ==> (#[trigger] contents[i]).len() == sources[i].files.len()
}

/// What the header records of a file with the contents `data`.
pub open spec fn packed_value(data: Seq<u8>) -> ValueRecord {
    ValueRecord { size: data.len() as u64, hash: blake3_digest(data) }
}

/// The header of the container that holds `contents`: for every file its
/// path, the digest of its contents and their length.
pub open spec fn packed_header(
    sources: Seq<SourceFiles>,
    contents: Seq<Seq<Seq<u8>>>,
    is_single_source: bool,
) -> HeaderRecord {
    HeaderRecord {
        is_single_source,
        sources: Seq::new(
            sources.len(),
            |i: int|
                SourceRecord {
                    id: sources[i].source.id,
                    entries: Seq::new(
                        sources[i].files.len(),
                        |j: int|
                            EntryRecord {
                                path: sources[i].files[j].path,
                                hash: blake3_digest(contents[i][j]),
                                size: contents[i][j].len() as u64,
                            },
                    ),
                },
        ),
    }
}

/// A container: the marker, the nonce in the clear, then header and payload
/// under the keystream from its start.
pub open spec fn container_bytes(
    key: Seq<u8>,
    iv: Seq<u8>,
    header: HeaderRecord,
    payload: Seq<u8>,
) -> Seq<u8> {
    BKY_HEADER@ + iv + apply_keystream(key, iv, 0, header_bytes(header) + payload)
}

/// Why `contents` cannot be packed, if they cannot: contents and index do
/// not match; the header does not fit its format; header and payload reach
/// past the keystream; or the container is more than memory can address.
pub open spec fn pack_error(
    sources: Seq<SourceFiles>,
    contents: Seq<Seq<Seq<u8>>>,
    is_single_source: bool,
) -> Option<Error> {
    let skeleton = skeleton_of(sources, is_single_source);
    if !shape_matches(sources, contents) {
        Some(Error::ContentsMismatch)
    } else if !builder_fits(skeleton) {
        Some(Error::TooLarge)
    } else if skeleton_size(skeleton) + payload_bytes(contents).len() > KEYSTREAM_LEN {
        Some(Error::KeystreamExhausted)
    } else if BKY_HEADER@.len() + 24 + skeleton_size(skeleton) + payload_bytes(contents).len()
        > usize::MAX {
        Some(Error::TooLarge)
    } else {
        None
    }
}

/// The header under construction when the files before file `j` of source
/// `i` have been written.
pub open spec fn filled(
    sources: Seq<SourceFiles>,
    contents: Seq<Seq<Seq<u8>>>,
    is_single_source: bool,
    i: int,
    j: int,
) -> BuilderRecord {
    BuilderRecord {
        is_single_source,
        sources: Seq::new(
            sources.len(),
            |a: int|
                SlotsRecord {
                    id: sources[a].source.id,
                    slots: Seq::new(
                        sources[a].files.len(),
                        |b: int|
                            SlotRecord {
                                path: sources[a].files[b].path,
                                value: if a < i || (a == i && b < j) {
                                    Some(packed_value(contents[a][b]))
                                } else {
                                    None
                                },
                            },
                    ),
                },
        ),
    }
}

pub proof fn lemma_files_payload_push(files: Seq<Seq<u8>>, data: Seq<u8>)
    ensures
        files_payload(files.push(data)) == files_payload(files) + data,
{
    assert(files.push(data).drop_last() =~= files);
}

pub proof fn lemma_payload_bytes_push(contents: Seq<Seq<Seq<u8>>>, files: Seq<Seq<u8>>)
    ensures
        payload_bytes(contents.push(files)) == payload_bytes(contents) + files_payload(files),
{
    assert(contents.push(files).drop_last() =~= contents);
}

/// The first files of a source take no more than all of them.
pub proof fn lemma_files_payload_take(files: Seq<Seq<u8>>, n: int)
    requires
        0 <= n <= files.len(),
    ensures
        files_payload(files.take(n)).len() <= files_payload(files).len(),
    decreases files.len(),
{
    if n < files.len() {
        assert(files.drop_last().take(n) =~= files.take(n));
        lemma_files_payload_take(files.drop_last(), n);
    } else {
        assert(files.take(n) =~= files);
    }
}

/// The first sources take no more than all of them.
pub proof fn lemma_payload_bytes_take(contents: Seq<Seq<Seq<u8>>>, n: int)
    requires
        0 <= n <= contents.len(),
    ensures
        payload_bytes(contents.take(n)).len() <= payload_bytes(contents).len(),
    decreases contents.len(),
{
    if n < contents.len() {
        assert(contents.drop_last().take(n) =~= contents.take(n));
        lemma_payload_bytes_take(contents.drop_last(), n);
    } else {
        assert(contents.take(n) =~= contents);
    }
}

/// What is left of the payload when file `j` of source `i` is about to be
/// written is at least that file, and at the end of a source at least
/// nothing.
pub proof fn lemma_payload_room(contents: Seq<Seq<Seq<u8>>>, i: int, j: int)
    requires
        0 <= i < contents.len(),
        0 <= j <= contents[i].len(),
    ensures
        payload_bytes(contents.take(i)).len() + files_payload(contents[i].take(j)).len()
            <= payload_bytes(contents).len(),
        j < contents[i].len() ==> payload_bytes(contents.take(i)).len() + files_payload(
            contents[i].take(j),
        ).len() + contents[i][j].len() <= payload_bytes(contents).len(),
        payload_bytes(contents.take(i + 1)) == payload_bytes(contents.take(i)) + files_payload(
            contents[i],
        ),
        j < contents[i].len() ==> files_payload(contents[i].take(j + 1)) == files_payload(
            contents[i].take(j),
        ) + contents[i][j],
{
    lemma_payload_bytes_take(contents, i + 1);
    assert(contents.take(i + 1) =~= contents.take(i).push(contents[i]));
    lemma_payload_bytes_push(contents.take(i), contents[i]);
    lemma_files_payload_take(contents[i], j);
    if j < contents[i].len() {
        lemma_files_payload_take(contents[i], j + 1);
        assert(contents[i].take(j + 1) =~= contents[i].take(j).push(contents[i][j]));
        lemma_files_payload_push(contents[i].take(j), contents[i][j]);
    }
}

/// Whether there are contents for every file of every source, and for
/// nothing else.
pub fn check_shape(sources: &Sources, contents: &Vec<Vec<Vec<u8>>>) -> (matches: bool)
    requires
        sources.wf(),
    ensures
        matches == shape_matches(sources@, contents_view(contents@)),
{
    if contents.len() != sources.len() {
        return false;
    }
    let mut i: usize = 0;
    while i < sources.len()
        invariant
            sources.wf(),
            contents@.len() == sources.items().len(),
            0 <= i <= sources.items().len(),
            forall|k: int|
                0 <= k < i ==> (#[trigger] contents_view(contents@)[k]).len()
                    == sources@[k].files.len(),
        decreases sources.items().len() - i,
    {
        assert(sources@[i as int] == sources.items()[i as int]@);
        if contents[i].len() != sources.get(i).entries.len() {
            assert(contents_view(contents@)[i as int].len() != sources@[i as int].files.len());
            return false;
        }
        i = i + 1;
    }
    true
}

/// The length of the payload, where header and payload end within `limit`.
pub fn payload_len(contents: &Vec<Vec<Vec<u8>>>, header_size: u64, limit: u64) -> (len: Option<u64>)
    ensures
        match len {
            Some(len) => len == payload_bytes(contents_view(contents@)).len() && header_size + len
                <= limit,
            None => header_size + payload_bytes(contents_view(contents@)).len() > limit,
        },
{
    let ghost all = contents_view(contents@);
    if header_size > limit {
        return None;
    }
    let mut len: u64 = 0;
    let mut i: usize = 0;
    assert(all.take(0) =~= Seq::<Seq<Seq<u8>>>::empty());
    while i < contents.len()
        invariant
            all == contents_view(contents@),
            0 <= i <= contents@.len(),
            len == payload_bytes(all.take(i as int)).len(),
            header_size + len <= limit,
        decreases contents@.len() - i,
    {
        let files = &contents[i];
        let mut j: usize = 0;
        let ghost start = len;
        assert(all[i as int].take(0) =~= Seq::<Seq<u8>>::empty());
        while j < files.len()
            invariant
                all == contents_view(contents@),
                0 <= i < contents@.len(),
                *files == contents@[i as int],
                0 <= j <= files@.len(),
                start == payload_bytes(all.take(i as int)).len(),
                len == start + files_payload(all[i as int].take(j as int)).len(),
                header_size + len <= limit,
            decreases files@.len() - j,
        {
            proof {
                lemma_payload_room(all, i as int, j as int);
                assert(all[i as int][j as int] == files@[j as int]@);
            }
            let size = files[j].len() as u64;
            if size > limit - header_size - len {
                return None;
            }
            len = len + size;
            j = j + 1;
        }
        proof {
            assert(all[i as int].take(j as int) =~= all[i as int]);
            lemma_payload_room(all, i as int, 0);
        }
        i = i + 1;
    }
    assert(all.take(i as int) =~= all);
    Some(len)
}

/// The files whose size when they were written is not the size that the
/// index holds: `(i, j)` stands for file `j` of source `i`.
pub open spec fn mismatches_upto(
    found: Seq<(usize, usize)>,
    sources: Seq<SourceFiles>,
    contents: Seq<Seq<Seq<u8>>>,
    i: int,
    j: int,
) -> bool {
    forall|a: usize, b: usize|
        a < sources.len() && b < sources[a as int].files.len() ==> (#[trigger] found.contains(
            (a, b),
        ) <==> (a < i || (a == i && b < j)) && sources[a as int].files[b as int].size
            != contents[a as int][b as int].len())
}

/// A container and what was noticed while it was written.
#[derive(Debug)]
pub struct Packed {
    /// The bytes of the container.
    pub container: Vec<u8>,
    /// The files whose size had changed since they were indexed, each as the
    /// number of its source and its number among the source's files. The
    /// header holds the size that was written.
    pub mismatches: Vec<(usize, usize)>,
}

/// Nothing is recorded in the empty header.
pub proof fn lemma_filled_none(
    sources: Seq<SourceFiles>,
    contents: Seq<Seq<Seq<u8>>>,
    is_single_source: bool,
)
    ensures
        filled(sources, contents, is_single_source, 0, 0) == skeleton_of(sources, is_single_source),
{
    assert(filled(sources, contents, is_single_source, 0, 0) =~~= skeleton_of(
        sources,
        is_single_source,
    ));
}

/// Recording a file moves the header under construction on by that file;
/// behind the last file of a source comes the first of the next.
pub proof fn lemma_filled_next(
    sources: Seq<SourceFiles>,
    contents: Seq<Seq<Seq<u8>>>,
    is_single_source: bool,
    i: int,
    j: int,
)
    requires
        0 <= i < sources.len(),
        0 <= j <= sources[i].files.len(),
    ensures
        j < sources[i].files.len() ==> filled(sources, contents, is_single_source, i, j).fill(
            i,
            j,
            packed_value(contents[i][j]),
        ) == filled(sources, contents, is_single_source, i, j + 1),
        j == sources[i].files.len() ==> filled(sources, contents, is_single_source, i, j) == filled(
            sources,
            contents,
            is_single_source,
            i + 1,
            0,
        ),
{
    if j < sources[i].files.len() {
        assert(filled(sources, contents, is_single_source, i, j).fill(
            i,
            j,
            packed_value(contents[i][j]),
        ) =~~= filled(sources, contents, is_single_source, i, j + 1));
    } else {
        assert(filled(sources, contents, is_single_source, i, j) =~~= filled(
            sources,
            contents,
            is_single_source,
            i + 1,
            0,
        ));
    }
}

/// When all files are recorded, the header is that of the container.
pub proof fn lemma_filled_all(
    sources: Seq<SourceFiles>,
    contents: Seq<Seq<Seq<u8>>>,
    is_single_source: bool,
)
    ensures
        header_of(filled(sources, contents, is_single_source, sources.len() as int, 0))
            == packed_header(sources, contents, is_single_source),
{
    assert(header_of(filled(sources, contents, is_single_source, sources.len() as int, 0))
        =~~= packed_header(sources, contents, is_single_source));
}

/// Writes the contents of all files through `writer`, in the order of the
/// header, and records the size and the hash of each in `header`.
fn write_payloads(
    sources: &Sources,
    contents: &Vec<Vec<Vec<u8>>>,
    header: &mut HeaderBuilder,
    writer: &mut EncryptWriter,
) -> (mismatches: Vec<(usize, usize)>)
    requires
        sources.wf(),
        shape_matches(sources@, contents_view(contents@)),
        old(header).wf(),
        old(header)@ == skeleton_of(sources@, old(header)@.is_single_source),
        old(writer).wf(),
        old(writer).position() == old(writer).plaintext().len(),
        old(writer).position() + payload_bytes(contents_view(contents@)).len() <= KEYSTREAM_LEN,
        old(writer).inner().position() + payload_bytes(contents_view(contents@)).len()
            <= usize::MAX,
    ensures
        final(header).wf(),
        final(header)@ == filled(
            sources@,
            contents_view(contents@),
            old(header)@.is_single_source,
            sources@.len() as int,
            0,
        ),
        final(header).is_complete(),
        final(writer).wf(),
        final(writer).start() == old(writer).start(),
        final(writer).key() == old(writer).key(),
        final(writer).iv() == old(writer).iv(),
        final(writer).preamble() == old(writer).preamble(),
        final(writer).plaintext() == old(writer).plaintext() + payload_bytes(
            contents_view(contents@),
        ),
        final(writer).position() == final(writer).plaintext().len(),
        mismatches_upto(
            mismatches@,
            sources@,
            contents_view(contents@),
            sources@.len() as int,
            0,
        ),
{
    let ghost files = sources@;
    let ghost all = contents_view(contents@);
    let ghost flag = header@.is_single_source;
    let ghost base = writer.plaintext();
    let mut mismatches: Vec<(usize, usize)> = Vec::new();
    let mut i: usize = 0;
    proof {
        lemma_filled_none(files, all, flag);
        assert(all.take(0) =~= Seq::<Seq<Seq<u8>>>::empty());
        assert(base + payload_bytes(all.take(0)) =~= base);
    }
    while i < sources.len()
        invariant
            sources.wf(),
            files == sources@,
            files.len() == sources.items().len(),
            all == contents_view(contents@),
            shape_matches(files, all),
            0 <= i <= files.len(),
            header.wf(),
            header@ == filled(files, all, flag, i as int, 0),
            forall|a: int, b: int|
                0 <= a < i && 0 <= b < files[a].files.len() ==> (#[trigger] blake3_digest(
                    all[a][b],
                )).len() == 32,
            writer.wf(),
            old(writer).wf(),
            writer.start() == old(writer).start(),
            writer.key() == old(writer).key(),
            writer.iv() == old(writer).iv(),
            writer.preamble() == old(writer).preamble(),
            base == old(writer).plaintext(),
            old(writer).position() == base.len(),
            writer.plaintext() == base + payload_bytes(all.take(i as int)),
            writer.position() == writer.plaintext().len(),
            base.len() + payload_bytes(all).len() <= KEYSTREAM_LEN,
            old(writer).inner().position() + payload_bytes(all).len() <= usize::MAX,
            mismatches_upto(mismatches@, files, all, i as int, 0),
        decreases files.len() - i,
    {
        let item = sources.get(i);
        let data = &contents[i];
        let ghost done = base + payload_bytes(all.take(i as int));
        assert(files[i as int] == sources.items()[i as int]@);
        assert(all[i as int].len() == files[i as int].files.len());
        let mut j: usize = 0;
        proof {
            assert(all[i as int].take(0) =~= Seq::<Seq<u8>>::empty());
            assert(done + files_payload(all[i as int].take(0)) =~= done);
        }
        while j < item.entries.len()
            invariant
                sources.wf(),
                files == sources@,
                all == contents_view(contents@),
                shape_matches(files, all),
                0 <= i < files.len(),
                *item == sources.items()[i as int],
                files[i as int] == item@,
                *data == contents@[i as int],
                0 <= j <= files[i as int].files.len(),
                header.wf(),
                header@ == filled(files, all, flag, i as int, j as int),
                forall|a: int, b: int|
                    (0 <= a < i && 0 <= b < files[a].files.len()) || (a == i && 0 <= b < j) ==> (
                    #[trigger] blake3_digest(all[a][b])).len() == 32,
                writer.wf(),
                old(writer).wf(),
                writer.start() == old(writer).start(),
                writer.key() == old(writer).key(),
                writer.iv() == old(writer).iv(),
                writer.preamble() == old(writer).preamble(),
                base == old(writer).plaintext(),
                old(writer).position() == base.len(),
                done == base + payload_bytes(all.take(i as int)),
                writer.plaintext() == done + files_payload(all[i as int].take(j as int)),
                writer.position() == writer.plaintext().len(),
                base.len() + payload_bytes(all).len() <= KEYSTREAM_LEN,
                old(writer).inner().position() + payload_bytes(all).len() <= usize::MAX,
                mismatches_upto(mismatches@, files, all, i as int, j as int),
            decreases files[i as int].files.len() - j,
        {
            let entry = item.entries.get(j);
            let ghost bytes = all[i as int][j as int];
            let ghost written = writer.plaintext();
            let ghost noted = mismatches@;
            proof {
                lemma_payload_room(all, i as int, j as int);
                assert(bytes == data@[j as int]@);
            }
            let stream = ByteStream::new(slice_to_vec(data[j].as_slice()));
            let mut reader = HashingReader::new(stream);
            assert(reader.inner().remaining() =~= bytes);
            let size = match copy(&mut reader, writer) {
                Ok(size) => size,
                Err(_) => vstd::pervasive::unreached(),
            };
            let hash = reader.finalize();
            proof {
                assert(Seq::<u8>::empty() + bytes =~= bytes);
                assert(overwrite(written, written.len() as int, bytes) =~= written + bytes);
                assert(done + files_payload(all[i as int].take(j as int)) + bytes =~= done + (
                files_payload(all[i as int].take(j as int)) + bytes));
                assert(header@.has_slot(i as int, j as int, item.source.id@, entry.path@));
                lemma_filled_next(files, all, flag, i as int, j as int);
            }
            header.set_entry(&item.source, &entry.path, size, hash);
            if size != entry.size {
                mismatches.push((i, j));
            }
            proof {
                assert forall|a: usize, b: usize|
                    a < files.len() && b < files[a as int].files.len() implies (
                #[trigger] mismatches@.contains((a, b)) <==> (a < i || (a == i && b < j + 1))
                    && files[a as int].files[b as int].size != all[a as int][b as int].len()) by {
                    let pair = (a, b);
                    assert(noted.contains(pair) <==> (a < i || (a == i && b < j))
                        && files[a as int].files[b as int].size != all[a as int][b as int].len());
                    if size != entry.size {
                        assert(mismatches@ == noted.push((i, j)));
                        if a == i && b == j {
                            assert(mismatches@[noted.len() as int] == pair);
                        } else if mismatches@.contains(pair) {
                            let k = choose|k: int| 0 <= k < mismatches@.len() && mismatches@[k] == pair;
                            assert(noted[k] == pair);
                        } else if noted.contains(pair) {
                            let k = choose|k: int| 0 <= k < noted.len() && noted[k] == pair;
                            assert(mismatches@[k] == pair);
                        }
                    }
                }
            }
            j = j + 1;
        }
        proof {
            assert(all[i as int].take(j as int) =~= all[i as int]);
            lemma_payload_room(all, i as int, 0);
            assert(base + payload_bytes(all.take(i as int)) + files_payload(all[i as int]) =~= base
                + payload_bytes(all.take(i as int + 1)));
            lemma_filled_next(files, all, flag, i as int, j as int);
        }
        i = i + 1;
    }
    proof {
        assert(all.take(i as int) =~= all);
        let complete = header@;
        assert forall|a: int, b: int|
            0 <= a < complete.sources.len() && 0 <= b < complete.sources[a].slots.len() implies slot_filled(
            #[trigger] complete.sources[a].slots[b],
        ) by {
            assert(blake3_digest(all[a][b]).len() == 32);
        }
    }
    mismatches
}

/// The header that packing gives fits the format where the empty header
/// for the same sources did, every digest has 32 bytes, and the lengths of
/// the contents add up to what an offset can hold; and the sizes that it
/// records add up to the length of the payload.
pub proof fn lemma_packed_header_fits(
    sources: Seq<SourceFiles>,
    contents: Seq<Seq<Seq<u8>>>,
    is_single_source: bool,
)
    requires
        shape_matches(sources, contents),
        builder_fits(skeleton_of(sources, is_single_source)),
        payload_bytes(contents).len() <= u64::MAX,
        forall|a: int, b: int|
            0 <= a < sources.len() && 0 <= b < sources[a].files.len() ==> (#[trigger] blake3_digest(
                contents[a][b],
            )).len() == 32,
    ensures
        header_fits(packed_header(sources, contents, is_single_source)),
        sources_size(packed_header(sources, contents, is_single_source).sources) == payload_bytes(
            contents,
        ).len(),
{
    let header = packed_header(sources, contents, is_single_source);
    let skeleton = skeleton_of(sources, is_single_source);
    assert forall|i: int| 0 <= i < header.sources.len() implies crate::header::format::source_fits(
        #[trigger] header.sources[i],
    ) by {
        assert(crate::header::format::slots_fit(skeleton.sources[i]));
        assert forall|j: int| 0 <= j < header.sources[i].entries.len() implies crate::header::format::entry_fits(
            #[trigger] header.sources[i].entries[j],
        ) by {
            assert(crate::header::format::text_fits(skeleton.sources[i].slots[j].path));
            assert(blake3_digest(contents[i][j]).len() == 32);
        }
    }
    lemma_packed_sizes(sources, contents, is_single_source, sources.len() as int);
    assert(header.sources.take(sources.len() as int) =~= header.sources);
    assert(contents.take(sources.len() as int) =~= contents);
}

/// The sizes that the header records add up to the lengths of the payloads.
pub proof fn lemma_packed_sizes(
    sources: Seq<SourceFiles>,
    contents: Seq<Seq<Seq<u8>>>,
    is_single_source: bool,
    n: int,
)
    requires
        shape_matches(sources, contents),
        payload_bytes(contents).len() <= u64::MAX,
        0 <= n <= sources.len(),
    ensures
        sources_size(packed_header(sources, contents, is_single_source).sources.take(n))
            == payload_bytes(contents.take(n)).len(),
    decreases n,
{
    let header = packed_header(sources, contents, is_single_source);
    if n == 0 {
        assert(header.sources.take(0) =~= Seq::<SourceRecord>::empty());
        assert(contents.take(0) =~= Seq::<Seq<Seq<u8>>>::empty());
    } else {
        lemma_packed_sizes(sources, contents, is_single_source, n - 1);
        assert(header.sources.take(n) =~= header.sources.take(n - 1).push(header.sources[n - 1]));
        lemma_sources_size_push(header.sources.take(n - 1), header.sources[n - 1]);
        lemma_payload_room(contents, n - 1, 0);
        lemma_packed_file_sizes(sources, contents, is_single_source, n - 1, contents[n - 1].len() as int);
        assert(header.sources[n - 1].entries.take(contents[n - 1].len() as int)
            =~= header.sources[n - 1].entries);
        assert(contents[n - 1].take(contents[n - 1].len() as int) =~= contents[n - 1]);
    }
}

/// The sizes that the header records of the first files of a source add up
/// to the lengths of their payloads.
pub proof fn lemma_packed_file_sizes(
    sources: Seq<SourceFiles>,
    contents: Seq<Seq<Seq<u8>>>,
    is_single_source: bool,
    i: int,
    n: int,
)
    requires
        shape_matches(sources, contents),
        payload_bytes(contents).len() <= u64::MAX,
        0 <= i < sources.len(),
        0 <= n <= sources[i].files.len(),
    ensures
        entries_size(packed_header(sources, contents, is_single_source).sources[i].entries.take(n))
            == files_payload(contents[i].take(n)).len(),
    decreases n,
{
    let entries = packed_header(sources, contents, is_single_source).sources[i].entries;
    if n == 0 {
        assert(entries.take(0) =~= Seq::<EntryRecord>::empty());
        assert(contents[i].take(0) =~= Seq::<Seq<u8>>::empty());
    } else {
        lemma_packed_file_sizes(sources, contents, is_single_source, i, n - 1);
        assert(entries.take(n) =~= entries.take(n - 1).push(entries[n - 1]));
        lemma_entries_size_push(entries.take(n - 1), entries[n - 1]);
        lemma_payload_room(contents, i, n - 1);
    }
}

/// Packs one group into a container: marker, nonce, and under the cipher
/// the header and the contents of the files, in the order of the header.
/// The header's place is written over with zeros first and filled in when
/// all files have been written and hashed.
pub fn pack_group(
    sources: &Sources,
    contents: &Vec<Vec<Vec<u8>>>,
    key: &Key,
    iv: &IV,
    is_single_source: bool,
) -> (result: Result<Packed, Error>)
    requires
        sources.wf(),
    ensures
        match result {
            Ok(packed) => {
                &&& pack_error(sources@, contents_view(contents@), is_single_source) is None
                &&& packed.container@ == container_bytes(
                    key@,
                    iv@,
                    packed_header(sources@, contents_view(contents@), is_single_source),
                    payload_bytes(contents_view(contents@)),
                )
                &&& header_fits(packed_header(sources@, contents_view(contents@), is_single_source))
                &&& mismatches_upto(
                    packed.mismatches@,
                    sources@,
                    contents_view(contents@),
                    sources@.len() as int,
                    0,
                )
            },
            Err(e) => pack_error(sources@, contents_view(contents@), is_single_source) == Some(e),
        },
{
    let ghost files = sources@;
    let ghost all = contents_view(contents@);
    if !check_shape(sources, contents) {
        return Err(Error::ContentsMismatch);
    }
    let mut header = match HeaderBuilder::new(sources, Flags { is_single_source }) {
        Ok(header) => header,
        Err(e) => {
            return Err(e);
        },
    };
    proof {
        header.lemma_wf();
    }
    let header_size = header.header_size();
    let payload_size = match payload_len(contents, header_size, KEYSTREAM_LEN) {
        Some(size) => size,
        None => {
            return Err(Error::KeystreamExhausted);
        },
    };
    let preamble_len = BKY_HEADER.len() + iv.len();
    if header_size + payload_size > (usize::MAX - preamble_len) as u64 {
        return Err(Error::TooLarge);
    }
    let mut file = ByteStream::new(Vec::new());
    file.write_all(BKY_HEADER.as_slice());
    file.write_all(iv.as_slice());
    let ghost preamble = file@;
    assert(preamble =~= BKY_HEADER@ + iv@);
    let mut encrypter = EncryptWriter::new(file, *key, *iv);
    assert(encrypter.plaintext() =~= Seq::<u8>::empty());
    assert(encrypter.preamble() =~= preamble);

    let skip_buffer = vec![0u8; header_size as usize];
    match encrypter.write(skip_buffer.as_slice()) {
        Ok(_) => {},
        Err(_) => vstd::pervasive::unreached(),
    }
    let ghost filler = encrypter.plaintext();
    assert(filler =~= skip_buffer@);

    let mismatches = write_payloads(sources, contents, &mut header, &mut encrypter);
    let ghost record = packed_header(files, all, is_single_source);
    let ghost payload = payload_bytes(all);
    proof {
        lemma_filled_all(files, all, is_single_source);
        header.lemma_wf();
        lemma_header_size_exact(header@);
        crate::header::format::lemma_fill_keeps_sources_size(
            skeleton_of(files, is_single_source).sources,
            header@.sources,
        );
        assert forall|a: int, b: int|
            0 <= a < files.len() && 0 <= b < files[a].files.len() implies (#[trigger] blake3_digest(
            all[a][b],
        )).len() == 32 by {
            assert(slot_filled(header@.sources[a].slots[b]));
        }
        lemma_packed_header_fits(files, all, is_single_source);
    }

    let mut file = encrypter.into_inner();
    match file.seek(SeekFrom::Start(preamble_len as u64)) {
        Ok(_) => {},
        Err(_) => vstd::pervasive::unreached(),
    }
    let mut encrypter = EncryptWriter::new(file, *key, *iv);
    proof {
        assert(encrypter.plaintext() =~= filler + payload);
        assert(encrypter.preamble() =~= preamble);
    }
    match header.write_header(&mut encrypter) {
        Ok(()) => {},
        Err(_) => vstd::pervasive::unreached(),
    }
    proof {
        let plaintext = header_bytes(record) + payload;
        assert(encrypter.plaintext() =~= plaintext);
        let cipher = encrypter.inner()@.skip(preamble_len as int);
        lemma_decrypt_encrypt(key@, iv@, 0, cipher);
        assert(encrypter.inner()@ =~= encrypter.preamble() + cipher);
    }
    let container = encrypter.into_inner().into_inner();
    Ok(Packed { container, mismatches })
}

/// The character for a digit.
pub open spec fn digit(d: nat) -> char {
    if d == 0 {
        '0'
    } else if d == 1 {
        '1'
    } else if d == 2 {
        '2'
    } else if d == 3 {
        '3'
    } else if d == 4 {
        '4'
    } else if d == 5 {
        '5'
    } else if d == 6 {
        '6'
    } else if d == 7 {
        '7'
    } else if d == 8 {
        '8'
    } else {
        '9'
    }
}

/// A number in decimal digits, without leading zeros.
pub open spec fn decimal(n: nat) -> Seq<char>
    decreases n,
{
    if n < 10 {
        seq![digit(n)]
    } else {
        decimal(n / 10).push(digit(n % 10))
    }
}

/// The file name of the container of group `index`, counted from zero:
/// `1.bky`, `2.bky` and so on.
pub open spec fn container_name_of(index: nat) -> Seq<char> {
    decimal(index + 1) + ".bky"@
}

fn digit_str(d: usize) -> (text: &'static str)
    requires
        d < 10,
    ensures
        text@ == seq![digit(d as nat)],
{
    proof {
        reveal_strlit("0");
        reveal_strlit("1");
        reveal_strlit("2");
        reveal_strlit("3");
        reveal_strlit("4");
        reveal_strlit("5");
        reveal_strlit("6");
        reveal_strlit("7");
        reveal_strlit("8");
        reveal_strlit("9");
    }
    let text = if d == 0 {
        "0"
    } else if d == 1 {
        "1"
    } else if d == 2 {
        "2"
    } else if d == 3 {
        "3"
    } else if d == 4 {
        "4"
    } else if d == 5 {
        "5"
    } else if d == 6 {
        "6"
    } else if d == 7 {
        "7"
    } else if d == 8 {
        "8"
    } else {
        "9"
    };
    assert(text@ =~= seq![digit(d as nat)]);
    text
}

/// `n` in decimal digits.
pub fn decimal_string(n: usize) -> (text: String)
    ensures
        text@ == decimal(n as nat),
    decreases n,
{
    if n < 10 {
        digit_str(n).to_owned()
    } else {
        let mut text = decimal_string(n / 10);
        text.append(digit_str(n % 10));
        assert(text@ =~= decimal(n as nat));
        text
    }
}

/// The file name of the container of group `index`, counted from zero.
pub fn container_name(index: usize) -> (name: String)
    requires
        index < usize::MAX,
    ensures
        name@ == container_name_of(index as nat),
{
    let mut name = decimal_string(index + 1);
    name.append(".bky");
    name
}

/// What is to be packed: the index, and for each of its groups the file name
/// of the container.
#[derive(Debug)]
pub struct Plan {
    /// The files, by source or by group.
    pub index: Index,
    /// Whether there is one source only, so that unpacking need not nest
    /// the files under the source's id.
    pub is_single_source: bool,
    /// The file names of the containers of the groups, in the order of the
    /// groups; empty where the index is not grouped and the one container
    /// goes to the output path itself.
    pub names: Vec<String>,
}

impl Plan {
    /// There is a name for each group, `1.bky`, `2.bky` and so on, and none
    /// where there are no groups.
    pub open spec fn named(&self) -> bool {
        match self.index.contents() {
            Contents::Grouped(groups) => {
                &&& self.names@.len() == groups@.len()
                &&& forall|g: int|
                    0 <= g < groups@.len() ==> (#[trigger] self.names@[g])@ == container_name_of(
                        g as nat,
                    )
            },
            Contents::Simple(_) => self.names@.len() == 0,
        }
    }
}

/// Plans the packing of the sources: indexes them, in groups of at most
/// `max_group_size` where one is given, and names the containers of the
/// groups. One container is then packed from each group, or from all
/// sources where there are no groups.
pub fn pack(sources: &Vec<SourceListing>, max_group_size: Option<u64>) -> (result: Result<
    Plan,
    Error,
>)
    ensures
        match result {
            Ok(plan) => {
                &&& plan.is_single_source == (sources@.len() == 1)
                &&& plan.index.indexes(listing_views(sources@), max_group_size)
                &&& plan.named()
            },
            Err(e) => if crate::index::index_size(listing_views(sources@)) > u64::MAX {
                e == Error::TooLarge
            } else {
                e == Error::DuplicateEntry && !crate::index::unique_entries(
                    crate::index::index_entries(listing_views(sources@)).to_multiset(),
                )
            },
        },
{
    let is_single_source = sources.len() == 1;
    let index = match Index::from_sources(sources, max_group_size) {
        Ok(index) => index,
        Err(e) => {
            return Err(e);
        },
    };
    let mut names: Vec<String> = Vec::new();
    match index.entries() {
        Contents::Grouped(groups) => {
            let mut g: usize = 0;
            while g < groups.len()
                invariant
                    0 <= g <= groups@.len(),
                    names@.len() == g,
                    forall|k: int| 0 <= k < g ==> (#[trigger] names@[k])@ == container_name_of(k as nat),
                decreases groups@.len() - g,
            {
                names.push(container_name(g));
                g = g + 1;
            }
        },
        Contents::Simple(_) => {},
    }
    Ok(Plan { index, is_single_source, names })
}

} // verus!
