//! One container, opened: its header, and its payload behind the cipher.

use vstd::prelude::*;
use vstd::string::StringExecFns;
use crate::bytes::{order_bytes, order_text, to_array, Order};
use crate::crypto::{apply_keystream, DecryptReader, Key, IV, KEYSTREAM_LEN};
use crate::error::Error;
use crate::header::format::{entry_offset, parse_header, sources_size};
use crate::header::format::{EntryRecord, HeaderRecord, SourceRecord};
use crate::header::{Header, SourceGroup};
use crate::stream::{count_after, ByteStream, SeekFrom};
use crate::BKY_HEADER;

verus! {

/// The number of bytes before the encrypted region: marker and nonce.
pub const PREAMBLE_LEN: usize = 43;

/// A file as it leaves the archive: where it goes, and what it holds.
#[derive(Debug)]
pub struct UnpackedFile {
    pub path: String,
    pub contents: Vec<u8>,
}

/// An unpacked file, as plain values.
#[verifier::ext_equal]
pub struct FileView {
    pub path: Seq<char>,
    pub contents: Seq<u8>,
}

impl View for UnpackedFile {
    type V = FileView;

    open spec fn view(&self) -> FileView {
        FileView { path: self.path@, contents: self.contents@ }
    }
}

/// The files as plain values.
pub open spec fn file_views(files: Seq<UnpackedFile>) -> Seq<FileView> {
    files.map_values(|f: UnpackedFile| f@)
}

/// Why `bytes` cannot be opened as a container with `key`, if they cannot:
/// they end within marker or nonce; they do not start with the marker; more
/// bytes follow the nonce than the keystream covers; or what follows does
/// not decrypt to a header.
pub open spec fn open_error(bytes: Seq<u8>, key: Seq<u8>) -> Option<Error> {
    if bytes.len() < BKY_HEADER@.len() {
        Some(Error::UnexpectedEof)
    } else if bytes.take(BKY_HEADER@.len() as int) != BKY_HEADER@ {
        Some(Error::NotAnArchive)
    } else if bytes.len() < PREAMBLE_LEN {
        Some(Error::UnexpectedEof)
    } else if bytes.len() - PREAMBLE_LEN > KEYSTREAM_LEN {
        Some(Error::KeystreamExhausted)
    } else if parse_header(container_plaintext(bytes, key)) is None {
        Some(Error::MalformedHeader)
    } else {
        None
    }
}

/// The nonce of a container.
pub open spec fn container_iv(bytes: Seq<u8>) -> Seq<u8> {
    bytes.subrange(BKY_HEADER@.len() as int, PREAMBLE_LEN as int)
}

/// The encrypted region of a container, decrypted with `key`: header, then
/// payload.
pub open spec fn container_plaintext(bytes: Seq<u8>, key: Seq<u8>) -> Seq<u8> {
    apply_keystream(key, container_iv(bytes), 0, bytes.skip(PREAMBLE_LEN as int))
}

/// The header of a container that can be opened with `key`.
pub open spec fn container_header(bytes: Seq<u8>, key: Seq<u8>) -> HeaderRecord {
    parse_header(container_plaintext(bytes, key)).unwrap().0
}

/// The payload of a container that can be opened with `key`: what follows
/// the header, decrypted.
pub open spec fn container_payload(bytes: Seq<u8>, key: Seq<u8>) -> Seq<u8> {
    container_plaintext(bytes, key).skip(parse_header(container_plaintext(bytes, key)).unwrap().1)
}

/// The payload of entry `j` of source `i`, where the payload holds it: the
/// bytes from the entry's offset on, as many as its size.
pub open spec fn entry_payload(header: HeaderRecord, payload: Seq<u8>, i: int, j: int) -> Seq<u8> {
    let from = entry_offset(header.sources, i, j) as int;
    payload.subrange(from, from + header.sources[i].entries[j].size)
}

/// Where a file goes below `out`: a source that is itself the file goes
/// there under its id; a file of the only source under its path; any other
/// under the id of its source and its path.
pub open spec fn destination(
    out: Seq<char>,
    id: Seq<char>,
    path: Seq<char>,
    is_single_source: bool,
) -> Seq<char> {
    if path.len() == 0 {
        out + seq!['/'] + id
    } else if is_single_source {
        out + seq!['/'] + path
    } else {
        out + seq!['/'] + id + seq!['/'] + path
    }
}

/// The file that entry `j` of source `i` becomes.
pub open spec fn unpacked_entry(
    header: HeaderRecord,
    payload: Seq<u8>,
    out: Seq<char>,
    i: int,
    j: int,
) -> FileView {
    FileView {
        path: destination(
            out,
            header.sources[i].id,
            header.sources[i].entries[j].path,
            header.is_single_source,
        ),
        contents: entry_payload(header, payload, i, j),
    }
}

/// The files that the first `n` entries of source `i` become.
pub open spec fn unpacked_source(
    header: HeaderRecord,
    payload: Seq<u8>,
    out: Seq<char>,
    i: int,
    n: int,
) -> Seq<FileView>
    decreases n,
{
    if n <= 0 {
        Seq::empty()
    } else {
        unpacked_source(header, payload, out, i, n - 1).push(
            unpacked_entry(header, payload, out, i, n - 1),
        )
    }
}

/// The files that the entries of the first `n` sources become, in the order
/// of the header.
pub open spec fn unpacked_upto(header: HeaderRecord, payload: Seq<u8>, out: Seq<char>, n: int) -> Seq<
    FileView,
>
    decreases n,
{
    if n <= 0 {
        Seq::empty()
    } else {
        unpacked_upto(header, payload, out, n - 1) + unpacked_source(
            header,
            payload,
            out,
            n - 1,
            header.sources[n - 1].entries.len() as int,
        )
    }
}

/// The files that a container with `header` and `payload` unpacks to.
pub open spec fn unpacked(header: HeaderRecord, payload: Seq<u8>, out: Seq<char>) -> Seq<FileView> {
    unpacked_upto(header, payload, out, header.sources.len() as int)
}

/// Entry `j` of source `i` is what is asked for: it has the path, and its
/// source the id, where one is given.
pub open spec fn entry_matches(
    header: HeaderRecord,
    source: Option<Seq<char>>,
    path: Seq<char>,
    i: int,
    j: int,
) -> bool {
    &&& 0 <= i < header.sources.len()
    &&& 0 <= j < header.sources[i].entries.len()
    &&& header.sources[i].entries[j].path == path
    &&& source matches Some(id) ==> header.sources[i].id == id
}

/// Entry `j` of source `i` is the first in the header that is asked for.
pub open spec fn first_match(
    header: HeaderRecord,
    source: Option<Seq<char>>,
    path: Seq<char>,
    i: int,
    j: int,
) -> bool {
    &&& entry_matches(header, source, path, i, j)
    &&& forall|a: int, b: int|
        (a < i || (a == i && b < j)) ==> !#[trigger] entry_matches(header, source, path, a, b)
}

/// An entry of `source` is what is asked for.
pub open spec fn path_in(source: SourceRecord, wanted: Option<Seq<char>>, path: Seq<char>) -> bool {
    &&& wanted matches Some(id) ==> source.id == id
    &&& exists|b: int| 0 <= b < source.entries.len() && (#[trigger] source.entries[b]).path == path
}

/// The relative paths of the first `n` entries of a source.
pub open spec fn entry_paths(entries: Seq<EntryRecord>, n: int) -> Seq<Seq<char>>
    decreases n,
{
    if n <= 0 {
        Seq::empty()
    } else {
        entry_paths(entries, n - 1).push(entries[n - 1].path)
    }
}

/// The relative paths of all entries of the first `n` sources.
pub open spec fn header_paths(sources: Seq<SourceRecord>, n: int) -> Seq<Seq<char>>
    decreases n,
{
    if n <= 0 {
        Seq::empty()
    } else {
        header_paths(sources, n - 1) + entry_paths(
            sources[n - 1].entries,
            sources[n - 1].entries.len() as int,
        )
    }
}

/// The id that is asked for, if one is.
pub open spec fn source_text(source: Option<&str>) -> Option<Seq<char>> {
    match source {
        Some(id) => Some(id@),
        None => None,
    }
}

/// The texts of the strings.
pub open spec fn texts(strings: Seq<String>) -> Seq<Seq<char>> {
    strings.map_values(|s: String| s@)
}

/// Where a file goes below `out`.
pub fn destination_path(out: &str, id: &str, path: &str, is_single_source: bool) -> (to: String)
    ensures
        to@ == destination(out@, id@, path@, is_single_source),
{
    proof {
        reveal_strlit("/");
    }
    let mut to = out.to_owned();
    to.append("/");
    if path.is_empty() {
        to.append(id);
    } else if is_single_source {
        to.append(path);
    } else {
        to.append(id);
        to.append("/");
        to.append(path);
    }
    assert(to@ =~= destination(out@, id@, path@, is_single_source));
    to
}

/// Finds the first entry of `group` that has `path`.
fn find_path(group: &SourceGroup, path: &str) -> (found: Option<usize>)
    ensures
        match found {
            Some(j) => {
                &&& j < group@.entries.len()
                &&& group@.entries[j as int].path == path@
                &&& forall|b: int| 0 <= b < j ==> (#[trigger] group@.entries[b]).path != path@
            },
            None => forall|b: int|
                0 <= b < group@.entries.len() ==> (#[trigger] group@.entries[b]).path != path@,
        },
{
    let mut j: usize = 0;
    while j < group.entries.len()
        invariant
            0 <= j <= group.entries@.len(),
            forall|b: int| 0 <= b < j ==> (#[trigger] group@.entries[b]).path != path@,
        decreases group.entries@.len() - j,
    {
        assert(group@.entries[j as int] == group.entries@[j as int]@);
        match order_text(group.entries[j].path.as_str(), path) {
            Order::Equal => {
                return Some(j);
            },
            _ => {},
        }
        j = j + 1;
    }
    None
}

/// One container, opened: the reader over its encrypted region and the
/// header that was read from it.
pub struct SubArchive {
    decrypter: DecryptReader,
    header: Header,
    contents_start: u64,
}

impl SubArchive {
    /// The reader over the encrypted region.
    pub closed spec fn reader(&self) -> DecryptReader {
        self.decrypter
    }

    /// The header that was read.
    pub closed spec fn header(&self) -> Header {
        self.header
    }

    /// The number of bytes that the header takes.
    pub closed spec fn contents_start(&self) -> nat {
        self.contents_start as nat
    }

    /// The number of bytes that were read from the container so far.
    pub open spec fn bytes_read(&self) -> nat {
        self.reader().bytes_read()
    }

    /// What follows the header, decrypted.
    pub open spec fn payload(&self) -> Seq<u8> {
        self.reader().plaintext().skip(self.contents_start() as int)
    }

    /// The header is what the encrypted region starts with.
    #[verifier::opaque]
    pub open spec fn wf(&self) -> bool {
        &&& self.reader().wf()
        &&& self.header().wf()
        &&& parse_header(self.reader().plaintext()) == Some(
            (self.header()@, self.contents_start() as int),
        )
        &&& self.contents_start() <= self.reader().plaintext().len()
    }

    /// The container is that of `bytes`, opened with `key`.
    pub open spec fn opened_from(&self, bytes: Seq<u8>, key: Seq<u8>) -> bool {
        &&& self.reader().key() == key
        &&& self.reader().iv() == container_iv(bytes)
        &&& self.reader().plaintext() == container_plaintext(bytes, key)
    }

    /// What was opened from `bytes` has their header and their payload.
    pub proof fn lemma_opened_from(&self, bytes: Seq<u8>, key: Seq<u8>)
        requires
            self.wf(),
            self.opened_from(bytes, key),
        ensures
            self.header()@ == container_header(bytes, key),
            self.payload() == container_payload(bytes, key),
    {
        reveal(SubArchive::wf);
    }

    /// `self` is `other` but for the reader's position.
    pub open spec fn same_container(&self, other: &Self) -> bool {
        &&& self.reader().same_stream(&other.reader())
        &&& self.header() == other.header()
        &&& self.contents_start() == other.contents_start()
    }

    /// Opens the container that `reader` holds from its position on: checks
    /// the marker, takes the nonce, and reads the header through the cipher.
    pub fn new(reader: ByteStream, key: Key) -> (result: Result<Self, Error>)
        requires
            reader.wf(),
        ensures
            match result {
                Ok(archive) => {
                    &&& open_error(reader.remaining(), key@) is None
                    &&& archive.wf()
                    &&& archive.opened_from(reader.remaining(), key@)
                },
                Err(e) => open_error(reader.remaining(), key@) == Some(e),
            },
    {
        let ghost bytes = reader.remaining();
        let mut reader = reader;
        let marker = match reader.read_exact(BKY_HEADER.len()) {
            Ok(marker) => marker,
            Err(e) => {
                return Err(e);
            },
        };
        match order_bytes(marker.as_slice(), BKY_HEADER.as_slice()) {
            Order::Equal => {},
            _ => {
                return Err(Error::NotAnArchive);
            },
        }
        let iv: IV = match reader.read_exact(24) {
            Ok(iv) => to_array::<24>(iv.as_slice()),
            Err(e) => {
                return Err(e);
            },
        };
        proof {
            assert(iv@ =~= container_iv(bytes));
            assert(reader.remaining() =~= bytes.skip(PREAMBLE_LEN as int));
        }
        let mut decrypter = match DecryptReader::new(reader, key, iv) {
            Ok(decrypter) => decrypter,
            Err(e) => {
                return Err(e);
            },
        };
        assert(decrypter.plaintext() =~= container_plaintext(bytes, key@));
        assert(decrypter.remaining() =~= decrypter.plaintext());
        let header = match Header::read_from(&mut decrypter) {
            Ok(header) => header,
            Err(e) => {
                return Err(e);
            },
        };
        let contents_start = decrypter.stream_position();
        proof {
            reveal(SubArchive::wf);
            crate::header::format::lemma_header_bytes_parse(decrypter.plaintext());
        }
        Ok(SubArchive { decrypter, header, contents_start })
    }

    /// Whether the container holds a single source.
    pub fn is_single_source(&self) -> (single: bool)
        ensures
            single == self.header()@.is_single_source,
    {
        self.header.flags().is_single_source
    }

    /// The number of bytes that were read from the container so far.
    pub fn get_bytes_read(&self) -> (count: u64)
        ensures
            count == self.bytes_read(),
    {
        self.decrypter.get_bytes_read()
    }

    /// The header.
    pub fn get_header(&self) -> (header: &Header)
        ensures
            *header == self.header(),
    {
        &self.header
    }

    /// The ids of the sources, in the order of the header.
    pub fn sources(&self) -> (ids: Vec<String>)
        ensures
            ids@.len() == self.header()@.sources.len(),
            forall|i: int| 0 <= i < ids@.len() ==> (#[trigger] ids@[i])@ == self.header()@.sources[i].id,
    {
        let ghost sources = self.header()@.sources;
        let groups = self.header.entries();
        let mut ids: Vec<String> = Vec::new();
        let mut i: usize = 0;
        proof {
            self.header.lemma_view();
        }
        while i < groups.len()
            invariant
                sources == groups@.map_values(|g: SourceGroup| g@),
                0 <= i <= groups@.len(),
                ids@.len() == i,
                forall|k: int| 0 <= k < i ==> (#[trigger] ids@[k])@ == sources[k].id,
            decreases groups@.len() - i,
        {
            assert(sources[i as int] == groups@[i as int]@);
            ids.push(groups[i].id.clone());
            i = i + 1;
        }
        ids
    }

    /// The relative path of every entry, in the order of the header.
    pub fn file_paths(&self) -> (paths: Vec<String>)
        ensures
            texts(paths@) == header_paths(
                self.header()@.sources,
                self.header()@.sources.len() as int,
            ),
    {
        let ghost sources = self.header()@.sources;
        let groups = self.header.entries();
        let mut paths: Vec<String> = Vec::new();
        let mut i: usize = 0;
        proof {
            self.header.lemma_view();
        }
        assert(texts(paths@) =~= header_paths(sources, 0));
        while i < groups.len()
            invariant
                sources == groups@.map_values(|g: SourceGroup| g@),
                0 <= i <= groups@.len(),
                texts(paths@) == header_paths(sources, i as int),
            decreases groups@.len() - i,
        {
            let group = &groups[i];
            let ghost before = texts(paths@);
            assert(sources[i as int] == group@);
            let mut j: usize = 0;
            assert(before + entry_paths(sources[i as int].entries, 0) =~= before);
            while j < group.entries.len()
                invariant
                    0 <= j <= group.entries@.len(),
                    0 <= i < sources.len(),
                    sources[i as int] == group@,
                    texts(paths@) == before + entry_paths(sources[i as int].entries, j as int),
                decreases group.entries@.len() - j,
            {
                let path = group.entries[j].path.to_string();
                proof {
                    assert(sources[i as int].entries[j as int] == group.entries@[j as int]@);
                    assert(texts(paths@.push(path)) =~= texts(paths@).push(path@));
                    assert((before + entry_paths(sources[i as int].entries, j as int)).push(path@)
                        =~= before + entry_paths(sources[i as int].entries, j as int + 1));
                }
                paths.push(path);
                j = j + 1;
            }
            i = i + 1;
        }
        paths
    }

    /// Reads the payload of entry `j` of source `i`: seeks to its offset
    /// behind the header and reads as many bytes as its size, and no others.
    /// Fails where the container ends before the entry does.
    pub fn read_entry(&mut self, i: usize, j: usize) -> (result: Result<Vec<u8>, Error>)
        requires
            old(self).wf(),
            i < old(self).header()@.sources.len(),
            j < old(self).header()@.sources[i as int].entries.len(),
        ensures
            final(self).wf(),
            final(self).same_container(old(self)),
            match result {
                Ok(contents) => {
                    &&& entry_offset(old(self).header()@.sources, i as int, j as int) + old(
                        self,
                    ).header()@.sources[i as int].entries[j as int].size <= old(self).payload().len()
                    &&& contents@ == entry_payload(
                        old(self).header()@,
                        old(self).payload(),
                        i as int,
                        j as int,
                    )
                    &&& final(self).bytes_read() == count_after(
                        old(self).bytes_read(),
                        contents@.len(),
                    )
                },
                Err(e) => {
                    &&& e == Error::UnexpectedEof || e == Error::InvalidSeek
                    &&& entry_offset(old(self).header()@.sources, i as int, j as int) + old(
                        self,
                    ).header()@.sources[i as int].entries[j as int].size > old(self).payload().len()
                    &&& final(self).bytes_read() == old(self).bytes_read()
                },
            },
    {
        proof {
            self.header.lemma_view();
        }
        let entry = &self.header.entries()[i].entries[j];
        proof {
            reveal(SubArchive::wf);
            self.header.lemma_positions(i as int, j as int);
            assert(self.header()@.sources[i as int] == self.header().groups()[i as int]@);
            assert(self.header()@.sources[i as int].entries[j as int]
                == self.header().groups()[i as int].entries@[j as int]@);
        }
        let position = entry.position;
        let size = entry.size;
        if position > u64::MAX - self.contents_start {
            return Err(Error::InvalidSeek);
        }
        match self.decrypter.seek(SeekFrom::Start(self.contents_start + position)) {
            Ok(_) => {},
            Err(e) => {
                return Err(e);
            },
        }
        if size > usize::MAX as u64 {
            return Err(Error::UnexpectedEof);
        }
        match self.decrypter.read_exact(size as usize) {
            Ok(contents) => {
                assert(contents@ =~= entry_payload(
                    old(self).header()@,
                    old(self).payload(),
                    i as int,
                    j as int,
                ));
                Ok(contents)
            },
            Err(e) => Err(e),
        }
    }

    /// Finds the first entry in the header that has `path`, in the source
    /// `source` where one is given.
    pub fn find_entry(&self, source: Option<&str>, path: &str) -> (found: Option<(usize, usize)>)
        ensures
            match found {
                Some((i, j)) => first_match(
                    self.header()@,
                    source_text(source),
                    path@,
                    i as int,
                    j as int,
                ),
                None => forall|a: int, b: int|
                    !#[trigger] entry_matches(
                        self.header()@,
                        source_text(source),
                        path@,
                        a,
                        b,
                    ),
            },
    {
        let ghost header = self.header()@;
        let ghost wanted: Option<Seq<char>> = source_text(source);
        let groups = self.header.entries();
        let mut i: usize = 0;
        proof {
            self.header.lemma_view();
        }
        while i < groups.len()
            invariant
                header == self.header()@,
                header.sources == groups@.map_values(|g: SourceGroup| g@),
                wanted == source_text(source),
                0 <= i <= groups@.len(),
                forall|a: int|
                    0 <= a < i ==> !path_in(#[trigger] header.sources[a], wanted, path@),
            decreases groups@.len() - i,
        {
            let group = &groups[i];
            assert(header.sources[i as int] == group@);
            let in_source = match source {
                Some(id) => match order_text(group.id.as_str(), id) {
                    Order::Equal => true,
                    _ => false,
                },
                None => true,
            };
            if in_source {
                match find_path(group, path) {
                    Some(j) => {
                        proof {
                            assert forall|a: int, b: int|
                                (a < i || (a == i && b < j)) implies !#[trigger] entry_matches(
                                header,
                                wanted,
                                path@,
                                a,
                                b,
                            ) by {
                                if 0 <= a < i {
                                    assert(!path_in(header.sources[a], wanted, path@));
                                }
                            }
                        }
                        return Some((i, j));
                    },
                    None => {},
                }
            }
            i = i + 1;
        }
        proof {
            assert forall|a: int, b: int| !#[trigger] entry_matches(header, wanted, path@, a, b) by {
                if 0 <= a < header.sources.len() {
                    assert(!path_in(header.sources[a], wanted, path@));
                }
            }
        }
        None
    }

    /// Reads the first entry that has `path`, in the source `source` where
    /// one is given; `None` where there is no such entry.
    pub fn get_file(&mut self, source: Option<&str>, path: &str) -> (result: Result<
        Option<Vec<u8>>,
        Error,
    >)
        requires
            old(self).wf(),
        ensures
            final(self).wf(),
            final(self).same_container(old(self)),
            match result {
                Ok(Some(contents)) => exists|i: int, j: int|
                    #[trigger] first_match(
                        old(self).header()@,
                        source_text(source),
                        path@,
                        i,
                        j,
                    ) && contents@ == entry_payload(old(self).header()@, old(self).payload(), i, j)
                        && entry_offset(old(self).header()@.sources, i, j) + old(
                        self,
                    ).header()@.sources[i].entries[j].size <= old(self).payload().len()
                        && final(self).bytes_read() == count_after(
                        old(self).bytes_read(),
                        contents@.len(),
                    ),
                Ok(None) => final(self).bytes_read() == old(self).bytes_read() && forall|
                    a: int,
                    b: int,
                |
                    !#[trigger] entry_matches(
                        old(self).header()@,
                        source_text(source),
                        path@,
                        a,
                        b,
                    ),
                Err(e) => {
                    &&& e == Error::UnexpectedEof || e == Error::InvalidSeek
                    &&& final(self).bytes_read() == old(self).bytes_read()
                    &&& exists|i: int, j: int|
                        #[trigger] first_match(
                            old(self).header()@,
                            source_text(source),
                            path@,
                            i,
                            j,
                        ) && !within(old(self).header()@, old(self).payload().len() as int, i, j)
                },
            },
    {
        match self.find_entry(source, path) {
            Some((i, j)) => match self.read_entry(i, j) {
                Ok(contents) => Ok(Some(contents)),
                Err(e) => Err(e),
            },
            None => Ok(None),
        }
    }

    /// Reads entry `j` of source `i` and says where it goes below `out`.
    pub fn unpack_entry(&mut self, out: &str, i: usize, j: usize) -> (result: Result<
        UnpackedFile,
        Error,
    >)
        requires
            old(self).wf(),
            i < old(self).header()@.sources.len(),
            j < old(self).header()@.sources[i as int].entries.len(),
        ensures
            final(self).wf(),
            final(self).same_container(old(self)),
            match result {
                Ok(file) => {
                    &&& within(old(self).header()@, old(self).payload().len() as int, i as int, j as int)
                    &&& file@ == unpacked_entry(
                        old(self).header()@,
                        old(self).payload(),
                        out@,
                        i as int,
                        j as int,
                    )
                },
                Err(e) => {
                    &&& e == Error::UnexpectedEof || e == Error::InvalidSeek
                    &&& !within(old(self).header()@, old(self).payload().len() as int, i as int, j as int)
                },
            },
    {
        let contents = match self.read_entry(i, j) {
            Ok(contents) => contents,
            Err(e) => {
                return Err(e);
            },
        };
        let is_single_source = self.is_single_source();
        proof {
            self.header.lemma_view();
        }
        let group = &self.header.entries()[i];
        let entry = &group.entries[j];
        proof {
            assert(self.header()@.sources[i as int] == group@);
            assert(self.header()@.sources[i as int].entries[j as int] == entry@);
        }
        let path = destination_path(out, group.id.as_str(), entry.path.as_str(), is_single_source);
        Ok(UnpackedFile { path, contents })
    }

    /// Reads every entry and says where it goes below `out`. Fails where
    /// the payload is shorter than the sizes in the header add up to.
    pub fn unpack(&mut self, out: &str) -> (result: Result<Vec<UnpackedFile>, Error>)
        requires
            old(self).wf(),
        ensures
            final(self).wf(),
            final(self).same_container(old(self)),
            match result {
                Ok(files) => {
                    &&& sources_size(old(self).header()@.sources) <= old(self).payload().len()
                    &&& file_views(files@) == unpacked(old(self).header()@, old(self).payload(), out@)
                },
                Err(e) => {
                    &&& e == Error::UnexpectedEof || e == Error::InvalidSeek
                    &&& sources_size(old(self).header()@.sources) > old(self).payload().len()
                },
            },
    {
        let ghost header = self.header()@;
        let ghost payload = self.payload();
        let ghost limit = payload.len() as int;
        proof {
            self.header.lemma_view();
        }
        let count = self.header.entries().len();
        let mut files: Vec<UnpackedFile> = Vec::new();
        let mut i: usize = 0;
        assert(file_views(files@) =~= unpacked_upto(header, payload, out@, 0));
        while i < count
            invariant
                self.wf(),
                self.same_container(old(self)),
                header == old(self).header()@,
                payload == old(self).payload(),
                limit == payload.len(),
                count == header.sources.len(),
                header.sources == self.header().groups().map_values(|g: SourceGroup| g@),
                0 <= i <= count,
                file_views(files@) == unpacked_upto(header, payload, out@, i as int),
                forall|a: int, b: int|
                    0 <= a < i && 0 <= b < header.sources[a].entries.len() ==> #[trigger] within(
                        header,
                        limit,
                        a,
                        b,
                    ),
            decreases count - i,
        {
            let entries = self.header.entries()[i].entries.len();
            let ghost before = file_views(files@);
            assert(header.sources[i as int] == self.header().groups()[i as int]@);
            let mut j: usize = 0;
            assert(before + unpacked_source(header, payload, out@, i as int, 0) =~= before);
            while j < entries
                invariant
                    self.wf(),
                    self.same_container(old(self)),
                    header == old(self).header()@,
                    payload == old(self).payload(),
                    limit == payload.len(),
                    0 <= i < header.sources.len(),
                    entries == header.sources[i as int].entries.len(),
                    0 <= j <= entries,
                    forall|a: int, b: int|
                        0 <= a < i && 0 <= b < header.sources[a].entries.len() ==> #[trigger] within(
                            header,
                            limit,
                            a,
                            b,
                        ),
                    forall|b: int| 0 <= b < j ==> #[trigger] within(header, limit, i as int, b),
                    file_views(files@) == before + unpacked_source(
                        header,
                        payload,
                        out@,
                        i as int,
                        j as int,
                    ),
                decreases entries - j,
            {
                let ghost so_far = unpacked_source(header, payload, out@, i as int, j as int);
                let file = match self.unpack_entry(out, i, j) {
                    Ok(file) => file,
                    Err(e) => {
                        proof {
                            reveal(SubArchive::wf);
                            old(self).header().lemma_positions(i as int, j as int);
                        }
                        return Err(e);
                    },
                };
                proof {
                    assert(file_views(files@.push(file)) =~= file_views(files@).push(file@));
                    assert((before + so_far).push(file@) =~= before + so_far.push(file@));
                }
                files.push(file);
                j = j + 1;
            }
            i = i + 1;
        }
        proof {
            lemma_sizes_within(header, header.sources.len() as int, limit);
            assert(header.sources.take(header.sources.len() as int) =~= header.sources);
        }
        Ok(files)
    }
}

/// Entry `j` of source `i` ends within the first `len` bytes of the payload.
pub open spec fn within(header: HeaderRecord, len: int, i: int, j: int) -> bool {
    entry_offset(header.sources, i, j) + header.sources[i].entries[j].size <= len
}

/// Where every entry of the first `n` sources ends within `limit`, so do
/// their sizes together.
pub proof fn lemma_sizes_within(header: HeaderRecord, n: int, limit: int)
    requires
        0 <= n <= header.sources.len(),
        0 <= limit,
        forall|i: int, j: int|
            0 <= i < n && 0 <= j < header.sources[i].entries.len() ==> #[trigger] within(
                header,
                limit,
                i,
                j,
            ),
    ensures
        sources_size(header.sources.take(n)) <= limit,
    decreases n,
{
    let sources = header.sources;
    if n == 0 {
        assert(sources.take(0) =~= Seq::<SourceRecord>::empty());
    } else {
        lemma_sizes_within(header, n - 1, limit);
        let entries = sources[n - 1].entries;
        assert(sources.take(n) =~= sources.take(n - 1).push(sources[n - 1]));
        crate::header::format::lemma_sources_size_push(sources.take(n - 1), sources[n - 1]);
        if entries.len() > 0 {
            let last = entries.len() - 1;
            assert(within(header, limit, n - 1, last));
            assert(entries =~= entries.take(last).push(entries[last]));
            crate::header::format::lemma_entries_size_push(entries.take(last), entries[last]);
        }
    }
}

} // verus!
