use backy::archive::sub_archive::{destination_path, SubArchive, PREAMBLE_LEN};
use backy::archive::{unique, Archive, Container};
use backy::crypto::{crypt, Key, IV};
use backy::error::Error;
use backy::header::{Flags, HeaderBuilder};
use backy::index::{group_by_source, EntryPath, Sources};
use backy::pack::hashing_reader::hash_bytes;
use backy::pack::{check_shape, pack_group, payload_len};
use backy::stream::ByteStream;
use backy::unpack::unpack;
use backy::{Entry, Source, BKY_HEADER};

const KEY: Key = [0x42; 32];
const NONCE: IV = [0x24; 24];

fn source(id: &str, is_file: bool) -> Source {
    Source { id: id.to_string(), is_file, path: format!("/src/{id}") }
}

fn entry(id: &str, is_file: bool, text: &str, size: u64) -> Entry {
    Entry {
        source: source(id, is_file),
        path: EntryPath::from_bytes(text.as_bytes().to_vec()).unwrap(),
        size,
    }
}

fn container(name: &str, data: Vec<u8>) -> Container {
    Container { name: name.to_string(), data }
}

fn files(found: &[backy::archive::sub_archive::UnpackedFile]) -> Vec<(String, Vec<u8>)> {
    found.iter().map(|f| (f.path.clone(), f.contents.clone())).collect()
}

fn hello() -> (Sources, Vec<Vec<Vec<u8>>>) {
    (group_by_source(vec![entry("hello.txt", true, "", 6)]).unwrap(), vec![vec![b"hello\n".to_vec()]])
}

fn two_files() -> (Sources, Vec<Vec<Vec<u8>>>) {
    let sources = group_by_source(vec![entry("d", false, "b", 2), entry("d", false, "a", 4)]).unwrap();
    (sources, vec![vec![b"aaaa".to_vec(), b"bb".to_vec()]])
}

#[test]
fn marker_is_the_version_line() {
    assert_eq!(&BKY_HEADER[..], b"backy archive v0.2\n");
    assert_eq!(PREAMBLE_LEN, BKY_HEADER.len() + 24);
}

#[test]
fn single_small_file() {
    let (sources, contents) = hello();
    let packed = pack_group(&sources, &contents, &KEY, &NONCE, true).unwrap();
    assert!(packed.mismatches.is_empty());
    assert!(packed.container.starts_with(b"backy archive v0.2\n"));
    let unpacked = unpack(vec![container("backup.bky", packed.container)], "/out", KEY).unwrap();
    assert_eq!(files(&unpacked), vec![("/out/hello.txt".to_string(), b"hello\n".to_vec())]);
}

#[test]
fn container_layout_is_exact() {
    let (sources, contents) = hello();
    let packed = pack_group(&sources, &contents, &KEY, &NONCE, true).unwrap();
    let mut plain = vec![1, 0, 0, 0, 1, 0, 0, 0];
    plain.extend_from_slice(&[9, 0, 0, 0]);
    plain.extend_from_slice(b"hello.txt");
    plain.extend_from_slice(&[1, 0, 0, 0]);
    plain.extend_from_slice(&hash_bytes(b"hello\n"));
    plain.extend_from_slice(&[6, 0, 0, 0, 0, 0, 0, 0]);
    plain.extend_from_slice(&[0, 0, 0, 0]);
    plain.extend_from_slice(b"hello\n");
    let mut expected = b"backy archive v0.2\n".to_vec();
    expected.extend_from_slice(&NONCE);
    expected.extend_from_slice(&crypt(&KEY, &NONCE, 0, &plain).unwrap());
    assert_eq!(packed.container, expected);
    // Nothing of the plaintext stands in the clear behind the nonce.
    assert_ne!(packed.container[PREAMBLE_LEN..].to_vec(), plain);
}

#[test]
fn single_directory_with_two_files() {
    let (sources, contents) = two_files();
    let packed = pack_group(&sources, &contents, &KEY, &NONCE, true).unwrap();
    let mut archive = Archive::new(vec![container("backup.bky", packed.container)], KEY).unwrap();
    assert_eq!(archive.get_file(Some("d"), "a"), Ok(b"aaaa".to_vec()));
    assert_eq!(archive.get_file(None, "b"), Ok(b"bb".to_vec()));
    assert_eq!(archive.get_file(Some("d"), "b"), Ok(b"bb".to_vec()));
    assert_eq!(archive.get_file(Some("other"), "a"), Err(Error::NotFound));
    assert_eq!(archive.get_file(None, "c"), Err(Error::NotFound));
    assert_eq!(archive.get_file(None, ""), Err(Error::NotFound));
    assert_eq!(archive.sources(), vec!["d".to_string()]);
    assert_eq!(archive.file_paths(), vec!["a".to_string(), "b".to_string()]);
    let unpacked = archive.unpack("/out").unwrap();
    assert_eq!(
        files(&unpacked),
        vec![("/out/a".to_string(), b"aaaa".to_vec()), ("/out/b".to_string(), b"bb".to_vec())]
    );
}

#[test]
fn multi_source_grouped_containers_unpack_under_their_ids() {
    let first = group_by_source(vec![entry("s1", false, "x", 3)]).unwrap();
    let second = group_by_source(vec![entry("s2", false, "y", 2)]).unwrap();
    let one = pack_group(&first, &vec![vec![b"xxx".to_vec()]], &KEY, &NONCE, false).unwrap();
    let two = pack_group(&second, &vec![vec![b"yy".to_vec()]], &KEY, &[1; 24], false).unwrap();
    let containers = vec![container("1.bky", one.container), container("2.bky", two.container)];
    let mut archive = Archive::new(containers, KEY).unwrap();
    assert_eq!(archive.len(), 2);
    assert_eq!(archive.get(0).get_name(), "1.bky");
    assert_eq!(archive.get(1).get_name(), "2.bky");
    assert_eq!(archive.sources(), vec!["s1".to_string(), "s2".to_string()]);
    assert_eq!(archive.unique_sources(), vec!["s1".to_string(), "s2".to_string()]);
    assert_eq!(archive.get(0).get_size(), 43 + 8 + (8 + 2) + (44 + 1) + 3);
    assert_eq!(archive.file_paths(), vec!["x".to_string(), "y".to_string()]);
    assert_eq!(archive.unique_file_paths(), vec!["x".to_string(), "y".to_string()]);
    let seen = std::cell::RefCell::new(Vec::new());
    archive.for_each_file(|source, path| seen.borrow_mut().push(format!("{source}:{path}")));
    assert_eq!(seen.into_inner(), vec!["s1:x".to_string(), "s2:y".to_string()]);
    assert_eq!(
        files(&archive.unpack("/out").unwrap()),
        vec![("/out/s1/x".to_string(), b"xxx".to_vec()), ("/out/s2/y".to_string(), b"yy".to_vec())]
    );
    assert_eq!(archive.get_file(Some("s2"), "y"), Ok(b"yy".to_vec()));
    assert_eq!(archive.get_file(Some("s1"), "y"), Err(Error::NotFound));
}

#[test]
fn a_fetch_reads_the_entry_from_its_container_and_nothing_else() {
    let a = group_by_source(vec![entry("s", false, "a", 0), entry("s", false, "c", 0)]).unwrap();
    let b = group_by_source(vec![entry("t", false, "b", 0)]).unwrap();
    let one = pack_group(&a, &vec![vec![b"first".to_vec(), b"third!".to_vec()]], &KEY, &NONCE, false).unwrap();
    let two = pack_group(&b, &vec![vec![b"second file".to_vec()]], &KEY, &NONCE, false).unwrap();
    let containers = vec![container("1.bky", one.container), container("2.bky", two.container)];
    let mut archive = Archive::new(containers, KEY).unwrap();
    let read = |archive: &Archive| -> Vec<u64> {
        (0..archive.len()).map(|k| archive.get(k).get_archive().get_bytes_read()).collect()
    };
    let opened = read(&archive);
    assert_eq!(archive.get_file(None, "b"), Ok(b"second file".to_vec()));
    assert_eq!(read(&archive), vec![opened[0], opened[1] + 11]);
    assert_eq!(archive.get_file(Some("s"), "c"), Ok(b"third!".to_vec()));
    assert_eq!(read(&archive), vec![opened[0] + 6, opened[1] + 11]);
    assert_eq!(archive.get_file(Some("t"), "a"), Err(Error::NotFound));
    assert_eq!(archive.get_file(None, "missing"), Err(Error::NotFound));
    assert_eq!(read(&archive), vec![opened[0] + 6, opened[1] + 11]);
}

#[test]
fn containers_may_come_in_any_order() {
    let a = group_by_source(vec![entry("s1", false, "x", 0)]).unwrap();
    let b = group_by_source(vec![entry("s2", false, "y", 0)]).unwrap();
    let one = pack_group(&a, &vec![vec![b"xxx".to_vec()]], &KEY, &NONCE, false).unwrap().container;
    let two = pack_group(&b, &vec![vec![b"yy".to_vec()]], &KEY, &NONCE, false).unwrap().container;
    let forth = unpack(vec![container("1.bky", one.clone()), container("2.bky", two.clone())], "/out", KEY).unwrap();
    let back = unpack(vec![container("2.bky", two), container("1.bky", one)], "/out", KEY).unwrap();
    let mut forth = files(&forth);
    let mut back = files(&back);
    assert_ne!(forth, back);
    forth.sort();
    back.sort();
    assert_eq!(forth, back);
    assert_eq!(
        forth,
        vec![("/out/s1/x".to_string(), b"xxx".to_vec()), ("/out/s2/y".to_string(), b"yy".to_vec())]
    );
}

#[test]
fn sources_of_several_containers_are_not_deduplicated() {
    let a = group_by_source(vec![entry("s", false, "a", 1)]).unwrap();
    let b = group_by_source(vec![entry("s", false, "b", 1)]).unwrap();
    let one = pack_group(&a, &vec![vec![b"A".to_vec()]], &KEY, &NONCE, true).unwrap();
    let two = pack_group(&b, &vec![vec![b"B".to_vec()]], &KEY, &NONCE, true).unwrap();
    let containers = vec![container("1.bky", one.container), container("2.bky", two.container)];
    let mut archive = Archive::new(containers, KEY).unwrap();
    assert_eq!(archive.sources(), vec!["s".to_string(), "s".to_string()]);
    assert_eq!(archive.unique_sources(), vec!["s".to_string()]);
    assert_eq!(archive.get(1).get_archive().file_paths(), vec!["b".to_string()]);
    assert_eq!(archive.get_file(Some("s"), "b"), Ok(b"B".to_vec()));
    assert_eq!(
        files(&archive.unpack("o").unwrap()),
        vec![("o/a".to_string(), b"A".to_vec()), ("o/b".to_string(), b"B".to_vec())]
    );
}

#[test]
fn round_trip_of_several_sources() {
    let sources = group_by_source(vec![
        entry("tree", false, "deep/er/file.bin", 0),
        entry("single", true, "", 0),
        entry("tree", false, "empty", 0),
        entry("tree", false, "a\u{e9}", 0),
        entry("another", false, "x", 0),
    ])
    .unwrap();
    let big: Vec<u8> = (0..200_000usize).map(|i| (i * 7 % 256) as u8).collect();
    let contents = vec![
        vec![b"another x".to_vec()],
        vec![b"the single file".to_vec()],
        vec![b"accent".to_vec(), big.clone(), Vec::new()],
    ];
    let packed = pack_group(&sources, &contents, &KEY, &NONCE, false).unwrap();
    // Every size differs from the index, which held zeros, but for the empty file.
    assert_eq!(packed.mismatches, vec![(0, 0), (1, 0), (2, 0), (2, 1)]);
    let mut sub = SubArchive::new(ByteStream::new(packed.container.clone()), KEY).unwrap();
    assert!(!sub.is_single_source());
    assert_eq!(sub.sources(), vec!["another".to_string(), "single".to_string(), "tree".to_string()]);
    assert_eq!(
        sub.file_paths(),
        vec!["x".to_string(), "".to_string(), "a\u{e9}".to_string(), "deep/er/file.bin".to_string(), "empty".to_string()]
    );
    let header = sub.get_header();
    assert_eq!(header.entries()[2].entries[1].hash, hash_bytes(&big));
    assert_eq!(header.entries()[2].entries[1].size, 200_000);
    assert_eq!(header.entries()[2].entries[1].position, 9 + 15 + 6);
    let expected = vec![
        ("/out/another/x".to_string(), b"another x".to_vec()),
        ("/out/single".to_string(), b"the single file".to_vec()),
        ("/out/tree/a\u{e9}".to_string(), b"accent".to_vec()),
        ("/out/tree/deep/er/file.bin".to_string(), big.clone()),
        ("/out/tree/empty".to_string(), Vec::new()),
    ];
    assert_eq!(files(&sub.unpack("/out").unwrap()), expected);
    assert_eq!(sub.read_entry(2, 1), Ok(big));
    assert_eq!(sub.find_entry(Some("tree"), "empty"), Some((2, 2)));
    assert_eq!(sub.find_entry(None, ""), Some((1, 0)));
    assert_eq!(sub.find_entry(Some("tree"), ""), None);
    assert_eq!(sub.get_file(None, "empty"), Ok(Some(Vec::new())));
    assert_eq!(sub.get_file(None, "missing"), Ok(None));
}

#[test]
fn random_access_correctness() {
    let index: Vec<Entry> = (0..100).map(|i| entry("many", false, &format!("file{i:03}"), 0)).collect();
    let sources = group_by_source(index).unwrap();
    let contents: Vec<Vec<u8>> =
        (0..100usize).map(|i| format!("contents of file number {i}").repeat(i % 7 + 1).into_bytes()).collect();
    let packed = pack_group(&sources, &vec![contents.clone()], &KEY, &NONCE, true).unwrap();
    let mut archive = Archive::new(vec![container("many.bky", packed.container.clone())], KEY).unwrap();
    let unpacked = archive.unpack("/out").unwrap();
    for i in 0..100usize {
        let name = format!("file{i:03}");
        let fetched = archive.get_file(Some("many"), &name).unwrap();
        assert_eq!(fetched, contents[i]);
        assert_eq!(unpacked[i].path, format!("/out/{name}"));
        assert_eq!(unpacked[i].contents, fetched);
    }
    // Opening reads marker, nonce and header; fetching a file reads that file and no more.
    let header_len = packed.container.len() - PREAMBLE_LEN - contents.iter().map(|c| c.len()).sum::<usize>();
    let mut sub = SubArchive::new(ByteStream::new(packed.container.clone()), KEY).unwrap();
    let opened = sub.get_bytes_read();
    assert_eq!(opened, (PREAMBLE_LEN + header_len) as u64);
    let mut read = opened;
    for i in [99usize, 0, 57, 57, 3] {
        assert_eq!(sub.get_file(None, &format!("file{i:03}")), Ok(Some(contents[i].clone())));
        read += contents[i].len() as u64;
        assert_eq!(sub.get_bytes_read(), read);
    }
    assert_eq!(sub.get_file(None, "missing"), Ok(None));
    assert_eq!(sub.find_entry(Some("many"), "file042"), Some((0, 42)));
    assert_eq!(sub.get_bytes_read(), read);
    // An entry is where the header says: behind the header, at the sum of the sizes before it.
    let entry = &sub.get_header().entries()[0].entries[57];
    let before: usize = contents[..57].iter().map(|c| c.len()).sum();
    assert_eq!(entry.position as usize, before);
    let from = PREAMBLE_LEN + header_len + before;
    let slice = &packed.container[from..from + contents[57].len()];
    assert_eq!(crypt(&KEY, &NONCE, (header_len + before) as u64, slice).unwrap(), contents[57]);
}

#[test]
fn wrong_key() {
    let (sources, contents) = two_files();
    let packed = pack_group(&sources, &contents, &KEY, &NONCE, true).unwrap();
    let mut wrong = KEY;
    wrong[31] ^= 0x01;
    let opened = SubArchive::new(ByteStream::new(packed.container.clone()), wrong);
    assert_eq!(opened.err(), Some(Error::MalformedHeader));
    assert_eq!(
        Archive::new(vec![container("c", packed.container.clone())], wrong).err(),
        Some(Error::MalformedHeader)
    );
    assert_eq!(unpack(vec![container("c", packed.container)], "/out", wrong).err(), Some(Error::MalformedHeader));
}

#[test]
fn what_is_no_archive_is_rejected() {
    let (sources, contents) = hello();
    let good = pack_group(&sources, &contents, &KEY, &NONCE, true).unwrap().container;
    let open = |bytes: Vec<u8>| SubArchive::new(ByteStream::new(bytes), KEY).err();
    assert_eq!(open(Vec::new()), Some(Error::UnexpectedEof));
    assert_eq!(open(b"backy archive v0.2".to_vec()), Some(Error::UnexpectedEof));
    assert_eq!(open(b"backy archive v0.1\n and more bytes than marker and nonce".to_vec()), Some(Error::NotAnArchive));
    assert_eq!(open(b"backy archive v1\n\n\n".to_vec()), Some(Error::NotAnArchive));
    assert_eq!(open(good[..19].to_vec()), Some(Error::UnexpectedEof));
    assert_eq!(open(good[..42].to_vec()), Some(Error::UnexpectedEof));
    assert_eq!(open(good[..43].to_vec()), Some(Error::MalformedHeader));
    assert_eq!(open(good[..60].to_vec()), Some(Error::MalformedHeader));
    let mut flipped = good.clone();
    flipped[0] ^= 0x20;
    assert_eq!(open(flipped), Some(Error::NotAnArchive));
    assert_eq!(open(good), None);
}

#[test]
fn first_container_that_fails_decides_the_error() {
    let (sources, contents) = hello();
    let good = pack_group(&sources, &contents, &KEY, &NONCE, true).unwrap().container;
    let containers =
        vec![container("1", good.clone()), container("2", b"junk".to_vec()), container("3", vec![0; 64])];
    assert_eq!(Archive::new(containers, KEY).err(), Some(Error::UnexpectedEof));
    let containers = vec![container("1", good), container("2", vec![0; 64]), container("3", b"junk".to_vec())];
    assert_eq!(unpack(containers, "/out", KEY).err(), Some(Error::NotAnArchive));
    assert_eq!(Archive::new(Vec::new(), KEY).map(|a| a.len()).ok(), Some(0));
    assert_eq!(unpack(Vec::new(), "/out", KEY).map(|f| f.len()).ok(), Some(0));
}

#[test]
fn truncated_payload_cannot_be_read() {
    let (sources, contents) = two_files();
    let good = pack_group(&sources, &contents, &KEY, &NONCE, true).unwrap().container;
    let short = good[..good.len() - 1].to_vec();
    let mut sub = SubArchive::new(ByteStream::new(short.clone()), KEY).unwrap();
    assert_eq!(sub.read_entry(0, 0), Ok(b"aaaa".to_vec()));
    assert_eq!(sub.read_entry(0, 1), Err(Error::UnexpectedEof));
    assert_eq!(sub.get_file(None, "b"), Err(Error::UnexpectedEof));
    assert_eq!(sub.unpack("/out").err(), Some(Error::UnexpectedEof));
    assert_eq!(unpack(vec![container("c", short)], "/out", KEY).err(), Some(Error::UnexpectedEof));
    // Where the entry would start behind the end, the seek fails.
    let shorter = good[..good.len() - 3].to_vec();
    let mut sub = SubArchive::new(ByteStream::new(shorter), KEY).unwrap();
    assert_eq!(sub.read_entry(0, 0), Err(Error::UnexpectedEof));
    assert_eq!(sub.read_entry(0, 1), Err(Error::InvalidSeek));
    let mut archive = Archive::new(vec![container("c", good[..good.len() - 3].to_vec())], KEY).unwrap();
    assert_eq!(archive.get_file(None, "b"), Err(Error::InvalidSeek));
}

#[test]
fn contents_must_match_the_index() {
    let (sources, _) = two_files();
    assert!(check_shape(&sources, &vec![vec![Vec::new(), Vec::new()]]));
    assert!(!check_shape(&sources, &vec![vec![Vec::new()]]));
    assert!(!check_shape(&sources, &Vec::new()));
    assert!(!check_shape(&sources, &vec![vec![Vec::new(), Vec::new()], Vec::new()]));
    let packed = pack_group(&sources, &vec![vec![b"only one".to_vec()]], &KEY, &NONCE, true);
    assert_eq!(packed.err(), Some(Error::ContentsMismatch));
    assert_eq!(pack_group(&sources, &Vec::new(), &KEY, &NONCE, true).err(), Some(Error::ContentsMismatch));
}

#[test]
fn payload_length_is_summed_up_to_the_limit() {
    let contents = vec![vec![vec![0u8; 10], vec![0u8; 5]], Vec::new(), vec![vec![0u8; 1]]];
    assert_eq!(payload_len(&contents, 100, 116), Some(16));
    assert_eq!(payload_len(&contents, 100, 115), None);
    assert_eq!(payload_len(&contents, 0, 16), Some(16));
    assert_eq!(payload_len(&Vec::new(), 7, 7), Some(0));
    assert_eq!(payload_len(&Vec::new(), 8, 7), None);
    assert_eq!(payload_len(&contents, u64::MAX, u64::MAX), None);
}

#[test]
fn size_that_changed_since_indexing_is_noticed_and_the_written_size_recorded() {
    let sources =
        group_by_source(vec![entry("d", false, "same", 3), entry("d", false, "grown", 3), entry("f", true, "", 9)])
            .unwrap();
    let contents = vec![vec![b"12345".to_vec(), b"123".to_vec()], vec![b"".to_vec()]];
    let packed = pack_group(&sources, &contents, &KEY, &NONCE, false).unwrap();
    assert_eq!(packed.mismatches, vec![(0, 0), (1, 0)]);
    let sub = SubArchive::new(ByteStream::new(packed.container), KEY).unwrap();
    let sizes: Vec<u64> = sub.get_header().entries()[0].entries.iter().map(|e| e.size).collect();
    assert_eq!(sizes, vec![5, 3]);
    assert_eq!(sub.get_header().entries()[1].entries[0].size, 0);
}

#[test]
fn empty_group_packs_to_an_empty_header() {
    let packed = pack_group(&Sources::new(), &Vec::new(), &KEY, &NONCE, false).unwrap();
    assert_eq!(packed.container.len(), PREAMBLE_LEN + 8);
    let mut sub = SubArchive::new(ByteStream::new(packed.container), KEY).unwrap();
    assert!(sub.sources().is_empty());
    assert!(sub.unpack("/out").unwrap().is_empty());
}

#[test]
fn a_fresh_nonce_changes_every_encrypted_byte_stream() {
    let (sources, contents) = hello();
    let one = pack_group(&sources, &contents, &KEY, &NONCE, true).unwrap().container;
    let two = pack_group(&sources, &contents, &KEY, &[0x25; 24], true).unwrap().container;
    assert_eq!(one.len(), two.len());
    assert_ne!(one[PREAMBLE_LEN..], two[PREAMBLE_LEN..]);
    assert_eq!(one[..19], two[..19]);
}

#[test]
fn unique_keeps_the_first_of_each() {
    let texts = |list: &[&str]| list.iter().map(|t| t.to_string()).collect::<Vec<String>>();
    assert_eq!(unique(texts(&["b", "a", "b", "c", "a", "b"])), texts(&["b", "a", "c"]));
    assert_eq!(unique(texts(&[])), texts(&[]));
    assert_eq!(unique(texts(&["", ""])), texts(&[""]));
}

#[test]
fn destination_depends_on_source_kind_and_flag() {
    assert_eq!(destination_path("/out", "hello.txt", "", true), "/out/hello.txt");
    assert_eq!(destination_path("/out", "hello.txt", "", false), "/out/hello.txt");
    assert_eq!(destination_path("/out", "d", "a/b", true), "/out/a/b");
    assert_eq!(destination_path("/out", "d", "a/b", false), "/out/d/a/b");
    assert_eq!(destination_path("", "d", "a", false), "/d/a");
    assert_eq!(destination_path(".", "d", "a", true), "./a");
}

#[test]
fn builder_header_and_packed_header_agree() {
    let (sources, contents) = two_files();
    let mut builder = HeaderBuilder::new(&sources, Flags { is_single_source: true }).unwrap();
    builder.set_entry(&source("d", false), &sources.get(0).entries.get(1).path, 2, hash_bytes(b"bb"));
    builder.set_entry(&source("d", false), &sources.get(0).entries.get(0).path, 4, hash_bytes(b"aaaa"));
    let mut plain = builder.to_bytes();
    plain.extend_from_slice(b"aaaabb");
    let packed = pack_group(&sources, &contents, &KEY, &NONCE, true).unwrap();
    assert_eq!(packed.container[PREAMBLE_LEN..].to_vec(), crypt(&KEY, &NONCE, 0, &plain).unwrap());
}
