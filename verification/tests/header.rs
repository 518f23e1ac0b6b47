use backy::crypto::{crypt, DecryptReader, EncryptWriter, Key, IV};
use backy::error::Error;
use backy::header::{write_slice, Flags, Header, HeaderBuilder};
use backy::index::{group_by_source, EntryPath, Sources};
use backy::stream::{ByteStream, SeekFrom};
use backy::{Entry, Source};

const KEY: Key = [7; 32];
const NONCE: IV = [9; 24];

fn source(id: &str, is_file: bool) -> Source {
    Source { id: id.to_string(), is_file, path: format!("/root/{id}") }
}

fn path(text: &str) -> EntryPath {
    EntryPath::from_bytes(text.as_bytes().to_vec()).unwrap()
}

fn entry(id: &str, is_file: bool, text: &str, size: u64) -> Entry {
    Entry { source: source(id, is_file), path: path(text), size }
}

fn three_sources() -> Sources {
    group_by_source(vec![
        entry("photos", false, "2024/b.jpg", 20),
        entry("notes.txt", true, "", 5),
        entry("photos", false, "2024/a.jpg", 10),
        entry("docs", false, "r\u{e9}sum\u{e9}.pdf", 30),
        entry("photos", false, "2023/z.jpg", 40),
    ])
    .unwrap()
}

fn hash(seed: u8) -> [u8; 32] {
    let mut hash = [0u8; 32];
    for i in 0..32 {
        hash[i] = seed.wrapping_mul(31).wrapping_add(i as u8);
    }
    hash
}

fn filled_builder() -> HeaderBuilder {
    let mut builder = HeaderBuilder::new(&three_sources(), Flags { is_single_source: false }).unwrap();
    builder.set_entry(&source("photos", false), &path("2024/a.jpg"), 11, hash(1));
    builder.set_entry(&source("docs", false), &path("r\u{e9}sum\u{e9}.pdf"), 31, hash(2));
    builder.set_entry(&source("notes.txt", true), &path(""), 6, hash(3));
    builder.set_entry(&source("photos", false), &path("2023/z.jpg"), 41, hash(4));
    builder.set_entry(&source("photos", false), &path("2024/b.jpg"), 21, hash(5));
    builder
}

fn parse(plain: &[u8]) -> Result<Header, Error> {
    let cipher = crypt(&KEY, &NONCE, 0, plain).unwrap();
    let mut reader = DecryptReader::new(ByteStream::new(cipher), KEY, NONCE).unwrap();
    Header::read_from(&mut reader)
}

#[test]
fn flags_keep_the_single_source_bit() {
    assert_eq!(Flags { is_single_source: true }.to_bytes(), [1, 0, 0, 0]);
    assert_eq!(Flags { is_single_source: false }.to_bytes(), [0, 0, 0, 0]);
    assert!(Flags::from_bytes([1, 0, 0, 0]).is_single_source);
    assert!(!Flags::from_bytes([0, 0, 0, 0]).is_single_source);
    assert!(Flags::from_bytes([0xff, 0xff, 0xff, 0xff]).is_single_source);
    assert!(!Flags::from_bytes([0xfe, 1, 1, 1]).is_single_source);
}

#[test]
fn write_slice_puts_the_length_first() {
    let mut out = vec![0xee];
    write_slice(&mut out, b"abc");
    write_slice(&mut out, b"");
    assert_eq!(out, vec![0xee, 3, 0, 0, 0, b'a', b'b', b'c', 0, 0, 0, 0]);
}

#[test]
fn header_size_is_known_before_the_payload() {
    let builder = HeaderBuilder::new(&three_sources(), Flags { is_single_source: false }).unwrap();
    // flags and count, then per source 8 and the id, per entry 44 and the path.
    let expected = 8 + (8 + 4) + (44 + 12) + (8 + 9) + 44 + (8 + 6) + 3 * (44 + 10);
    assert_eq!(builder.header_size(), expected);
    let empty = HeaderBuilder::new(&Sources::new(), Flags { is_single_source: true }).unwrap();
    assert_eq!(empty.header_size(), 8);
}

#[test]
fn header_bytes_are_as_many_as_header_size() {
    let builder = filled_builder();
    let bytes = builder.to_bytes();
    assert_eq!(bytes.len() as u64, builder.header_size());
    let empty = HeaderBuilder::new(&Sources::new(), Flags { is_single_source: true }).unwrap();
    assert_eq!(empty.to_bytes(), vec![1, 0, 0, 0, 0, 0, 0, 0]);
}

#[test]
fn header_layout_is_exact() {
    let sources = group_by_source(vec![entry("d", false, "a", 4)]).unwrap();
    let mut builder = HeaderBuilder::new(&sources, Flags { is_single_source: true }).unwrap();
    builder.set_entry(&source("d", false), &path("a"), 0x0102, [0xab; 32]);
    let mut expected = vec![1, 0, 0, 0, 1, 0, 0, 0];
    expected.extend_from_slice(&[1, 0, 0, 0, b'd', 1, 0, 0, 0]);
    expected.extend_from_slice(&[0xab; 32]);
    expected.extend_from_slice(&[2, 1, 0, 0, 0, 0, 0, 0]);
    expected.extend_from_slice(&[1, 0, 0, 0, b'a']);
    assert_eq!(builder.to_bytes(), expected);
}

#[test]
fn header_round_trip() {
    let builder = filled_builder();
    let mut writer = EncryptWriter::new(ByteStream::new(Vec::new()), KEY, NONCE);
    assert_eq!(builder.write_header(&mut writer), Ok(()));
    assert_eq!(writer.stream_position(), builder.header_size());
    let mut stream = writer.into_inner();
    stream.seek(SeekFrom::Start(0)).unwrap();
    let mut reader = DecryptReader::new(stream, KEY, NONCE).unwrap();
    let header = Header::read_from(&mut reader).unwrap();
    assert_eq!(reader.stream_position(), builder.header_size());
    assert!(!header.flags().is_single_source);

    let groups = header.entries();
    let ids: Vec<&str> = groups.iter().map(|g| g.id.as_str()).collect();
    assert_eq!(ids, vec!["docs", "notes.txt", "photos"]);
    let paths: Vec<Vec<&str>> =
        groups.iter().map(|g| g.entries.iter().map(|e| e.path.as_str()).collect()).collect();
    assert_eq!(
        paths,
        vec![vec!["r\u{e9}sum\u{e9}.pdf"], vec![""], vec!["2023/z.jpg", "2024/a.jpg", "2024/b.jpg"]]
    );
    let sizes: Vec<Vec<u64>> =
        groups.iter().map(|g| g.entries.iter().map(|e| e.size).collect()).collect();
    assert_eq!(sizes, vec![vec![31], vec![6], vec![41, 11, 21]]);
    let hashes: Vec<Vec<[u8; 32]>> =
        groups.iter().map(|g| g.entries.iter().map(|e| e.hash).collect()).collect();
    assert_eq!(hashes, vec![vec![hash(2)], vec![hash(3)], vec![hash(4), hash(1), hash(5)]]);
}

#[test]
fn payload_positions_are_prefix_sums() {
    let header = parse(&filled_builder().to_bytes()).unwrap();
    let positions: Vec<Vec<u64>> =
        header.entries().iter().map(|g| g.entries.iter().map(|e| e.position).collect()).collect();
    assert_eq!(positions, vec![vec![0], vec![31], vec![37, 78, 89]]);
    let totals: Vec<u64> = header.entries().iter().map(|g| g.size).collect();
    assert_eq!(totals, vec![31, 6, 73]);
}

#[test]
fn reading_stops_at_the_first_payload_byte() {
    let mut plain = filled_builder().to_bytes();
    let header_len = plain.len() as u64;
    plain.extend_from_slice(b"payload follows");
    let cipher = crypt(&KEY, &NONCE, 0, &plain).unwrap();
    let mut reader = DecryptReader::new(ByteStream::new(cipher), KEY, NONCE).unwrap();
    Header::read_from(&mut reader).unwrap();
    assert_eq!(reader.stream_position(), header_len);
    assert_eq!(reader.read(7), b"payload".to_vec());
}

#[test]
fn truncated_header_is_malformed() {
    let bytes = filled_builder().to_bytes();
    for len in [0, 3, 4, 7, 8, 11, 12, 20, 60, bytes.len() - 1] {
        assert_eq!(parse(&bytes[..len]).err(), Some(Error::MalformedHeader));
    }
    assert!(parse(&bytes).is_ok());
}

#[test]
fn header_with_invalid_utf8_is_malformed() {
    // One source whose id is the byte 0xff.
    let bad_id = vec![0, 0, 0, 0, 1, 0, 0, 0, 1, 0, 0, 0, 0xff, 0, 0, 0, 0];
    assert_eq!(parse(&bad_id).err(), Some(Error::MalformedHeader));
    // One source "d" with one entry whose path is a lone continuation byte.
    let mut bad_path = vec![0, 0, 0, 0, 1, 0, 0, 0, 1, 0, 0, 0, b'd', 1, 0, 0, 0];
    bad_path.extend_from_slice(&[0; 40]);
    bad_path.extend_from_slice(&[1, 0, 0, 0, 0x80]);
    assert_eq!(parse(&bad_path).err(), Some(Error::MalformedHeader));
}

#[test]
fn header_with_impossible_lengths_is_malformed() {
    // A count of sources that the bytes cannot hold.
    assert_eq!(parse(&[0, 0, 0, 0, 0xff, 0xff, 0xff, 0xff]).err(), Some(Error::MalformedHeader));
    // An id longer than what is left.
    assert_eq!(
        parse(&[0, 0, 0, 0, 1, 0, 0, 0, 9, 0, 0, 0, b'x']).err(),
        Some(Error::MalformedHeader)
    );
    // Two entries whose sizes add up to more than an offset can hold.
    let mut overflow = vec![0, 0, 0, 0, 1, 0, 0, 0, 1, 0, 0, 0, b'd', 2, 0, 0, 0];
    for name in [b'a', b'b'] {
        overflow.extend_from_slice(&[0; 32]);
        overflow.extend_from_slice(&[0xff; 8]);
        overflow.extend_from_slice(&[1, 0, 0, 0, name]);
    }
    assert_eq!(parse(&overflow).err(), Some(Error::MalformedHeader));
    // One such entry alone can be read.
    let mut single = vec![0, 0, 0, 0, 1, 0, 0, 0, 1, 0, 0, 0, b'd', 1, 0, 0, 0];
    single.extend_from_slice(&[0; 32]);
    single.extend_from_slice(&[0xff; 8]);
    single.extend_from_slice(&[1, 0, 0, 0, b'a']);
    let header = parse(&single).unwrap();
    assert_eq!(header.entries()[0].entries[0].size, u64::MAX);
}

#[test]
fn only_bit_zero_of_the_flags_counts() {
    let header = parse(&[0xf3, 0xff, 0xff, 0xff, 0, 0, 0, 0]).unwrap();
    assert!(header.flags().is_single_source);
    assert!(header.entries().is_empty());
    let header = parse(&[0xf2, 0, 0, 0, 0, 0, 0, 0]).unwrap();
    assert!(!header.flags().is_single_source);
}

#[test]
fn header_is_read_in_file_order_whatever_it_is() {
    // Sources "b" then "a", and "b" once more: read as they stand.
    let mut bytes = vec![0, 0, 0, 0, 3, 0, 0, 0];
    for id in [b'b', b'a', b'b'] {
        bytes.extend_from_slice(&[1, 0, 0, 0, id, 0, 0, 0, 0]);
    }
    let header = parse(&bytes).unwrap();
    let ids: Vec<&str> = header.entries().iter().map(|g| g.id.as_str()).collect();
    assert_eq!(ids, vec!["b", "a", "b"]);
}
