use backy::bytes::{order_bytes, order_text, to_array, Order};
use backy::bytes::{u32_from_le_bytes, u32_to_le_bytes, u64_from_le_bytes, u64_to_le_bytes};
use backy::error::Error;
use backy::stream::{ByteStream, SeekFrom};

#[test]
fn little_endian_u32_has_low_byte_first() {
    assert_eq!(u32_to_le_bytes(0x0102_0304), [4, 3, 2, 1]);
    assert_eq!(u32_to_le_bytes(0), [0, 0, 0, 0]);
    assert_eq!(u32_to_le_bytes(u32::MAX), [255, 255, 255, 255]);
    assert_eq!(u32_from_le_bytes(&[4, 3, 2, 1]), 0x0102_0304);
    assert_eq!(u32_from_le_bytes(&[255, 255, 255, 255]), u32::MAX);
}

#[test]
fn little_endian_u64_has_low_byte_first() {
    assert_eq!(u64_to_le_bytes(0x0102_0304_0506_0708), [8, 7, 6, 5, 4, 3, 2, 1]);
    assert_eq!(u64_from_le_bytes(&[8, 7, 6, 5, 4, 3, 2, 1]), 0x0102_0304_0506_0708);
    assert_eq!(u64_to_le_bytes(u64::MAX), [255; 8]);
    assert_eq!(u64_from_le_bytes(&[255; 8]), u64::MAX);
}

#[test]
fn little_endian_agrees_with_std() {
    for x in [0u64, 1, 255, 256, 65_535, 65_536, 1 << 32, (1 << 40) + 7, u64::MAX - 1] {
        assert_eq!(u64_to_le_bytes(x), x.to_le_bytes());
        assert_eq!(u64_from_le_bytes(&x.to_le_bytes()), x);
        let y = x as u32;
        assert_eq!(u32_to_le_bytes(y), y.to_le_bytes());
        assert_eq!(u32_from_le_bytes(&y.to_le_bytes()), y);
    }
}

#[test]
fn bytes_are_ordered_bytewise_and_prefix_first() {
    assert_eq!(order_bytes(b"abc", b"abd"), Order::Less);
    assert_eq!(order_bytes(b"abd", b"abc"), Order::Greater);
    assert_eq!(order_bytes(b"ab", b"abc"), Order::Less);
    assert_eq!(order_bytes(b"abc", b"ab"), Order::Greater);
    assert_eq!(order_bytes(b"", b""), Order::Equal);
    assert_eq!(order_bytes(b"", b"a"), Order::Less);
    assert_eq!(order_bytes(b"same", b"same"), Order::Equal);
    assert_eq!(order_bytes(&[0x7f], &[0x80]), Order::Less);
}

#[test]
fn text_is_ordered_by_utf8_bytes() {
    assert_eq!(order_text("a", "b"), Order::Less);
    assert_eq!(order_text("Z", "a"), Order::Less);
    assert_eq!(order_text("z", "\u{e9}"), Order::Less);
    assert_eq!(order_text("\u{e9}", "\u{e9}"), Order::Equal);
    assert_eq!(order_text("dir/b", "dir/a"), Order::Greater);
}

#[test]
fn slice_becomes_array() {
    let array: [u8; 3] = to_array::<3>(&[7, 8, 9]);
    assert_eq!(array, [7, 8, 9]);
}

#[test]
fn stream_reads_in_order_and_stops_at_the_end() {
    let mut stream = ByteStream::new(vec![1, 2, 3, 4, 5]);
    assert_eq!(stream.len(), 5);
    assert_eq!(stream.stream_position(), 0);
    assert_eq!(stream.read(2), vec![1, 2]);
    assert_eq!(stream.stream_position(), 2);
    assert_eq!(stream.read(10), vec![3, 4, 5]);
    assert_eq!(stream.read(10), Vec::<u8>::new());
    assert_eq!(stream.stream_position(), 5);
}

#[test]
fn read_exact_fails_in_place_when_too_little_is_left() {
    let mut stream = ByteStream::new(vec![1, 2, 3]);
    assert_eq!(stream.read_exact(2), Ok(vec![1, 2]));
    assert_eq!(stream.read_exact(2), Err(Error::UnexpectedEof));
    assert_eq!(stream.stream_position(), 2);
    assert_eq!(stream.read_exact(1), Ok(vec![3]));
    assert_eq!(stream.read_exact(0), Ok(vec![]));
}

#[test]
fn write_overwrites_and_grows() {
    let mut stream = ByteStream::new(vec![1, 2, 3, 4]);
    assert_eq!(stream.seek(SeekFrom::Start(1)), Ok(1));
    stream.write_all(&[9, 9]);
    assert_eq!(stream.stream_position(), 3);
    stream.write_all(&[8, 8, 8]);
    assert_eq!(stream.stream_position(), 6);
    assert_eq!(stream.into_inner(), vec![1, 9, 9, 8, 8, 8]);
}

#[test]
fn write_at_the_end_appends() {
    let mut stream = ByteStream::new(Vec::new());
    stream.write_all(b"abc");
    stream.write_all(b"");
    stream.write_all(b"de");
    assert_eq!(stream.into_inner(), b"abcde".to_vec());
}

#[test]
fn seek_from_start_end_and_current() {
    let mut stream = ByteStream::new(vec![0; 10]);
    assert_eq!(stream.seek(SeekFrom::Start(4)), Ok(4));
    assert_eq!(stream.seek(SeekFrom::Current(3)), Ok(7));
    assert_eq!(stream.seek(SeekFrom::Current(-7)), Ok(0));
    assert_eq!(stream.seek(SeekFrom::End(-1)), Ok(9));
    assert_eq!(stream.seek(SeekFrom::End(0)), Ok(10));
    assert_eq!(stream.seek(SeekFrom::Start(10)), Ok(10));
}

#[test]
fn seek_outside_the_stream_fails_in_place() {
    let mut stream = ByteStream::new(vec![0; 10]);
    assert_eq!(stream.seek(SeekFrom::Start(3)), Ok(3));
    assert_eq!(stream.seek(SeekFrom::Start(11)), Err(Error::InvalidSeek));
    assert_eq!(stream.seek(SeekFrom::Current(-4)), Err(Error::InvalidSeek));
    assert_eq!(stream.seek(SeekFrom::End(1)), Err(Error::InvalidSeek));
    assert_eq!(stream.seek(SeekFrom::End(i64::MIN)), Err(Error::InvalidSeek));
    assert_eq!(stream.seek(SeekFrom::Start(u64::MAX)), Err(Error::InvalidSeek));
    assert_eq!(stream.stream_position(), 3);
}
