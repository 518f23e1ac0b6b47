use backy::crypto::{crypt, encode_key, generate_iv, generate_key, parse_key};
use backy::crypto::{DecryptReader, EncryptWriter, Key, IV, KEYSTREAM_LEN};
use backy::error::Error;
use backy::pack::hashing_reader::{hash_bytes, HashingReader};
use backy::stream::{ByteStream, SeekFrom};

fn key() -> Key {
    let mut key = [0u8; 32];
    for i in 0..32 {
        key[i] = i as u8;
    }
    key
}

fn iv() -> IV {
    let mut iv = [0u8; 24];
    for i in 0..24 {
        iv[i] = 0x40 + i as u8;
    }
    iv
}

fn text(len: usize) -> Vec<u8> {
    (0..len).map(|i| (i * 31 % 251) as u8).collect()
}

#[test]
fn keystream_length_is_all_blocks_but_the_last() {
    assert_eq!(KEYSTREAM_LEN, ((1u64 << 32) - 1) * 64);
}

#[test]
fn encrypting_changes_the_bytes() {
    let plain = vec![0u8; 64];
    let cipher = crypt(&key(), &iv(), 0, &plain).unwrap();
    assert_eq!(cipher.len(), 64);
    assert_ne!(cipher, plain);
    let other = crypt(&key(), &iv(), 0, &text(64)).unwrap();
    assert_ne!(other, text(64));
}

#[test]
fn decrypt_undoes_encrypt() {
    for len in [0usize, 1, 63, 64, 65, 1000] {
        let plain = text(len);
        let cipher = crypt(&key(), &iv(), 0, &plain).unwrap();
        assert_eq!(crypt(&key(), &iv(), 0, &cipher).unwrap(), plain);
    }
}

#[test]
fn keystream_is_keyed_by_absolute_offset() {
    let plain = text(300);
    let whole = crypt(&key(), &iv(), 0, &plain).unwrap();
    for (from, to) in [(0usize, 300usize), (1, 2), (63, 65), (64, 128), (100, 300), (299, 300)] {
        let part = crypt(&key(), &iv(), from as u64, &plain[from..to]).unwrap();
        assert_eq!(part, whole[from..to].to_vec());
    }
}

#[test]
fn key_and_nonce_both_decide_the_keystream() {
    let plain = vec![0u8; 32];
    let base = crypt(&key(), &iv(), 0, &plain).unwrap();
    let mut other_key = key();
    other_key[0] ^= 1;
    let mut other_iv = iv();
    other_iv[23] ^= 1;
    assert_ne!(crypt(&other_key, &iv(), 0, &plain).unwrap(), base);
    assert_ne!(crypt(&key(), &other_iv, 0, &plain).unwrap(), base);
}

#[test]
fn keystream_ends_after_its_last_byte() {
    assert_eq!(crypt(&key(), &iv(), KEYSTREAM_LEN - 1, &[0]).map(|c| c.len()), Ok(1));
    assert_eq!(crypt(&key(), &iv(), KEYSTREAM_LEN, &[]), Ok(vec![]));
    assert_eq!(crypt(&key(), &iv(), KEYSTREAM_LEN - 64, &[0; 64]).map(|c| c.len()), Ok(64));
    assert_eq!(crypt(&key(), &iv(), KEYSTREAM_LEN, &[0]), Err(Error::KeystreamExhausted));
    assert_eq!(crypt(&key(), &iv(), KEYSTREAM_LEN - 1, &[0, 0]), Err(Error::KeystreamExhausted));
    assert_eq!(crypt(&key(), &iv(), u64::MAX, &[0]), Err(Error::KeystreamExhausted));
    assert_eq!(crypt(&key(), &iv(), KEYSTREAM_LEN + 64, &[]), Err(Error::KeystreamExhausted));
}

#[test]
fn writer_encrypts_behind_what_was_there() {
    let mut stream = ByteStream::new(b"clear".to_vec());
    stream.seek(SeekFrom::End(0)).unwrap();
    let mut writer = EncryptWriter::new(stream, key(), iv());
    assert_eq!(writer.stream_position(), 0);
    assert_eq!(writer.write(b"hello "), Ok(6));
    assert_eq!(writer.stream_position(), 6);
    assert_eq!(writer.write(b"world"), Ok(5));
    assert_eq!(writer.stream_position(), 11);
    let bytes = writer.into_inner().into_inner();
    assert_eq!(&bytes[..5], b"clear");
    assert_eq!(bytes[5..].to_vec(), crypt(&key(), &iv(), 0, b"hello world").unwrap());
}

#[test]
fn writer_can_be_moved_and_encrypts_for_its_place() {
    let plain = text(100);
    let mut stream = ByteStream::new(vec![0xee; 4]);
    stream.seek(SeekFrom::End(0)).unwrap();
    let mut writer = EncryptWriter::new(stream, key(), iv());
    writer.write(&vec![0; 100]).unwrap();
    assert_eq!(writer.seek(SeekFrom::Start(40)), Ok(40));
    writer.write(&plain[40..]).unwrap();
    assert_eq!(writer.seek(SeekFrom::Current(-200)), Err(Error::InvalidSeek));
    assert_eq!(writer.seek(SeekFrom::Start(101)), Err(Error::InvalidSeek));
    assert_eq!(writer.stream_position(), 100);
    assert_eq!(writer.seek(SeekFrom::Current(-102)), Ok(0));
    writer.write(&plain[..40]).unwrap();
    assert_eq!(writer.seek(SeekFrom::End(0)), Ok(100));
    let bytes = writer.into_inner().into_inner();
    assert_eq!(&bytes[..4], &[0xee; 4]);
    assert_eq!(bytes[4..].to_vec(), crypt(&key(), &iv(), 0, &plain).unwrap());
}

#[test]
fn streams_count_what_is_read_from_them() {
    let mut stream = ByteStream::new(text(50));
    assert_eq!(stream.get_bytes_read(), 0);
    stream.read(10);
    stream.seek(SeekFrom::Start(45)).unwrap();
    stream.read(10);
    assert_eq!(stream.read_exact(1), Err(Error::UnexpectedEof));
    stream.write_all(b"more");
    assert_eq!(stream.get_bytes_read(), 15);
    stream.seek(SeekFrom::Start(0)).unwrap();
    let mut reader = DecryptReader::new(stream, key(), iv()).unwrap();
    reader.read_exact(20).unwrap();
    reader.seek(SeekFrom::End(-1)).unwrap();
    reader.read(20);
    assert_eq!(reader.get_bytes_read(), 36);
}

#[test]
fn reader_decrypts_what_the_writer_wrote() {
    let plain = text(500);
    let mut stream = ByteStream::new(vec![1, 2, 3]);
    stream.seek(SeekFrom::Start(3)).unwrap();
    let mut writer = EncryptWriter::new(stream, key(), iv());
    writer.write(&plain[..200]).unwrap();
    writer.write(&plain[200..]).unwrap();
    let mut stream = writer.into_inner();
    stream.seek(SeekFrom::Start(3)).unwrap();
    let mut reader = DecryptReader::new(stream, key(), iv()).unwrap();
    assert_eq!(reader.stream_position(), 0);
    assert_eq!(reader.read(100), plain[..100].to_vec());
    assert_eq!(reader.read_exact(150), Ok(plain[100..250].to_vec()));
    assert_eq!(reader.stream_position(), 250);
    assert_eq!(reader.read(1000), plain[250..].to_vec());
    assert_eq!(reader.read(1000), Vec::<u8>::new());
    assert_eq!(reader.read_exact(1), Err(Error::UnexpectedEof));
}

#[test]
fn seeking_the_reader_gives_the_slice_of_the_plaintext() {
    let plain = text(400);
    let mut writer = EncryptWriter::new(ByteStream::new(Vec::new()), key(), iv());
    writer.write(&plain).unwrap();
    let mut stream = writer.into_inner();
    stream.seek(SeekFrom::Start(0)).unwrap();
    let mut reader = DecryptReader::new(stream, key(), iv()).unwrap();
    for (p, n) in [(0u64, 10usize), (399, 1), (65, 130), (1, 0), (400, 0), (128, 64)] {
        assert_eq!(reader.seek(SeekFrom::Start(p)), Ok(p));
        assert_eq!(reader.read_exact(n), Ok(plain[p as usize..p as usize + n].to_vec()));
        assert_eq!(reader.stream_position(), p + n as u64);
    }
    assert_eq!(reader.seek(SeekFrom::End(-5)), Ok(395));
    assert_eq!(reader.read(10), plain[395..].to_vec());
    assert_eq!(reader.seek(SeekFrom::Current(-100)), Ok(300));
    assert_eq!(reader.read(3), plain[300..303].to_vec());
}

#[test]
fn reader_positions_count_from_where_it_was_made() {
    let plain = text(50);
    let mut stream = ByteStream::new(vec![0xaa; 7]);
    stream.seek(SeekFrom::End(0)).unwrap();
    let mut writer = EncryptWriter::new(stream, key(), iv());
    writer.write(&plain).unwrap();
    let mut stream = writer.into_inner();
    stream.seek(SeekFrom::Start(7)).unwrap();
    let mut reader = DecryptReader::new(stream, key(), iv()).unwrap();
    assert_eq!(reader.seek(SeekFrom::Start(20)), Ok(20));
    assert_eq!(reader.read(5), plain[20..25].to_vec());
    // A relative seek that would end before the start ends at it.
    assert_eq!(reader.seek(SeekFrom::Current(-30)), Ok(0));
    assert_eq!(reader.read(5), plain[..5].to_vec());
    assert_eq!(reader.seek(SeekFrom::End(-57)), Ok(0));
    assert_eq!(reader.seek(SeekFrom::End(-50)), Ok(0));
    assert_eq!(reader.seek(SeekFrom::End(-49)), Ok(1));
    // Outside the stream underneath, a seek fails and moves nothing.
    assert_eq!(reader.seek(SeekFrom::Start(51)), Err(Error::InvalidSeek));
    assert_eq!(reader.seek(SeekFrom::Current(-9)), Err(Error::InvalidSeek));
    assert_eq!(reader.seek(SeekFrom::Start(u64::MAX)), Err(Error::InvalidSeek));
    assert_eq!(reader.stream_position(), 1);
    assert_eq!(reader.into_inner().stream_position(), 8);
}

#[test]
fn key_text_is_standard_base64_of_32_bytes() {
    let zero = [0u8; 32];
    let text = encode_key(&zero);
    assert_eq!(text, "AAAAAAAAAAAAAAAAAAAAAAAAAAAAAAAAAAAAAAAAAAA=");
    assert_eq!(parse_key(&text), Ok(zero));
    assert_eq!(encode_key(&[0xff; 32]), "//////////////////////////////////////////8=");
    assert_eq!(parse_key(&encode_key(&key())), Ok(key()));
    assert_ne!(encode_key(&key()).as_bytes(), &key()[..]);
}

#[test]
fn keys_of_other_lengths_are_rejected() {
    // 31 and 33 bytes, and no base64 at all.
    assert_eq!(parse_key("AAAAAAAAAAAAAAAAAAAAAAAAAAAAAAAAAAAAAAAAAA=="), Err(Error::InvalidKey));
    assert_eq!(parse_key("AAAAAAAAAAAAAAAAAAAAAAAAAAAAAAAAAAAAAAAAAAAA"), Err(Error::InvalidKey));
    assert_eq!(parse_key(""), Err(Error::InvalidKey));
    assert_eq!(parse_key("not base64!"), Err(Error::InvalidKey));
}

#[test]
fn generated_keys_and_nonces_are_fresh() {
    let a = generate_key().unwrap();
    let b = generate_key().unwrap();
    assert_ne!(a, b);
    assert_ne!(a, [0u8; 32]);
    let c = generate_iv().unwrap();
    let d = generate_iv().unwrap();
    assert_ne!(c, d);
}

#[test]
fn digest_is_blake3() {
    let empty = hash_bytes(b"");
    let expected: [u8; 32] = [
        0xaf, 0x13, 0x49, 0xb9, 0xf5, 0xf9, 0xa1, 0xa6, 0xa0, 0x40, 0x4d, 0xea, 0x36, 0xdc, 0xc9,
        0x49, 0x9b, 0xcb, 0x25, 0xc9, 0xad, 0xc1, 0x12, 0xb7, 0xcc, 0x9a, 0x93, 0xca, 0xe4, 0x1f,
        0x32, 0x62,
    ];
    assert_eq!(empty, expected);
    assert_ne!(hash_bytes(b"a"), hash_bytes(b"b"));
    assert_ne!(hash_bytes(&[0u8; 32]), [0u8; 32]);
}

#[test]
fn hashing_reader_hashes_what_it_hands_on() {
    let data = text(5000);
    let mut reader = HashingReader::new(ByteStream::new(data.clone()));
    assert_eq!(reader.finalize(), hash_bytes(b""));
    assert_eq!(reader.remaining_len(), 5000);
    let first = reader.read(1234);
    assert_eq!(first, data[..1234].to_vec());
    assert_eq!(reader.finalize(), hash_bytes(&data[..1234]));
    let rest = reader.read(usize::MAX);
    assert_eq!(rest, data[1234..].to_vec());
    assert_eq!(reader.finalize(), hash_bytes(&data));
    assert_eq!(reader.finalize(), hash_bytes(&data));
    assert_eq!(reader.read(1), Vec::<u8>::new());
    assert_eq!(reader.remaining_len(), 0);
}
