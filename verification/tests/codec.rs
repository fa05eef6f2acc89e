//! Tests of the record codec, the locator codec, and the integer codecs.

use bitkv::entry::DataEntry;
use bitkv::entry::State;
use bitkv::file_handle::DataFile;
use bitkv::file_handle::FileHandle;
use bitkv::keydir::decode_keydir_entry;
use bitkv::keydir::KeyDirEntry;
use bitkv::varint::decode_varint;
use bitkv::varint::encode_decimal;
use bitkv::varint::encode_varint;
use bitkv::varint::parse_decimal;

#[test]
fn test_decode() {
    let key = b"key".to_vec();
    let value = b"value".to_vec();
    let data_entry = DataEntry::new(key, value, State::Active);
    let encoded_entry = data_entry.encode().unwrap();
    assert!(encoded_entry.len() > 0);
    let header_buf: Vec<u8> = vec![0, 3, 5];
    let (key_size, value_size, _, state) = DataEntry::decode_header(&header_buf).unwrap();
    let body_buf: Vec<u8> = vec![107, 101, 121, 118, 97, 108, 117, 101, 105, 80, 99, 47];
    let decoded_entry = DataEntry::decode(&body_buf, key_size, value_size, state).unwrap();
    assert_eq!(decoded_entry.get_key(), data_entry.get_key());
    assert_eq!(decoded_entry.get_value(), data_entry.get_value());
    assert_eq!(decoded_entry.get_state(), data_entry.get_state());
}

#[test]
fn test_encode() {
    let key = b"key".to_vec();
    let value = b"value".to_vec();
    let data_entry = DataEntry::new(key, value, State::Active);
    let encoded_entry = data_entry.encode().unwrap();

    let buf = b"\0\x03\x05keyvalue";
    let mut hash = crc32fast::Hasher::new();
    hash.update(buf);
    let crc = hash.finalize();

    let mut entry: Vec<u8> = Vec::new();
    entry.extend_from_slice(buf);
    entry.extend_from_slice(&crc.to_be_bytes());
    assert_eq!(encoded_entry, entry);
}

#[test]
fn test_encode_rejects_empty_record() {
    let entry = DataEntry::new(Vec::new(), Vec::new(), State::Active);
    let err = entry.encode().unwrap_err();
    assert_eq!(err, bitkv::Error::Unsupported(bitkv::Reason::EmptyRecord));
}

#[test]
fn test_datafile_new() {
    let file = DataFile::new(21);
    assert_eq!(file.get_file_id(), 21);
    assert_eq!(file.get_offset(), 0);
}

#[test]
fn test_set_get_offset() {
    let mut file = DataFile::new(1);
    file.set_offset(100);
    assert_eq!(file.get_offset(), 100);
}

#[test]
fn test_filehandle_new() {
    let handle = FileHandle::new(42, Vec::new());
    assert_eq!(handle.get_file_id(), 42);
}

#[test]
fn test_filehandle_read() {
    let mut handle = FileHandle::new(1, Vec::new());
    handle.write(b"helloworld").unwrap();
    let mut read_buf = vec![0; 10];
    handle.read(&mut read_buf, 0).unwrap();
    assert_eq!(read_buf, b"helloworld");
}

#[test]
fn test_varint_roundtrip() {
    for n in [0u64, 1, 127, 128, 300, 16384, u32::MAX as u64, u64::MAX] {
        let mut buf: Vec<u8> = Vec::new();
        encode_varint(n, &mut buf);
        let (v, used) = decode_varint(&buf, 0).unwrap();
        assert_eq!(v, n);
        assert_eq!(used, buf.len());
    }
}

#[test]
fn test_varint_single_byte_values() {
    let mut buf: Vec<u8> = Vec::new();
    encode_varint(5, &mut buf);
    assert_eq!(buf, vec![5]);
    let mut buf2: Vec<u8> = Vec::new();
    encode_varint(300, &mut buf2);
    assert_eq!(buf2, vec![0xac, 0x02]);
}

#[test]
fn test_decimal_roundtrip() {
    for n in [0u32, 7, 10, 255, 1000, u32::MAX] {
        let mut buf: Vec<u8> = Vec::new();
        encode_decimal(n, &mut buf);
        assert_eq!(parse_decimal(&buf), Some(n));
    }
    assert_eq!(parse_decimal(&b"17".to_vec()), Some(17));
    assert_eq!(parse_decimal(&Vec::new()), None);
    assert_eq!(parse_decimal(&b"1x2".to_vec()), None);
    assert_eq!(parse_decimal(&b"4294967296".to_vec()), None);
}

#[test]
fn test_keydir_encode_roundtrip() {
    let kd = KeyDirEntry::new(7, 123456789, 42);
    let encoded = kd.encode();
    let decoded = decode_keydir_entry(&encoded).unwrap();
    assert_eq!(decoded.get_file_id(), 7);
    assert_eq!(decoded.get_offset(), 123456789);
    assert_eq!(decoded.get_size(), 42);
}

#[test]
fn test_extract_detects_corruption() {
    let entry = DataEntry::new(b"k".to_vec(), b"v".to_vec(), State::Active);
    let mut bytes = entry.encode().unwrap();
    let mut handle = FileHandle::new(0, Vec::new());
    handle.write(&bytes).unwrap();
    // A clean record reads back.
    let (read, size) = handle.extract_data_entry(0).unwrap();
    assert_eq!(read.get_value(), &b"v".to_vec());
    assert_eq!(size, bytes.len());
    // Flipping a checksum byte turns the read into a checksum error.
    let last = bytes.len() - 1;
    bytes[last] ^= 0xff;
    let corrupt = FileHandle::new(0, bytes);
    let err = corrupt.extract_data_entry(0).unwrap_err();
    assert_eq!(err, bitkv::Error::Unsupported(bitkv::Reason::CrcMismatch));
    assert_eq!(err.message(), "CRC check failed");
}

#[test]
fn test_state_bytes() {
    assert_eq!(State::from_byte(0), Some(State::Active));
    assert_eq!(State::from_byte(1), Some(State::Inactive));
    assert_eq!(State::from_byte(2), Some(State::Committed));
    assert_eq!(State::from_byte(3), None);
    assert_eq!(State::Active.to_byte(), 0);
    assert_eq!(State::Inactive.to_byte(), 1);
    assert_eq!(State::Committed.to_byte(), 2);
}
