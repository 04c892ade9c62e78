use hpak::compress::decode_method;
use hpak::compress::encode_method;
use hpak::compress::CompressionMethod;
use hpak::format::decode_dir_entry;
use hpak::format::decode_file_entry;
use hpak::format::decode_header;
use hpak::format::HpakDirectoryEntry;
use hpak::format::HpakFileEntry;
use hpak::format::HpakHeader;

#[test]
fn test_header_encode_decode() {
    let header = HpakHeader::new(CompressionMethod::Zlib, 42);
    let mut bytes = Vec::new();
    header.encode(&mut bytes);
    let decoded = decode_header(&bytes).unwrap();

    assert_eq!(bytes.len(), 17);
    assert_eq!(
        header.meta_compression_method,
        decoded.meta_compression_method
    );
    assert_eq!(header.entries_offset, decoded.entries_offset);
}

#[test]
fn test_entry_encode_decode() {
    let entry = HpakFileEntry::new(42, CompressionMethod::Zlib, 42, 16, 32);
    let mut bytes = Vec::new();
    entry.encode(&mut bytes);
    let (decoded, used) = decode_file_entry(&bytes, 0).unwrap();

    assert_eq!(entry.compression_method, decoded.compression_method);
    assert_eq!(entry.meta_offset, decoded.meta_offset);
    assert_eq!(entry.meta_size, decoded.meta_size);
    assert_eq!(entry.data_size, decoded.data_size);
    assert_eq!(entry.hash(), decoded.hash());
    assert_eq!(used, bytes.len());
}

#[test]
fn directory_entry_encode_decode() {
    let entry = HpakDirectoryEntry::new(7, vec![b"a".to_vec(), b"a/b.txt".to_vec()]);
    let mut bytes = Vec::new();
    entry.encode(&mut bytes);
    let (decoded, used) = decode_dir_entry(&bytes, 0).unwrap();

    assert_eq!(decoded.hash(), 7);
    assert_eq!(decoded.entries, vec![b"a".to_vec(), b"a/b.txt".to_vec()]);
    assert_eq!(used, bytes.len());
}

#[test]
fn compression_method_encode_decode() {
    for m in [CompressionMethod::Stored, CompressionMethod::Zlib] {
        let tag = encode_method(m);
        assert_eq!(decode_method(tag).unwrap(), m);
    }
}

#[test]
#[should_panic]
fn if_fails_to_decode_invalid_compression_method() {
    let _ = decode_method(u8::MAX).unwrap();
}

#[test]
fn bad_magic_is_invalid_file_format() {
    let header = HpakHeader::new(CompressionMethod::Stored, 0);
    let mut bytes = Vec::new();
    header.encode(&mut bytes);
    bytes[0] ^= 0xFF;
    assert!(matches!(
        decode_header(&bytes),
        Err(hpak::errors::Error::InvalidFileFormat)
    ));
}

#[test]
fn bad_version_is_reported_with_the_value_found() {
    let header = HpakHeader::new(CompressionMethod::Stored, 0);
    let mut bytes = Vec::new();
    header.encode(&mut bytes);
    bytes[4] = 7;
    assert!(matches!(
        decode_header(&bytes),
        Err(hpak::errors::Error::BadVersion(7))
    ));
}

#[test]
fn invalid_utf8_path_is_rejected() {
    // a directory entry whose single child is not UTF-8
    let entry = HpakDirectoryEntry::new(9, vec![vec![0xFF, 0xFE]]);
    let mut bytes = Vec::new();
    entry.encode(&mut bytes);
    assert!(matches!(
        decode_dir_entry(&bytes, 0),
        Err(hpak::errors::Error::InvalidUtf8)
    ));
}
