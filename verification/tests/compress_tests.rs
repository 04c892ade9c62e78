use hpak::compress::compress;
use hpak::compress::decompress;
use hpak::compress::CompressionMethod;
use hpak::compress::WriterCounter;
use hpak::paths::hash_path;
use hpak::paths::normalize_path;
use std::io::Read;

#[test]
fn it_compress_decompress() {
    let bytes = b"Hello World!".to_vec();

    let encoded = compress(CompressionMethod::Zlib, &bytes);
    let size = encoded.len() as u64;
    assert_eq!(encoded.len() as u64, size);

    let mut decoded = Vec::new();
    flate2::read::ZlibDecoder::new(std::io::Cursor::new(encoded))
        .read_to_end(&mut decoded)
        .unwrap();

    assert_eq!(bytes, decoded);
}

#[test]
fn compress_round_trips_through_decompress() {
    let bytes = b"some text that deflate can shrink: aaaaaaaaaaaaaaaaaaaaaaaa".to_vec();
    for method in [CompressionMethod::Stored, CompressionMethod::Zlib] {
        let encoded = compress(method, &bytes);
        let decoded = decompress(method, &encoded).unwrap();
        assert_eq!(bytes, decoded);
    }
}

#[test]
fn zlib_output_differs_from_its_input() {
    let bytes = b"Hello World! Hello World! Hello World!".to_vec();
    let encoded = compress(CompressionMethod::Zlib, &bytes);
    assert_ne!(bytes, encoded);
}

#[test]
fn garbage_is_rejected_by_the_decoder() {
    let garbage = vec![0xDE, 0xAD, 0xBE, 0xEF];
    assert!(decompress(CompressionMethod::Zlib, &garbage).is_err());
}

#[test]
fn writer_counter_reports_exact_bytes() {
    let mut counter = WriterCounter::new(Vec::new());
    counter.write(b"abc");
    counter.write(b"");
    counter.write(b"defg");
    assert_eq!(counter.total_out(), 7);
    assert_eq!(counter.into_inner(), b"abcdefg".to_vec());
}

#[test]
fn it_encode_decode_pathbuf_windows() {
    let normalized = normalize_path(br"Hello\World\my_file.txt");
    assert_eq!(
        String::from("Hello/World/my_file.txt"),
        String::from_utf8(normalized).unwrap()
    );
}

#[test]
fn hashing_normalizes_first_and_separates_paths() {
    assert_eq!(hash_path(b"a/b"), hash_path(b"a\\b"));
    assert_eq!(hash_path(b"a/b"), hash_path(b"/a//b/"));
    assert_ne!(hash_path(b"a"), hash_path(b"b"));
    assert_ne!(hash_path(b"a/b"), hash_path(b"a"));
}
