use hpak::compress::compress;
use hpak::compress::CompressionMethod;
use hpak::errors::Error;
use hpak::format::encode_entries;
use hpak::format::HpakDirectoryEntry;
use hpak::format::HpakFileEntry;
use hpak::format::HpakHeader;
use hpak::paths::hash_path;
use hpak::reader::HpakReader;
use hpak::reader::SeekTarget;
use hpak::writer::HpakWriter;

fn collect_dir(reader: &HpakReader, path: &[u8]) -> Vec<Vec<u8>> {
    let mut stream = reader.read_directory(path).unwrap();
    let expected = stream.len();
    let mut out = Vec::new();
    while let Some(p) = stream.next() {
        out.push(p);
    }
    assert_eq!(out.len(), expected);
    out.sort();
    out
}

#[test]
fn test_no_compression() {
    let mut writer = HpakWriter::new();
    writer.meta_compression(CompressionMethod::Stored);
    writer.minify_metadata(false);
    writer.with_alignment(0).unwrap();

    let path_1 = "ä/b.data".as_bytes();
    let meta_1 = b"meta_1";
    let data_1 = b"data_1";
    let path_2 = b"a/b/c.data";
    let meta_2 = b"meta_2";
    let data_2 = b"data_2";

    writer
        .add_entry(path_1, meta_1, data_1, Some(CompressionMethod::Stored))
        .unwrap();
    writer
        .add_entry(path_2, meta_2, data_2, Some(CompressionMethod::Stored))
        .unwrap();
    let output = writer.finalize().unwrap();

    let mut ground_truth = Vec::new();
    HpakHeader::new(CompressionMethod::Stored, 17 + 24).encode(&mut ground_truth);
    ground_truth.extend_from_slice(b"meta_1");
    ground_truth.extend_from_slice(b"data_1");
    ground_truth.extend_from_slice(b"meta_2");
    ground_truth.extend_from_slice(b"data_2");
    let dirs = vec![
        HpakDirectoryEntry::new(
            hash_path("ä".as_bytes()),
            vec!["ä/b.data".as_bytes().to_vec()],
        ),
        HpakDirectoryEntry::new(
            hash_path(b""),
            vec!["ä".as_bytes().to_vec(), b"a".to_vec()],
        ),
        HpakDirectoryEntry::new(hash_path(b"a/b"), vec![b"a/b/c.data".to_vec()]),
        HpakDirectoryEntry::new(hash_path(b"a"), vec![b"a/b".to_vec()]),
    ];
    let files = vec![
        HpakFileEntry::new(
            hash_path("ä/b.data".as_bytes()),
            CompressionMethod::Stored,
            17,
            6,
            6,
        ),
        HpakFileEntry::new(hash_path(b"a/b/c.data"), CompressionMethod::Stored, 29, 6, 6),
    ];
    encode_entries(&dirs, &files, &mut ground_truth);

    assert_eq!(ground_truth, output);
}

#[test]
fn test_deflate_compression() {
    let mut writer = HpakWriter::new();
    writer.meta_compression(CompressionMethod::Zlib);
    writer.minify_metadata(false);
    writer.with_alignment(0).unwrap();

    let path_1 = "ä/b.data".as_bytes();
    let meta_1 = b"meta_1";
    let data_1 = b"data_1";
    let path_2 = b"a/b/c.data";
    let meta_2 = b"meta_2";
    let data_2 = b"data_2";

    let meta_1_compressed = compress(CompressionMethod::Zlib, meta_1);
    let data_1_compressed = compress(CompressionMethod::Zlib, data_1);
    let meta_2_compressed = compress(CompressionMethod::Zlib, meta_2);
    let data_2_compressed = compress(CompressionMethod::Zlib, data_2);

    writer
        .add_entry(path_1, meta_1, data_1, Some(CompressionMethod::Zlib))
        .unwrap();
    writer
        .add_entry(path_2, meta_2, data_2, Some(CompressionMethod::Zlib))
        .unwrap();
    let output = writer.finalize().unwrap();

    let offset_1 = 17u64;
    let offset_2 = offset_1 + (meta_1_compressed.len() + data_1_compressed.len()) as u64;
    let entries_offset = offset_2 + (meta_2_compressed.len() + data_2_compressed.len()) as u64;

    let mut ground_truth = Vec::new();
    HpakHeader::new(CompressionMethod::Zlib, entries_offset).encode(&mut ground_truth);
    ground_truth.extend_from_slice(&meta_1_compressed);
    ground_truth.extend_from_slice(&data_1_compressed);
    ground_truth.extend_from_slice(&meta_2_compressed);
    ground_truth.extend_from_slice(&data_2_compressed);
    let dirs = vec![
        HpakDirectoryEntry::new(
            hash_path("ä".as_bytes()),
            vec!["ä/b.data".as_bytes().to_vec()],
        ),
        HpakDirectoryEntry::new(
            hash_path(b""),
            vec!["ä".as_bytes().to_vec(), b"a".to_vec()],
        ),
        HpakDirectoryEntry::new(hash_path(b"a/b"), vec![b"a/b/c.data".to_vec()]),
        HpakDirectoryEntry::new(hash_path(b"a"), vec![b"a/b".to_vec()]),
    ];
    let files = vec![
        HpakFileEntry::new(
            hash_path("ä/b.data".as_bytes()),
            CompressionMethod::Zlib,
            offset_1,
            meta_1_compressed.len() as u64,
            data_1_compressed.len() as u64,
        ),
        HpakFileEntry::new(
            hash_path(b"a/b/c.data"),
            CompressionMethod::Zlib,
            offset_2,
            meta_2_compressed.len() as u64,
            data_2_compressed.len() as u64,
        ),
    ];
    encode_entries(&dirs, &files, &mut ground_truth);

    assert_eq!(ground_truth, output);
}

#[test]
fn queue_build_reopen_and_read_back() {
    let mut writer = HpakWriter::new();
    writer.with_alignment(0).unwrap();
    writer
        .add_entry(
            b"a/b.txt",
            br#"{"k":1}"#,
            b"hello",
            Some(CompressionMethod::Stored),
        )
        .unwrap();
    let bytes = writer.finalize().unwrap();

    let reader = HpakReader::new(bytes).unwrap();
    let mut data = reader.read_data(b"a/b.txt").unwrap();
    assert_eq!(data.read_to_end(), b"hello".to_vec());
    let mut meta = reader.read_meta(b"a/b.txt").unwrap();
    assert_eq!(meta.read_to_end(), br#"{"k":1}"#.to_vec());

    assert_eq!(collect_dir(&reader, b"a"), vec![b"a/b.txt".to_vec()]);
    assert_eq!(collect_dir(&reader, b""), vec![b"a".to_vec()]);
    assert!(reader.is_directory(b"a"));
    assert!(!reader.is_directory(b"a/b.txt"));
}

#[test]
fn duplicate_archive_paths_are_rejected() {
    let mut writer = HpakWriter::new();
    writer
        .add_entry(b"a/b.txt", b"m", b"d", Some(CompressionMethod::Stored))
        .unwrap();
    let err = writer
        .add_entry(b"a/b.txt", b"m", b"d", Some(CompressionMethod::Stored))
        .unwrap_err();
    assert!(matches!(err, Error::DuplicateEntry(p) if p == b"a/b.txt".to_vec()));

    // a path that normalizes to the same key collides too
    let mut other = HpakWriter::new();
    other
        .add_entry(b"a/b.txt", b"m", b"d", Some(CompressionMethod::Stored))
        .unwrap();
    let err = other
        .add_entry(b"a\\b.txt", b"m", b"d", Some(CompressionMethod::Stored))
        .unwrap_err();
    assert!(matches!(err, Error::DuplicateEntry(_)));
}

#[test]
fn corrupted_magic_and_version_are_rejected() {
    let mut writer = HpakWriter::new();
    writer
        .add_entry(b"x", b"m", b"d", Some(CompressionMethod::Stored))
        .unwrap();
    let bytes = writer.finalize().unwrap();

    let mut bad_magic = bytes.clone();
    bad_magic[0] ^= 0xFF;
    assert!(matches!(
        HpakReader::new(bad_magic),
        Err(Error::InvalidFileFormat)
    ));

    let mut bad_version = bytes.clone();
    bad_version[4] = 99;
    bad_version[5] = 0;
    bad_version[6] = 0;
    bad_version[7] = 0;
    assert!(matches!(
        HpakReader::new(bad_version),
        Err(Error::BadVersion(99))
    ));
}

#[test]
fn forward_seek_equals_read_and_discard() {
    for method in [CompressionMethod::Stored, CompressionMethod::Zlib] {
        let mut writer = HpakWriter::new();
        writer.with_alignment(0).unwrap();
        let payload = b"the quick brown fox jumps over the lazy dog";
        writer
            .add_entry(b"f.bin", b"", payload, Some(method))
            .unwrap();
        let bytes = writer.finalize().unwrap();
        let reader = HpakReader::new(bytes).unwrap();

        let mut seeked = reader.read_data(b"f.bin").unwrap();
        assert_eq!(seeked.seek_forward(9), 9);
        let after_seek = seeked.read_to_end();

        let mut discarded = reader.read_data(b"f.bin").unwrap();
        let skipped = discarded.read(9);
        assert_eq!(skipped, payload[..9].to_vec());
        let after_discard = discarded.read_to_end();

        assert_eq!(after_seek, after_discard);
        assert_eq!(after_seek, payload[9..].to_vec());
    }
}

#[test]
fn backward_and_absolute_seeks_are_rejected() {
    let mut writer = HpakWriter::new();
    writer
        .add_entry(b"f.bin", b"", b"0123456789", Some(CompressionMethod::Zlib))
        .unwrap();
    let bytes = writer.finalize().unwrap();
    let reader = HpakReader::new(bytes).unwrap();
    let mut er = reader.read_data(b"f.bin").unwrap();

    er.seek_forward(4);
    assert!(matches!(
        er.seek(SeekTarget::Start(0)),
        Err(Error::UnsupportedSeek)
    ));
    assert!(matches!(
        er.seek(SeekTarget::Current(-1)),
        Err(Error::UnsupportedSeek)
    ));
    assert!(matches!(
        er.seek(SeekTarget::End(0)),
        Err(Error::UnsupportedSeek)
    ));
    // the cursor is untouched by the rejected requests
    assert_eq!(er.read_to_end(), b"456789".to_vec());
}

#[test]
fn entries_after_finalize_are_rejected() {
    let mut writer = HpakWriter::new();
    writer
        .add_entry(b"x", b"m", b"d", Some(CompressionMethod::Stored))
        .unwrap();
    let _ = writer.finalize().unwrap();
    assert!(matches!(
        writer.add_entry(b"y", b"m", b"d", Some(CompressionMethod::Stored)),
        Err(Error::CannotAddEntryAfterFinalize)
    ));
    assert!(matches!(
        writer.finalize(),
        Err(Error::CannotAddEntryAfterFinalize)
    ));
}

#[test]
fn missing_entries_and_bad_alignment_report_their_errors() {
    let mut writer = HpakWriter::new();
    assert!(matches!(
        writer.with_alignment(3),
        Err(Error::InvalidAlignment(3))
    ));
    writer
        .add_entry(b"x", b"m", b"d", Some(CompressionMethod::Stored))
        .unwrap();
    let bytes = writer.finalize().unwrap();
    let reader = HpakReader::new(bytes).unwrap();
    assert!(matches!(
        reader.read_data(b"missing"),
        Err(Error::EntryNotFound(_))
    ));
    assert!(matches!(
        reader.read_directory(b"missing"),
        Err(Error::EntryNotFound(_))
    ));
    assert!(matches!(
        writer.add_entry(&[0xFF, 0xFE][..], b"m", b"d", None),
        Err(Error::CannotAddEntryAfterFinalize)
    ));

    let mut fresh = HpakWriter::new();
    assert!(matches!(
        fresh.add_entry(&[0xFF, 0xFE][..], b"m", b"d", None),
        Err(Error::InvalidUtf8)
    ));
}

#[test]
fn alignment_pads_entries_to_the_boundary() {
    let mut writer = HpakWriter::new();
    writer.with_alignment(64).unwrap();
    writer.minify_metadata(false);
    writer
        .add_entry(b"a.bin", b"mm", b"dd", Some(CompressionMethod::Stored))
        .unwrap();
    writer
        .add_entry(b"b.bin", b"nn", b"ee", Some(CompressionMethod::Stored))
        .unwrap();
    let bytes = writer.finalize().unwrap();

    // the first entry starts at 64, the second at 128
    assert_eq!(&bytes[64..68], b"mmdd");
    assert_eq!(&bytes[128..132], b"nnee");
    let reader = HpakReader::new(bytes).unwrap();
    let mut first = reader.read_data(b"a.bin").unwrap();
    assert_eq!(first.read_to_end(), b"dd".to_vec());
    let mut second = reader.read_data(b"b.bin").unwrap();
    assert_eq!(second.read_to_end(), b"ee".to_vec());
}

#[test]
fn metadata_is_minified_on_the_way_in() {
    let mut writer = HpakWriter::new();
    writer.with_alignment(0).unwrap();
    writer
        .add_entry(
            b"a.txt",
            b"{ \"k\" : 1 } // trailing note",
            b"d",
            Some(CompressionMethod::Stored),
        )
        .unwrap();
    let bytes = writer.finalize().unwrap();
    let reader = HpakReader::new(bytes).unwrap();
    let mut meta = reader.read_meta(b"a.txt").unwrap();
    assert_eq!(meta.read_to_end(), b"{\"k\":1}".to_vec());
}

#[test]
fn extension_rules_pick_the_data_method() {
    let mut writer = HpakWriter::new();
    writer.default_data_compression(CompressionMethod::Stored);
    writer.default_compression_for_extension(b"txt", CompressionMethod::Zlib);
    assert_eq!(
        writer.compression_for_path(b"notes/readme.txt"),
        CompressionMethod::Zlib
    );
    assert_eq!(
        writer.compression_for_path(b"image.png"),
        CompressionMethod::Stored
    );
    // a later rule for the same extension replaces the earlier one
    writer.default_compression_for_extension(b"txt", CompressionMethod::Stored);
    assert_eq!(
        writer.compression_for_path(b"notes/readme.txt"),
        CompressionMethod::Stored
    );
}

#[test]
fn deep_trees_list_only_immediate_children() {
    let mut writer = HpakWriter::new();
    writer.with_alignment(0).unwrap();
    for (p, d) in [
        (&b"a/b/c/deep.txt"[..], &b"1"[..]),
        (b"a/b/flat.txt", b"2"),
        (b"a/top.txt", b"3"),
        (b"root.txt", b"4"),
    ] {
        writer
            .add_entry(p, b"", d, Some(CompressionMethod::Stored))
            .unwrap();
    }
    let bytes = writer.finalize().unwrap();
    let reader = HpakReader::new(bytes).unwrap();

    assert_eq!(
        collect_dir(&reader, b""),
        vec![b"a".to_vec(), b"root.txt".to_vec()]
    );
    assert_eq!(
        collect_dir(&reader, b"a"),
        vec![b"a/b".to_vec(), b"a/top.txt".to_vec()]
    );
    assert_eq!(
        collect_dir(&reader, b"a/b"),
        vec![b"a/b/c".to_vec(), b"a/b/flat.txt".to_vec()]
    );
    assert_eq!(collect_dir(&reader, b"a/b/c"), vec![b"a/b/c/deep.txt".to_vec()]);
    assert!(reader.is_directory(b"a/b/c"));
    assert!(!reader.is_directory(b"a/b/c/deep.txt"));
    assert!(!reader.is_directory(b"elsewhere"));
}
