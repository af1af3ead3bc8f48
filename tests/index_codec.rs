use git_index::{
    checksum_matches, common_prefix, decode, decode_path, decode_with, digest_prefix, encode, encode_entry,
    encode_extension, encode_header, entries_in_order, magic_bytes, parse_extensions, parse_header,
    parse_index_entry, parse_index_extension, path_less, Component, ErrorKind, Index, IndexEntry,
    IndexExtension, IndexHeader, CHECKSUM_LEN, ENTRY_FIXED_LEN, EXTENSION_HEADER_LEN, HEADER_LEN,
};

fn header_bytes(version: u32, count: u32) -> Vec<u8> {
    let mut v = b"DIRC".to_vec();
    v.extend_from_slice(&version.to_be_bytes());
    v.extend_from_slice(&count.to_be_bytes());
    v
}

/// The fixed fields of an entry: ten words (the last one the file size), an
/// object id of `0xAB` bytes and the flags word.
fn fixed_fields(file_size: u32, flags: u16) -> Vec<u8> {
    let mut v = Vec::new();
    for w in 0..9u32 {
        v.extend_from_slice(&(w + 1).to_be_bytes());
    }
    v.extend_from_slice(&file_size.to_be_bytes());
    v.extend_from_slice(&[0xABu8; 20]);
    v.extend_from_slice(&flags.to_be_bytes());
    v
}

/// A version 2 entry with its path and NUL padding to a multiple of eight.
fn entry_v2(path: &[u8], file_size: u32) -> Vec<u8> {
    let mut v = fixed_fields(file_size, path.len() as u16);
    v.extend_from_slice(path);
    let pad = 8 - v.len() % 8;
    v.extend(std::iter::repeat(0u8).take(pad));
    v
}

fn extension_bytes(sig: &[u8], payload: &[u8]) -> Vec<u8> {
    let mut v = sig.to_vec();
    v.extend_from_slice(&(payload.len() as u32).to_be_bytes());
    v.extend_from_slice(payload);
    v
}

fn with_checksum(mut body: Vec<u8>) -> Vec<u8> {
    let digest = sha1_smol::Sha1::from(&body[..]).digest().bytes();
    body.extend_from_slice(&digest);
    body
}

/// A version 2 index with one entry for a two-byte file.
fn sample_index() -> Vec<u8> {
    let mut body = header_bytes(2, 1);
    body.extend(entry_v2(b"README", 2));
    with_checksum(body)
}

fn entry(path: &[u8], flags: u16, extended_flags: Option<u16>) -> IndexEntry {
    IndexEntry {
        ctime_s: 1,
        ctime_ns: 2,
        mtime_s: 3,
        mtime_ns: 4,
        dev: 5,
        ino: 6,
        mode: 0o100644,
        uid: 7,
        gid: 8,
        file_size: 9,
        sha_1: vec![0x11u8; 20],
        flags,
        extended_flags,
        path: path.to_vec(),
    }
}

fn index_of(version: u32, entries: Vec<IndexEntry>, extensions: Vec<IndexExtension>) -> Index {
    Index {
        header: IndexHeader { version, index_entries: entries.len() as u32 },
        entries,
        extensions,
        sha1_checksum: vec![0u8; 20],
    }
}

#[test]
fn test_parse_header() {
    let d = sample_index();
    let header = parse_header(&d).unwrap();
    assert_eq!(header.version, 2);
    assert_eq!(header.index_entries, 1);
}

#[test]
fn test_parse_index_extension() {
    let d: &[u8] = b"ABCD\x00\x00\x00\x01\x02";
    let (extension, next) = parse_index_extension(d, 0, d.len()).unwrap();

    assert_eq!(extension.signature, b"ABCD");
    assert_eq!(extension.data, &[2]);
    assert_eq!(next, d.len());
}

#[test]
fn test_parse_index_entry() {
    let d = sample_index();
    let header = parse_header(&d).unwrap();

    let (index_entry, _) = parse_index_entry(&d, HEADER_LEN, header.version, &[]).unwrap();

    assert_eq!(index_entry.file_size, 2);
    assert_eq!(index_entry.path, b"README");
}

#[test]
fn decodes_one_entry_version_two() {
    let d = sample_index();
    assert_eq!(ENTRY_FIXED_LEN, 62);
    let idx = decode(&d).unwrap();
    assert_eq!(idx.header, IndexHeader { version: 2, index_entries: 1 });
    assert_eq!(idx.entries.len(), 1);
    let e = &idx.entries[0];
    assert_eq!(e.ctime_s, 1);
    assert_eq!(e.gid, 9);
    assert_eq!(e.file_size, 2);
    assert_eq!(e.sha_1, vec![0xABu8; 20]);
    assert_eq!(e.flags, 6);
    assert_eq!(e.extended_flags, None);
    assert_eq!(e.path, b"README");
    assert!(idx.extensions.is_empty());
    assert_eq!(idx.sha1_checksum, d[d.len() - 20..].to_vec());
}

#[test]
fn entry_record_is_padded_to_eight_bytes() {
    let d = sample_index();
    let (_, next) = parse_index_entry(&d, HEADER_LEN, 2, &[]).unwrap();
    // 62 fixed bytes + 6 path bytes, padded with NULs to 72.
    assert_eq!(next, HEADER_LEN + 72);
}

#[test]
fn optional_extension_is_kept_opaque() {
    let mut body = header_bytes(2, 1);
    body.extend(entry_v2(b"a", 1));
    body.extend(extension_bytes(b"TREE", b"\xff\x00not a tree"));
    let d = with_checksum(body);
    let idx = decode(&d).unwrap();
    assert_eq!(idx.extensions.len(), 1);
    assert_eq!(idx.extensions[0].signature, b"TREE");
    assert_eq!(idx.extensions[0].data, b"\xff\x00not a tree");
}

#[test]
fn mandatory_extension_is_refused() {
    let mut body = header_bytes(2, 1);
    body.extend(entry_v2(b"a", 1));
    let ext_at = body.len();
    body.extend(extension_bytes(b"link", b"1234"));
    let d = with_checksum(body);
    let err = decode(&d).unwrap_err();
    assert_eq!(err.kind, ErrorKind::UnsupportedMandatoryExtension);
    assert_eq!(err.component, Component::Extension);
    assert_eq!(err.offset, ext_at);
}

#[test]
fn flipped_byte_fails_checksum() {
    let mut body = header_bytes(2, 1);
    body.extend(entry_v2(b"a", 1));
    let payload_at = body.len() + 8;
    body.extend(extension_bytes(b"TREE", b"payload"));
    let d = with_checksum(body);
    let body_end = d.len() - 20;
    let mut offsets: Vec<usize> = (HEADER_LEN..HEADER_LEN + 60).collect();
    offsets.extend(payload_at..payload_at + 7);
    for i in offsets {
        let mut bad = d.clone();
        bad[i] ^= 0x01;
        let err = decode(&bad).unwrap_err();
        assert_eq!(err.kind, ErrorKind::ChecksumMismatch, "byte {}", i);
        assert_eq!(err.offset, body_end);
    }
    assert!(decode(&d).is_ok());
}

#[test]
fn strip_count_beyond_previous_path_fails() {
    let mut body = header_bytes(4, 1);
    body.extend(fixed_fields(1, 1));
    body.push(1); // strip count 1, but the previous path is empty
    body.extend_from_slice(b"a\0");
    let d = with_checksum(body);
    let err = decode(&d).unwrap_err();
    assert_eq!(err.kind, ErrorKind::InvalidPathEncoding);
}

#[test]
fn truncated_entry_fails_at_end_of_input() {
    let mut d = header_bytes(2, 1);
    d.extend(vec![0u8; 30]);
    let err = decode(&d).unwrap_err();
    assert_eq!(err.kind, ErrorKind::TruncatedInput);
    assert_eq!(err.offset, d.len());
    let err = parse_index_entry(&d, HEADER_LEN, 2, &[]).unwrap_err();
    assert_eq!(err.kind, ErrorKind::TruncatedInput);
    assert_eq!(err.offset, 42);
}

#[test]
fn header_errors() {
    let mut d = sample_index();
    d[0] = b'X';
    assert_eq!(decode(&d).unwrap_err().kind, ErrorKind::InvalidMagic);
    let mut d = sample_index();
    d[7] = 5;
    let err = decode(&d).unwrap_err();
    assert_eq!(err.kind, ErrorKind::UnsupportedVersion);
    assert_eq!(err.offset, 4);
    assert_eq!(decode(b"DIRC\0\0").unwrap_err().kind, ErrorKind::TruncatedInput);
    assert_eq!(decode(b"").unwrap_err().kind, ErrorKind::TruncatedInput);
}

#[test]
fn missing_checksum_is_truncated_input() {
    let mut d = header_bytes(2, 1);
    d.extend(entry_v2(b"a", 1));
    d.extend(vec![0u8; 19]);
    let err = decode(&d).unwrap_err();
    assert_eq!(err.kind, ErrorKind::TruncatedInput);
    assert_eq!(err.component, Component::Checksum);
}

#[test]
fn extension_past_its_area_is_trailing_data() {
    let mut body = header_bytes(2, 1);
    body.extend(entry_v2(b"a", 1));
    let ext_at = body.len();
    body.extend_from_slice(b"TREE\x00\x00\x00\x09abc");
    let d = with_checksum(body);
    let err = decode(&d).unwrap_err();
    assert_eq!(err.kind, ErrorKind::TrailingExtensionData);
    assert_eq!(err.offset, ext_at);

    let mut body = header_bytes(2, 1);
    body.extend(entry_v2(b"a", 1));
    body.extend_from_slice(b"TRE");
    let err = decode(&with_checksum(body)).unwrap_err();
    assert_eq!(err.kind, ErrorKind::TrailingExtensionData);
}

#[test]
fn parse_extensions_reads_all_in_order() {
    let mut d = extension_bytes(b"TREE", b"x");
    d.extend(extension_bytes(b"REUC", b""));
    let xs = parse_extensions(&d, 0, d.len()).unwrap();
    assert_eq!(xs.len(), 2);
    assert_eq!(xs[0].signature, b"TREE");
    assert_eq!(xs[1].signature, b"REUC");
    assert!(xs[1].data.is_empty());
}

#[test]
fn sentinel_length_scans_for_terminator() {
    let path = vec![b'p'; 0x1000];
    let mut body = header_bytes(2, 1);
    let mut e = fixed_fields(3, 0x0FFF);
    e.extend_from_slice(&path);
    let pad = 8 - e.len() % 8;
    e.extend(std::iter::repeat(0u8).take(pad));
    body.extend(e);
    let d = with_checksum(body);
    let idx = decode(&d).unwrap();
    assert_eq!(idx.entries[0].path, path);
    assert_eq!(encode(&idx).unwrap(), d);
}

#[test]
fn short_path_with_sentinel_length() {
    let mut body = header_bytes(2, 1);
    let mut e = fixed_fields(3, 0x0FFF);
    e.extend_from_slice(b"abc");
    let pad = 8 - e.len() % 8;
    e.extend(std::iter::repeat(0u8).take(pad));
    body.extend(e);
    let idx = decode(&with_checksum(body)).unwrap();
    assert_eq!(idx.entries[0].path, b"abc");
}

#[test]
fn path_without_terminator_is_truncated() {
    let mut d = header_bytes(2, 1);
    d.extend(fixed_fields(3, 4));
    d.extend_from_slice(b"abcd");
    let err = decode(&d).unwrap_err();
    assert_eq!(err.kind, ErrorKind::TruncatedInput);
}

#[test]
fn out_of_order_entries_are_refused() {
    let mut body = header_bytes(2, 2);
    body.extend(entry_v2(b"b", 1));
    body.extend(entry_v2(b"a", 1));
    let err = decode(&with_checksum(body)).unwrap_err();
    assert_eq!(err.kind, ErrorKind::InvalidPathEncoding);

    let mut body = header_bytes(2, 2);
    body.extend(entry_v2(b"a", 1));
    body.extend(entry_v2(b"a", 1));
    assert!(decode(&with_checksum(body)).is_err());
}

#[test]
fn encode_refuses_unsorted_entries() {
    let idx = index_of(2, vec![entry(b"b", 1, None), entry(b"a", 1, None)], vec![]);
    assert!(!entries_in_order(&idx.entries));
    assert_eq!(encode(&idx), None);
    let dup = index_of(2, vec![entry(b"a", 1, None), entry(b"a", 1, None)], vec![]);
    assert_eq!(encode(&dup), None);
}

#[test]
fn decode_then_encode_version_two() {
    let mut body = header_bytes(2, 2);
    body.extend(entry_v2(b"dir/a", 1));
    body.extend(entry_v2(b"dir/b.txt", 7));
    body.extend(extension_bytes(b"TREE", b"opaque"));
    let d = with_checksum(body);
    let idx = decode(&d).unwrap();
    assert_eq!(encode(&idx).unwrap(), d);
}

#[test]
fn version_three_extended_flags_round_trip() {
    let x = entry(b"x", 0x4001, Some(0x2000));
    let y = entry(b"y", 0x0001, None);
    let idx = index_of(3, vec![x.clone(), y.clone()], vec![]);
    let bytes = encode(&idx).unwrap();
    let back = decode(&bytes).unwrap();
    assert_eq!(back.entries, vec![x, y]);
    assert_eq!(encode(&back).unwrap(), bytes);
}

#[test]
fn version_four_compresses_against_previous_path() {
    let entries = vec![
        entry(b"src/lib.rs", 10, None),
        entry(b"src/main.rs", 11, None),
        entry(b"tests/a.rs", 10, None),
    ];
    let idx = index_of(4, entries.clone(), vec![IndexExtension { signature: b"TREE".to_vec(), data: vec![1, 2, 3] }]);
    let bytes = encode(&idx).unwrap();
    // Second entry: strip "lib.rs" (6 bytes) and append "main.rs".
    let second = HEADER_LEN + ENTRY_FIXED_LEN + 1 + b"src/lib.rs".len() + 1;
    assert_eq!(bytes[second + ENTRY_FIXED_LEN], 6);
    assert_eq!(&bytes[second + ENTRY_FIXED_LEN + 1..second + ENTRY_FIXED_LEN + 9], b"main.rs\0");
    let back = decode(&bytes).unwrap();
    assert_eq!(back.entries, entries);
    assert_eq!(back.extensions, idx.extensions);
    assert_eq!(encode(&back).unwrap(), bytes);
}

#[test]
fn version_four_long_strip_count_uses_varint() {
    let long = vec![b'a'; 300];
    let entries = vec![entry(&long, 0x0FFF, None), entry(b"b", 1, None)];
    let idx = index_of(4, entries.clone(), vec![]);
    let bytes = encode(&idx).unwrap();
    let second = HEADER_LEN + ENTRY_FIXED_LEN + 1 + 300 + 1 + ENTRY_FIXED_LEN;
    // 300 = (1 + 1) * 128 + 44: bytes 0x81, 0x2C.
    assert_eq!(&bytes[second..second + 2], &[0x81, 0x2C]);
    assert_eq!(decode(&bytes).unwrap().entries, entries);
}

#[test]
fn encode_writes_fresh_checksum() {
    let idx = index_of(2, vec![entry(b"f", 1, None)], vec![]);
    let bytes = encode(&idx).unwrap();
    let body = &bytes[..bytes.len() - 20];
    let expected = sha1_smol::Sha1::from(body).digest().bytes();
    assert_eq!(&bytes[bytes.len() - 20..], &expected);
    assert_ne!(idx.sha1_checksum, expected.to_vec());
}

#[test]
fn digest_of_known_input() {
    let d = digest_prefix(b"abcdef", 3);
    assert_eq!(
        d,
        vec![
            0xa9, 0x99, 0x3e, 0x36, 0x47, 0x06, 0x81, 0x6a, 0xba, 0x3e, 0x25, 0x71, 0x78, 0x50,
            0xc2, 0x6c, 0x9c, 0xd0, 0xd8, 0x9d
        ]
    );
}

#[test]
fn path_decoder_values() {
    assert_eq!(decode_path(b"abc/def", 3, b"xy"), Some(b"abc/xy".to_vec()));
    assert_eq!(decode_path(b"abc", 0, b"d"), Some(b"abcd".to_vec()));
    assert_eq!(decode_path(b"abc", 3, b""), Some(vec![]));
    assert_eq!(decode_path(b"abc", 4, b"x"), None);
    assert_eq!(decode_path(b"", 0, b"x"), Some(b"x".to_vec()));
}

#[test]
fn path_order_is_bytewise() {
    assert!(path_less(b"a", b"b"));
    assert!(path_less(b"a", b"a/b"));
    assert!(path_less(b"a/b", b"a0"));
    assert!(!path_less(b"a", b"a"));
    assert!(!path_less(b"b", b"a"));
    assert!(path_less(b"", b"a"));
    assert_eq!(common_prefix(b"src/lib.rs", b"src/main.rs"), 4);
}

#[test]
fn nonzero_padding_is_refused() {
    let mut body = header_bytes(2, 1);
    let mut e = entry_v2(b"ab", 1); // eight padding NULs; the last is spoiled
    let last = e.len() - 1;
    e[last] = 7;
    body.extend(e);
    let err = decode(&with_checksum(body)).unwrap_err();
    assert_eq!(err.kind, ErrorKind::InvalidPathEncoding);
}

#[test]
fn format_constants() {
    assert_eq!(magic_bytes(), b"DIRC".to_vec());
    assert_eq!(HEADER_LEN, 12);
    assert_eq!(EXTENSION_HEADER_LEN, 8);
    assert_eq!(CHECKSUM_LEN, 20);
}

#[test]
fn piecewise_encoders() {
    let mut out = Vec::new();
    encode_header(&IndexHeader { version: 3, index_entries: 258 }, &mut out);
    assert_eq!(out, b"DIRC\x00\x00\x00\x03\x00\x00\x01\x02".to_vec());

    let mut out = Vec::new();
    encode_extension(&IndexExtension { signature: b"REUC".to_vec(), data: vec![7, 8] }, &mut out);
    assert_eq!(out, b"REUC\x00\x00\x00\x02\x07\x08".to_vec());

    let mut out = Vec::new();
    encode_entry(&entry(b"ab", 2, None), 2, &[], &mut out);
    // 62 + 2 bytes is already a multiple of eight, so a whole block of NULs follows.
    assert_eq!(out.len(), 72);
    assert_eq!(&out[62..64], b"ab");
    assert_eq!(&out[64..], &[0u8; 8]);
    let (back, next) = parse_index_entry(&out, 0, 2, &[]).unwrap();
    assert_eq!(back, entry(b"ab", 2, None));
    assert_eq!(next, 72);

    let mut out = Vec::new();
    encode_entry(&entry(b"abd", 3, None), 4, b"abc", &mut out);
    assert_eq!(&out[ENTRY_FIXED_LEN..], &[1, b'd', 0]);
    let (back, next) = parse_index_entry(&out, 0, 4, b"abc").unwrap();
    assert_eq!(back.path, b"abd");
    assert_eq!(next, out.len());
}

#[test]
fn checksum_comparison() {
    let d = sample_index();
    let body_end = d.len() - 20;
    let digest = digest_prefix(&d, body_end);
    assert!(checksum_matches(&digest, &d, body_end));
    let mut other = digest.clone();
    other[0] ^= 1;
    assert!(!checksum_matches(&other, &d, body_end));
    assert!(!checksum_matches(&digest, &d, body_end - 1));
}

#[test]
fn version_three_without_extended_bit_has_no_extra_word() {
    let mut body = header_bytes(3, 1);
    body.extend(entry_v2(b"abc", 5));
    let idx = decode(&with_checksum(body)).unwrap();
    assert_eq!(idx.entries[0].extended_flags, None);
    assert_eq!(idx.entries[0].path, b"abc");
}

#[test]
fn diagnostic_mode_skips_checksum() {
    let mut d = sample_index();
    let last = d.len() - 1;
    d[last] ^= 0xFF;
    assert_eq!(decode(&d).unwrap_err().kind, ErrorKind::ChecksumMismatch);
    assert_eq!(decode_with(&d, true).unwrap_err().kind, ErrorKind::ChecksumMismatch);
    let idx = decode_with(&d, false).unwrap();
    assert_eq!(idx.entries[0].path, b"README");
    assert_eq!(idx.sha1_checksum, d[d.len() - 20..].to_vec());
}

#[test]
fn short_input_with_bad_magic_is_invalid_magic() {
    let err = parse_header(b"DIRX").unwrap_err();
    assert_eq!(err.kind, ErrorKind::InvalidMagic);
    assert_eq!(err.offset, 0);
    let err = parse_header(b"DIRD\x00\x00\x00\x02\x00\x00\x00\x01").unwrap_err();
    assert_eq!(err.kind, ErrorKind::InvalidMagic);
    assert_eq!(err.offset, 0);
    let err = parse_header(b"DIR").unwrap_err();
    assert_eq!(err.kind, ErrorKind::TruncatedInput);
    assert_eq!(err.offset, 3);
}

#[test]
fn short_input_with_bad_version_is_unsupported() {
    let err = parse_header(b"DIRC\x00\x00\x00\x05").unwrap_err();
    assert_eq!(err.kind, ErrorKind::UnsupportedVersion);
    assert_eq!(err.offset, 4);
    let err = parse_header(b"DIRC\x00\x00\x00\x02\x00").unwrap_err();
    assert_eq!(err.kind, ErrorKind::TruncatedInput);
    assert_eq!(err.offset, 9);
}

#[test]
fn lone_mandatory_extension_is_refused() {
    let d: &[u8] = b"zzzz\x00\x00\x00\x01\x00";
    let err = parse_index_extension(d, 0, d.len()).unwrap_err();
    assert_eq!(err.kind, ErrorKind::UnsupportedMandatoryExtension);
    assert_eq!(err.offset, 0);
    let d: &[u8] = b"@BCD\x00\x00\x00\x00";
    let err = parse_index_extension(d, 0, d.len()).unwrap_err();
    assert_eq!(err.kind, ErrorKind::UnsupportedMandatoryExtension);
    let d: &[u8] = b"zzzz\x00\x00\x00\x09\x00";
    let err = parse_index_extension(d, 0, d.len()).unwrap_err();
    assert_eq!(err.kind, ErrorKind::TrailingExtensionData);
}

#[test]
fn cut_extended_flags_word_is_truncated() {
    let mut d = fixed_fields(1, 0x4001);
    d.push(0);
    let err = parse_index_entry(&d, 0, 3, &[]).unwrap_err();
    assert_eq!(err.kind, ErrorKind::TruncatedInput);
    assert_eq!(err.offset, 63);
}

#[test]
fn no_terminator_anywhere_is_truncated() {
    let mut d = fixed_fields(1, 2);
    d.extend_from_slice(b"abcdefghij");
    let err = parse_index_entry(&d, 0, 2, &[]).unwrap_err();
    assert_eq!(err.kind, ErrorKind::TruncatedInput);
    assert_eq!(err.offset, d.len());
}

#[test]
fn strip_count_above_previous_path_in_entry() {
    let mut d = fixed_fields(1, 1);
    d.push(4); // strip count 4, previous path "abc"
    d.extend_from_slice(b"x\0");
    let err = parse_index_entry(&d, 0, 4, b"abc").unwrap_err();
    assert_eq!(err.kind, ErrorKind::InvalidPathEncoding);
}
