use sfx_pack::codec::{buf_copy, CompressWriter, COPY_CHUNK};
use sfx_pack::container::{
    build_header, check_digest, compress_to_temp, extract_container, locate_header,
    parse_container, split_manifest, unpack_entry, write_container, CompressContext,
};
use sfx_pack::header::{FormatError, Header, IDENTIFIER_VALUE};
use sfx_pack::paths::archive_path;

fn pack(path: &str, data: &[u8], level: i32) -> CompressContext {
    compress_to_temp(path.as_bytes().to_vec(), data, level)
}

fn le(v: u64) -> Vec<u8> {
    v.to_le_bytes().to_vec()
}

#[test]
fn header_round_trip() {
    let h = Header { paths_len: 6, sizes_len: 16, hashes_len: 16, compressed_data_len: 14 };
    let bytes = h.to_bytes();
    assert_eq!(bytes.len(), 40);
    assert_eq!(&bytes[0..8], &IDENTIFIER_VALUE.to_le_bytes());
    assert_eq!(&bytes[8..16], &le(6)[..]);
    assert_eq!(&bytes[32..40], &le(14)[..]);
    let back = Header::parse_stream(&bytes).unwrap();
    assert_eq!(back.paths_len, 6);
    assert_eq!(back.sizes_len, 16);
    assert_eq!(back.hashes_len, 16);
    assert_eq!(back.compressed_data_len, 14);
    assert_eq!(h.header_and_data_len(), 40 + 6 + 16 + 16 + 14);
    assert_eq!(Header::HEADER_LEN, 40);
}

#[test]
fn header_rejects_wrong_identifier() {
    let h = Header { paths_len: 1, sizes_len: 2, hashes_len: 3, compressed_data_len: 4 };
    let mut bytes = h.to_bytes();
    bytes[3] ^= 0xff;
    assert_eq!(Header::parse_stream(&bytes).err(), Some(FormatError::InvalidIdentifier));
}

#[test]
fn header_rejects_short_input() {
    let mut bytes = IDENTIFIER_VALUE.to_le_bytes().to_vec();
    bytes.extend_from_slice(&[0u8; 31]);
    assert_eq!(Header::parse_stream(&bytes).err(), Some(FormatError::Truncated));
    assert_eq!(Header::parse_stream(&[0xd1, 0xc1, 0xb1]).err(), Some(FormatError::Truncated));
}

#[test]
fn short_header_with_wrong_identifier_is_invalid() {
    let bytes = vec![0u8; 39];
    assert_eq!(Header::parse_stream(&bytes).err(), Some(FormatError::InvalidIdentifier));
    let eight = vec![1u8; 8];
    assert_eq!(Header::parse_stream(&eight).err(), Some(FormatError::InvalidIdentifier));
}

#[test]
fn small_footer_with_wrong_identifier_is_invalid() {
    let mut image = b"some executable".to_vec();
    image.extend_from_slice(&[9u8; 12]);
    image.extend_from_slice(&le(12));
    assert_eq!(parse_container(&image).err(), Some(FormatError::InvalidIdentifier));
    assert_eq!(extract_container(&image).err(), Some(FormatError::InvalidIdentifier));
    let mut with_id = IDENTIFIER_VALUE.to_le_bytes().to_vec();
    with_id.extend_from_slice(&[0u8; 4]);
    with_id.extend_from_slice(&le(12));
    assert_eq!(parse_container(&with_id).err(), Some(FormatError::Truncated));
}

#[test]
fn compress_writer_counts_bytes() {
    let mut w = CompressWriter::new(vec![9u8]);
    assert_eq!(w.count(), 0);
    assert_eq!(w.write(&[1, 2, 3]), 3);
    w.flush();
    assert_eq!(w.write(&[]), 0);
    assert_eq!(w.write(&[4]), 1);
    assert_eq!(w.count(), 4);
    assert_eq!(w.into_inner(), vec![9, 1, 2, 3, 4]);
}

#[test]
fn buf_copy_moves_everything() {
    let src: Vec<u8> = (0..(COPY_CHUNK * 2 + 17)).map(|i| (i % 251) as u8).collect();
    let mut dst = vec![7u8, 7];
    buf_copy(&src, &mut dst);
    assert_eq!(dst.len(), src.len() + 2);
    assert_eq!(&dst[2..], &src[..]);
    let mut empty_dst = Vec::new();
    buf_copy(&[], &mut empty_dst);
    assert!(empty_dst.is_empty());
}

#[test]
fn pack_single_hello_file() {
    let e = pack("a.txt", b"hello", 3);
    assert_eq!(e.path_str, b"a.txt".to_vec());
    assert_eq!(e.original_size, 5);
    assert_eq!(e.compressed_size as usize, e.file.len());
    assert_ne!(e.file, b"hello".to_vec());
    assert_eq!(e.hash, md5::compute(b"hello").0.to_vec());
    assert_eq!(e.hash, vec![
        0x5d, 0x41, 0x40, 0x2a, 0xbc, 0x4b, 0x2a, 0x76, 0xb9, 0x71, 0x9d, 0x91, 0x10, 0x17, 0xc5,
        0x92
    ]);
    assert_eq!(zstd::stream::decode_all(&e.file[..]).unwrap(), b"hello".to_vec());

    let entries = vec![e];
    let container = write_container(&entries).unwrap();
    let c = &entries[0].compressed_size;
    let n = 40 + 6 + 16 + 16 + *c as usize + 8;
    assert_eq!(container.len(), n);
    assert_eq!(&container[40..46], b"a.txt\n");
    assert_eq!(&container[46..54], &le(5)[..]);
    assert_eq!(&container[54..62], &le(*c)[..]);
    assert_eq!(&container[62..78], &md5::compute(b"hello").0[..]);
    assert_eq!(&container[78..78 + *c as usize], &entries[0].file[..]);

    let mut image = b"#!unarchiver image bytes".to_vec();
    image.extend_from_slice(&container);
    let out = extract_container(&image).unwrap();
    assert_eq!(out.len(), 1);
    assert_eq!(out[0].path, b"a.txt".to_vec());
    let o = out[0].outcome.as_ref().unwrap();
    assert_eq!(o.data, b"hello".to_vec());
    assert!(o.intact);
}

#[test]
fn footer_equals_header_and_sections() {
    let entries = vec![pack("x", b"first file", 3), pack("dir/y", b"", 3), pack("z", &[0u8; 1000], 1)];
    let header = build_header(&entries).unwrap();
    let container = write_container(&entries).unwrap();
    let footer = u64::from_le_bytes(container[container.len() - 8..].try_into().unwrap());
    let parsed = Header::parse_stream(&container).unwrap();
    assert_eq!(parsed.paths_len, 2 + 6 + 2);
    assert_eq!(parsed.sizes_len, 48);
    assert_eq!(parsed.hashes_len, 48);
    let data_len: u64 = entries.iter().map(|e| e.compressed_size).sum();
    assert_eq!(parsed.compressed_data_len, data_len);
    assert_eq!(header.header_and_data_len(), footer);
    assert_eq!(
        footer,
        40 + parsed.paths_len + parsed.sizes_len + parsed.hashes_len + parsed.compressed_data_len
    );
    assert_eq!(container.len() as u64, footer + 8);
}

#[test]
fn round_trip_keeps_order_and_contents() {
    let files: Vec<(&str, Vec<u8>)> = vec![
        ("b/one.bin", (0..5000u32).map(|i| (i * 7 % 256) as u8).collect()),
        ("empty", Vec::new()),
        ("a/two.txt", b"some text\nwith lines\n".to_vec()),
        ("three", vec![0xffu8; 3]),
    ];
    let entries: Vec<CompressContext> = files.iter().map(|(p, d)| pack(p, d, 5)).collect();
    let container = write_container(&entries).unwrap();
    let mut image = vec![0x7fu8, b'E', b'L', b'F', 0, 0, 0];
    image.extend_from_slice(&container);

    let parsed = parse_container(&image).unwrap();
    assert_eq!(parsed.len(), entries.len());
    for (p, e) in parsed.iter().zip(entries.iter()) {
        assert_eq!(p.path_str, e.path_str);
        assert_eq!(p.original_size, e.original_size);
        assert_eq!(p.compressed_size, e.compressed_size);
        assert_eq!(p.hash, e.hash);
        assert_eq!(p.file, e.file);
    }

    let out = extract_container(&image).unwrap();
    assert_eq!(out.len(), files.len());
    for (x, (p, d)) in out.iter().zip(files.iter()) {
        assert_eq!(x.path, p.as_bytes().to_vec());
        let o = x.outcome.as_ref().unwrap();
        assert_eq!(&o.data, d);
        assert!(o.intact);
    }
}

#[test]
fn empty_archive_round_trip() {
    let entries: Vec<CompressContext> = Vec::new();
    let container = write_container(&entries).unwrap();
    assert_eq!(container.len(), 48);
    assert_eq!(u64::from_le_bytes(container[40..].try_into().unwrap()), 40);
    assert!(parse_container(&container).unwrap().is_empty());
}

#[test]
fn corrupted_entry_is_flagged_and_others_verify() {
    let a: Vec<u8> = (0..3000u32).map(|i| (i % 13) as u8).collect();
    let b: Vec<u8> = (0..4000u32).map(|i| (i * 31 % 256) as u8).collect();
    let entries = vec![pack("a", &a, 3), pack("b", &b, 3), pack("c", b"tail", 3)];
    let container = write_container(&entries).unwrap();
    let data_start = 40 + (2 + 2 + 2) + 48 + 48;
    let b_start = data_start + entries[0].file.len();
    let mut image = container.clone();
    image[b_start + entries[1].file.len() / 2] ^= 0x01;

    let out = extract_container(&image).unwrap();
    assert_eq!(out.len(), 3);
    let oa = out[0].outcome.as_ref().unwrap();
    assert_eq!(oa.data, a);
    assert!(oa.intact);
    match &out[1].outcome {
        Some(o) => assert!(!o.intact),
        None => {}
    }
    let oc = out[2].outcome.as_ref().unwrap();
    assert_eq!(oc.data, b"tail".to_vec());
    assert!(oc.intact);
}

#[test]
fn wrong_identifier_at_header_offset_is_rejected() {
    let entries = vec![pack("a.txt", b"hello", 3)];
    let container = write_container(&entries).unwrap();
    let mut image = b"prefix".to_vec();
    image.extend_from_slice(&container);
    image[6] ^= 0x80;
    assert_eq!(parse_container(&image).err(), Some(FormatError::InvalidIdentifier));
    assert_eq!(extract_container(&image).err(), Some(FormatError::InvalidIdentifier));
}

#[test]
fn short_or_overlong_footer_is_truncated() {
    assert_eq!(parse_container(&[1, 2, 3]).err(), Some(FormatError::Truncated));
    assert_eq!(locate_header(&[0u8; 5]), Err(FormatError::Truncated));
    let mut image = vec![0u8; 10];
    image.extend_from_slice(&le(11));
    assert_eq!(locate_header(&image), Err(FormatError::Truncated));
    let mut ok = vec![0u8; 10];
    ok.extend_from_slice(&le(4));
    assert_eq!(locate_header(&ok), Ok(6));
}

#[test]
fn inconsistent_lengths_are_rejected() {
    let entries = vec![pack("a.txt", b"hello", 3)];
    let mut container = write_container(&entries).unwrap();
    // declare one more byte of compressed data than the footer covers
    let d = u64::from_le_bytes(container[32..40].try_into().unwrap());
    container[32..40].copy_from_slice(&le(d + 1));
    assert_eq!(parse_container(&container).err(), Some(FormatError::InconsistentLengths));
}

#[test]
fn unterminated_manifest_is_rejected() {
    let h = Header { paths_len: 2, sizes_len: 16, hashes_len: 16, compressed_data_len: 0 };
    let mut image = h.to_bytes();
    image.extend_from_slice(b"ab");
    image.extend_from_slice(&[0u8; 32]);
    image.extend_from_slice(&le(40 + 2 + 32));
    assert_eq!(parse_container(&image).err(), Some(FormatError::MalformedManifest));
}

#[test]
fn split_manifest_lines() {
    assert_eq!(split_manifest(b""), Some(vec![]));
    assert_eq!(split_manifest(b"x\ny\n"), Some(vec![b"x".to_vec(), b"y".to_vec()]));
    assert_eq!(split_manifest(b"\n"), Some(vec![Vec::new()]));
    assert_eq!(split_manifest(b"x\ny"), None);
}

#[test]
fn digest_comparison() {
    assert!(check_digest(&[1, 2, 3], &[1, 2, 3]));
    assert!(!check_digest(&[1, 2, 3], &[1, 2, 4]));
    assert!(!check_digest(&[1, 2], &[1, 2, 3]));
}

#[test]
fn unpack_rejects_garbage_frame() {
    let e = CompressContext {
        file: b"not a zstd frame".to_vec(),
        path_str: b"g".to_vec(),
        original_size: 3,
        compressed_size: 16,
        hash: vec![0u8; 16],
    };
    assert!(unpack_entry(&e).is_none());
}

#[test]
fn pack_empty_file_round_trips() {
    let e = pack("empty", b"", 3);
    assert_eq!(e.original_size, 0);
    assert!(e.compressed_size > 0);
    assert_eq!(e.compressed_size as usize, e.file.len());
    assert_eq!(e.hash, vec![
        0xd4, 0x1d, 0x8c, 0xd9, 0x8f, 0x00, 0xb2, 0x04, 0xe9, 0x80, 0x09, 0x98, 0xec, 0xf8, 0x42,
        0x7e
    ]);
    let x = unpack_entry(&e).unwrap();
    assert!(x.data.is_empty());
    assert!(x.intact);
}

#[test]
fn pack_directory_entries_relative_to_root() {
    let files: Vec<(&[u8], &[u8])> = vec![(b"dir/x", b"first"), (b"dir/y", b"second")];
    for (include_root, expected) in [(false, [&b"x"[..], &b"y"[..]]), (true, [&b"dir/x"[..], &b"dir/y"[..]])] {
        let entries: Vec<CompressContext> = files
            .iter()
            .map(|(p, d)| compress_to_temp(archive_path(p, b"dir", include_root).unwrap(), d, 3))
            .collect();
        assert_eq!(entries.len(), 2);
        assert_eq!(entries[0].path_str, expected[0].to_vec());
        assert_eq!(entries[1].path_str, expected[1].to_vec());
        assert_eq!(unpack_entry(&entries[1]).unwrap().data, b"second".to_vec());
    }
}
