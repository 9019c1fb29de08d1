use std::io::Write;

use flate2::write::ZlibEncoder;
use flate2::Compression;
use gingerlib::{decompress, parse_file, parse_group_header, unprotect, xor_mask, ParseError, Quest3DFile};

fn framed(name: &str, data: &[u8]) -> Vec<u8> {
    let mut out = name.as_bytes().to_vec();
    out.extend_from_slice(&(data.len() as u32).to_le_bytes());
    out.extend_from_slice(data);
    out
}

fn zlib(data: &[u8]) -> Vec<u8> {
    let mut enc = ZlibEncoder::new(Vec::new(), Compression::default());
    enc.write_all(data).unwrap();
    enc.finish().unwrap()
}

fn guid_bytes() -> Vec<u8> {
    (0x10..0x20).collect()
}

/// QVRS(7), A3DG, CGGG, GUID(16 bytes), CGUC, CHCO, CHAN(3).
fn inner_stream() -> Vec<u8> {
    let mut s = framed("QVRS", &7u32.to_le_bytes());
    s.extend_from_slice(b"A3DG");
    s.extend_from_slice(b"CGGG");
    s.extend_from_slice(&framed("GUID", &guid_bytes()));
    s.extend_from_slice(&framed("CGUC", &[1, 2]));
    s.extend_from_slice(&framed("CHCO", &[3]));
    s.extend_from_slice(&framed("CHAN", &3u32.to_le_bytes()));
    s
}

fn obfuscated_stream() -> Vec<u8> {
    let mut s = Vec::new();
    for name in ["TAGA", "TAGB", "TAGC", "TAGD"] {
        s.extend_from_slice(&framed(name, &[5, 6]));
    }
    let masked: Vec<u8> = inner_stream().iter().map(|b| b ^ 4).collect();
    s.extend_from_slice(&framed("NECB", &masked));
    s
}

fn wrapped(payload: &[u8]) -> Vec<u8> {
    let mut s = b"ACTF".to_vec();
    s.extend_from_slice(&framed("HEAD", &[1, 2]));
    s.extend_from_slice(&framed("VERS", &[3, 4, 5]));
    s.extend_from_slice(&framed("ZICB", &zlib(payload)));
    s
}

#[test]
fn plain_entry_tag_alone_gives_defaults() {
    let g = parse_file(b"QVRS").unwrap();
    assert_eq!(g.engine_version, 60);
    assert_eq!(g.guid.as_bytes(), &[0u8; 16]);
    assert_eq!(g.name, "");
    assert!(g.channels.is_empty());
}

#[test]
fn plain_container_header_is_not_taken_from_entry_tag() {
    let g = parse_file(&inner_stream()).unwrap();
    assert_eq!(g.engine_version, 60);
    assert_eq!(g.guid.as_bytes(), &[0u8; 16]);
}

#[test]
fn plain_container_header_after_entry_tag() {
    let mut buf = framed("QVRS", &[9, 9]);
    buf.extend_from_slice(&inner_stream());
    let g = parse_file(&buf).unwrap();
    assert_eq!(g.engine_version, 7);
    assert_eq!(g.guid.as_bytes(), guid_bytes().as_slice());
}

#[test]
fn flat_read_rejects_unknown_entry_tag() {
    let buf = framed("ABCD", &[1, 2, 3]);
    assert_eq!(Quest3DFile::from_bytes(&buf).unwrap_err(), ParseError::InvalidFileType);
}

#[test]
fn flat_read_of_plain_container_keeps_zicb_tag() {
    let mut buf = framed("QVRS", &[1]);
    buf.extend_from_slice(&framed("HEAD", &[2]));
    buf.extend_from_slice(&framed("VERS", &[3]));
    buf.extend_from_slice(&framed("ZICB", &[1, 2, 3, 4, 5]));
    let f = Quest3DFile::from_bytes(&buf).unwrap();
    let names: Vec<&str> = f.tags.iter().map(|t| t.name.as_str()).collect();
    assert_eq!(names, vec!["QVRS", "HEAD", "VERS", "ZICB"]);
    assert_eq!(f.tags[3].data, vec![1, 2, 3, 4, 5]);
}

#[test]
fn flat_read_of_wrapped_container_needs_zicb() {
    let mut s = b"ACTF".to_vec();
    s.extend_from_slice(&framed("HEAD", &[1]));
    s.extend_from_slice(&framed("VERS", &[2]));
    s.extend_from_slice(&framed("DATA", &[3]));
    assert_eq!(Quest3DFile::from_bytes(&s).unwrap_err(), ParseError::InvalidFileType);
}

#[test]
fn wrapped_container_without_obfuscation() {
    let buf = wrapped(&inner_stream());
    let g = parse_file(&buf).unwrap();
    assert_eq!(g.engine_version, 7);
    assert_eq!(g.guid.as_bytes(), guid_bytes().as_slice());
    assert!(g.channels.is_empty());

    let d = decompress(&buf[4..]).unwrap();
    assert_eq!(d, inner_stream());
    let h = parse_group_header(&unprotect(&d).unwrap()).unwrap();
    assert_eq!(h.engine_version, 7);
    assert_eq!(h.guid.as_bytes(), guid_bytes().as_slice());
    assert_eq!(h.channel_count, 3);
}

#[test]
fn wrapped_container_with_obfuscation() {
    let buf = wrapped(&obfuscated_stream());
    let g = parse_file(&buf).unwrap();
    assert_eq!(g.engine_version, 7);
    assert_eq!(g.guid.as_bytes(), guid_bytes().as_slice());

    let d = decompress(&buf[4..]).unwrap();
    let u = unprotect(&d).unwrap();
    assert_eq!(u, inner_stream());
    let h = parse_group_header(&u).unwrap();
    assert_eq!(h.engine_version, 7);
    assert_eq!(h.channel_count, 3);
}

#[test]
fn flat_read_goes_through_both_layers() {
    let buf = wrapped(&obfuscated_stream());
    let f = Quest3DFile::from_bytes(&buf).unwrap();
    let names: Vec<&str> = f.tags.iter().map(|t| t.name.as_str()).collect();
    assert_eq!(names, vec!["QVRS", "A3DG", "CGGG", "GUID", "CGUC", "CHCO", "CHAN"]);
    assert_eq!(f.tags[3].data, guid_bytes());
    assert_eq!(f.to_bytes(), inner_stream());
}

#[test]
fn zlib_stage_round_trips() {
    let samples: Vec<Vec<u8>> = vec![vec![], vec![0], b"hello hello hello".to_vec(), (0..=255).collect()];
    for x in samples {
        let mut s = framed("HEAD", &[1]);
        s.extend_from_slice(&framed("VERS", &[2]));
        s.extend_from_slice(&framed("ZICB", &zlib(&x)));
        assert_eq!(decompress(&s).unwrap(), x);
    }
}

#[test]
fn xor_mask_twice_is_identity() {
    let x: Vec<u8> = (0..=255).collect();
    let once = xor_mask(&x);
    assert_eq!(once[0], 4);
    assert_eq!(once[4], 0);
    assert_eq!(xor_mask(&once), x);
}

#[test]
fn unknown_entry_tag_is_invalid() {
    assert_eq!(parse_file(b"XXXX").unwrap_err(), ParseError::InvalidFileType);
    assert_eq!(parse_file(b"QVRT\x01\x02").unwrap_err(), ParseError::InvalidFileType);
    assert_eq!(parse_file(&framed("ABCD", &[1, 2, 3])).unwrap_err(), ParseError::InvalidFileType);
}

#[test]
fn short_buffer_is_truncated() {
    assert_eq!(parse_file(b"QVR").unwrap_err(), ParseError::TruncatedInput);
    assert_eq!(parse_file(b"").unwrap_err(), ParseError::TruncatedInput);
}

#[test]
fn truncated_payload_is_rejected() {
    let plain = inner_stream();
    assert_eq!(parse_file(&plain[..plain.len() - 2]).unwrap_err(), ParseError::TruncatedInput);
    let buf = wrapped(&inner_stream());
    assert_eq!(parse_file(&buf[..buf.len() - 3]).unwrap_err(), ParseError::TruncatedInput);
}

#[test]
fn missing_compression_tag_is_invalid() {
    let mut s = b"ACTF".to_vec();
    s.extend_from_slice(&framed("HEAD", &[1]));
    s.extend_from_slice(&framed("VERS", &[2]));
    s.extend_from_slice(&framed("DATA", &[3]));
    assert_eq!(parse_file(&s).unwrap_err(), ParseError::InvalidFileType);
}

#[test]
fn too_few_wrapped_tags_is_truncated() {
    let mut s = b"ACTF".to_vec();
    s.extend_from_slice(&framed("HEAD", &[1]));
    assert_eq!(parse_file(&s).unwrap_err(), ParseError::TruncatedInput);
}

#[test]
fn corrupt_zlib_is_a_decompression_error() {
    let mut s = b"ACTF".to_vec();
    s.extend_from_slice(&framed("HEAD", &[1]));
    s.extend_from_slice(&framed("VERS", &[2]));
    s.extend_from_slice(&framed("ZICB", &[1, 2, 3, 4, 5]));
    assert_eq!(parse_file(&s).unwrap_err(), ParseError::DecompressionError);
    assert_eq!(Quest3DFile::from_bytes(&s).unwrap_err(), ParseError::DecompressionError);
}

#[test]
fn wrong_header_tag_is_a_structural_error() {
    let mut inner = framed("QVRS", &7u32.to_le_bytes());
    inner.extend_from_slice(b"A3DG");
    inner.extend_from_slice(&framed("XXXX", &[1]));
    for name in ["GUID", "CGUC", "CHCO", "CHAN"] {
        inner.extend_from_slice(&framed(name, &[0; 16]));
    }
    assert_eq!(parse_file(&wrapped(&inner)).unwrap_err(), ParseError::NomError);
}

#[test]
fn guid_of_wrong_size_is_a_structural_error() {
    let mut inner = framed("QVRS", &7u32.to_le_bytes());
    inner.extend_from_slice(b"A3DG");
    inner.extend_from_slice(b"CGGG");
    inner.extend_from_slice(&framed("GUID", &[1; 15]));
    for name in ["CGUC", "CHCO", "CHAN"] {
        inner.extend_from_slice(&framed(name, &[0; 4]));
    }
    assert_eq!(parse_group_header(&inner).unwrap_err(), ParseError::NomError);
    assert_eq!(parse_file(&wrapped(&inner)).unwrap_err(), ParseError::NomError);
}

#[test]
fn short_header_is_truncated() {
    let mut inner = framed("QVRS", &7u32.to_le_bytes());
    inner.extend_from_slice(b"A3DG");
    assert_eq!(parse_group_header(&inner).unwrap_err(), ParseError::TruncatedInput);
}

#[test]
fn unobfuscated_stream_is_returned_unchanged() {
    let s = inner_stream();
    assert_eq!(unprotect(&s).unwrap(), s);
}
