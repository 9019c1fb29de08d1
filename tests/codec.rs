use gingerlib::codec::{encode_tags, parse_tag, parse_tags, read_le_u32};
use gingerlib::{ParseError, Quest3DFile, Tag};

fn framed(name: &str, data: &[u8]) -> Vec<u8> {
    let mut out = name.as_bytes().to_vec();
    out.extend_from_slice(&(data.len() as u32).to_le_bytes());
    out.extend_from_slice(data);
    out
}

fn names(tags: &[Tag]) -> Vec<String> {
    tags.iter().map(|t| t.name.clone()).collect()
}

#[test]
fn tag_with_length_is_read() {
    let buf = framed("ABCD", &[1, 2, 3]);
    let (tag, next) = parse_tag(&buf, 0).unwrap();
    assert_eq!(tag.name, "ABCD");
    assert_eq!(tag.data, vec![1, 2, 3]);
    assert_eq!(next, 11);
}

#[test]
fn magic_tag_never_has_a_length() {
    // The bytes after A3DG would read as a length of 5, yet A3DG stays a marker.
    let mut buf = b"A3DG".to_vec();
    buf.extend_from_slice(&framed("\u{5}\0\0\0", &[]));
    let (tag, next) = parse_tag(&buf, 0).unwrap();
    assert_eq!(tag.name, "A3DG");
    assert!(tag.data.is_empty());
    assert_eq!(next, 4);
}

#[test]
fn upper_case_follower_makes_a_marker() {
    let mut buf = b"CGGG".to_vec();
    buf.extend_from_slice(&framed("GUID", &[9; 16]));
    let tags = parse_tags(&buf).unwrap();
    assert_eq!(names(&tags), vec!["CGGG", "GUID"]);
    assert!(tags[0].data.is_empty());
    assert_eq!(tags[1].data, vec![9; 16]);
}

#[test]
fn lower_case_follower_is_a_length() {
    // "abcd" is not upper case: it is read as a length and the payload is missing.
    let buf = b"CGGGabcd".to_vec();
    assert_eq!(parse_tags(&buf).unwrap_err(), ParseError::TruncatedInput);
}

#[test]
fn name_without_length_at_end_is_truncated() {
    assert_eq!(parse_tags(b"QVRS").unwrap_err(), ParseError::TruncatedInput);
    assert_eq!(parse_tags(b"A3DGQVRS").unwrap_err(), ParseError::TruncatedInput);
}

#[test]
fn magic_tag_at_end_is_a_marker() {
    let tags = parse_tags(b"A3DG").unwrap();
    assert_eq!(names(&tags), vec!["A3DG"]);
    assert!(tags[0].data.is_empty());
}

#[test]
fn short_name_is_truncated() {
    assert_eq!(parse_tags(b"QV").unwrap_err(), ParseError::TruncatedInput);
}

#[test]
fn partial_length_field_is_truncated() {
    assert_eq!(parse_tags(b"ABCD\x01\x00").unwrap_err(), ParseError::TruncatedInput);
}

#[test]
fn payload_cut_short_is_truncated() {
    let buf = framed("QVRS", &[1, 2, 3, 4, 5]);
    for cut in 8..buf.len() {
        assert_eq!(parse_tags(&buf[..cut]).unwrap_err(), ParseError::TruncatedInput);
        assert_eq!(Quest3DFile::from_bytes(&buf[..cut]).unwrap_err(), ParseError::TruncatedInput);
    }
}

#[test]
fn invalid_utf8_name_is_rejected() {
    let buf = framed("\u{0}\u{0}\u{0}\u{0}", &[1]);
    let mut bad = buf.clone();
    bad[0] = 0xff;
    assert_eq!(parse_tags(&bad).unwrap_err(), ParseError::NomError);
}

#[test]
fn little_endian_u32_is_read() {
    assert_eq!(read_le_u32(&[0x78, 0x56, 0x34, 0x12], 0), 0x1234_5678);
    assert_eq!(read_le_u32(&[0, 0xff, 0xff, 0xff, 0xff], 1), u32::MAX);
}

#[test]
fn encode_omits_length_of_empty_payloads() {
    let tags = vec![
        Tag::new("A3DG".to_string(), vec![]),
        Tag::new("CGGG".to_string(), vec![]),
        Tag::new("DATA".to_string(), vec![7, 8]),
    ];
    let bytes = encode_tags(&tags);
    assert_eq!(bytes, b"A3DGCGGGDATA\x02\x00\x00\x00\x07\x08".to_vec());
}

#[test]
fn flat_round_trip() {
    let file = Quest3DFile {
        tags: vec![
            Tag::new("QVRS".to_string(), vec![60, 0, 0, 0]),
            Tag::new("A3DG".to_string(), vec![]),
            Tag::new("CGGG".to_string(), vec![]),
            Tag::new("GUID".to_string(), (0..16).collect()),
            Tag::new("LAST".to_string(), vec![1, 2, 3]),
        ],
    };
    let bytes = file.to_bytes();
    let back = Quest3DFile::from_bytes(&bytes).unwrap();
    assert_eq!(names(&back.tags), names(&file.tags));
    for (a, b) in back.tags.iter().zip(file.tags.iter()) {
        assert_eq!(a.data, b.data);
    }
}

#[test]
fn tag_new_keeps_fields() {
    let t = Tag::new("NAME".to_string(), vec![1]);
    assert_eq!(t.name, "NAME");
    assert_eq!(t.data, vec![1]);
}
