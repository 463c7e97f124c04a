use rtp::errors::RTPError;
use rtp::header::{Extension, ExtensionProfile, Header};

const FIXED: [u8; 12] = [
    0x90, 0xe0, 0x69, 0x8f, 0xd9, 0xc2, 0x93, 0xda, 0x1c, 0x64, 0x27, 0x82,
];

fn packet(ext: &[u8], payload: &[u8]) -> Vec<u8> {
    let mut v = FIXED.to_vec();
    v.extend_from_slice(ext);
    v.extend_from_slice(payload);
    v
}

fn check_fixed_fields(h: &Header) {
    assert_eq!(h.version, 2);
    assert!(!h.padding);
    assert!(h.extension);
    assert!(h.marker);
    assert_eq!(h.payload_type, 96);
    assert_eq!(h.sequence_number, 27023);
    assert_eq!(h.timestamp, 3653407706);
    assert_eq!(h.ssrc, 476325762);
    assert!(h.csrc.is_empty());
}

#[test]
fn test_unmarshal_rfc3550_extension() {
    let raw = packet(&[0x00, 0x01, 0x00, 0x01, 0xff, 0xff, 0xff, 0xff], &[0x98, 0x36, 0xbe, 0x88, 0x9e]);
    let mut h = Header::default();
    let n = h.unmarshal(&raw).unwrap();
    assert_eq!(n, 20);
    check_fixed_fields(&h);
    assert_eq!(h.extension_profile, 1);
    assert_eq!(
        h.extensions,
        vec![Extension { id: 0, payload: vec![0xff, 0xff, 0xff, 0xff] }]
    );
    assert_eq!(h.marshal_size(), 20);
    assert_eq!(h.marshal().unwrap(), raw[..20].to_vec());
}

#[test]
fn test_unmarshal_one_byte_extension() {
    let raw = packet(&[0xbe, 0xde, 0x00, 0x01, 0x50, 0xaa, 0x00, 0x00], &[0x98, 0x36]);
    let mut h = Header::default();
    assert_eq!(h.unmarshal(&raw), Ok(20));
    check_fixed_fields(&h);
    assert_eq!(h.extension_profile, 0xBEDE);
    assert_eq!(h.extensions, vec![Extension { id: 5, payload: vec![0xaa] }]);
    assert_eq!(h.get_extension(5), Some(&[0xaa][..]));
    assert_eq!(h.marshal().unwrap(), raw[..20].to_vec());
}

#[test]
fn test_unmarshal_one_byte_reserved_id_stops() {
    // A one-byte extension with id 15 ends the extension data.
    let raw = packet(&[0xbe, 0xde, 0x00, 0x02, 0x10, 0xaa, 0xf0, 0x11, 0x22, 0x33, 0x44, 0x55], &[]);
    let mut h = Header::default();
    assert_eq!(h.unmarshal(&raw), Ok(19));
    assert_eq!(h.extensions, vec![Extension { id: 1, payload: vec![0xaa] }]);
}

#[test]
fn test_unmarshal_two_byte_extension() {
    let raw = packet(&[0x10, 0x00, 0x00, 0x01, 0x07, 0x02, 0xcc, 0xdd], &[0x01]);
    let mut h = Header::default();
    assert_eq!(h.unmarshal(&raw), Ok(20));
    check_fixed_fields(&h);
    assert_eq!(h.extension_profile, 0x1000);
    assert_eq!(h.extensions, vec![Extension { id: 7, payload: vec![0xcc, 0xdd] }]);
    assert_eq!(h.marshal().unwrap(), raw[..20].to_vec());
}

#[test]
fn test_unmarshal_with_csrc_and_no_extension() {
    let raw = vec![
        0x82, 0x08, 0x00, 0x01, 0x00, 0x00, 0x00, 0x02, 0x00, 0x00, 0x00, 0x03, 0x00, 0x00, 0x00,
        0x04, 0xaa, 0xbb, 0xcc, 0xdd, 0x99,
    ];
    let mut h = Header::default();
    assert_eq!(h.unmarshal(&raw), Ok(20));
    assert_eq!(h.version, 2);
    assert!(!h.extension);
    assert!(!h.marker);
    assert_eq!(h.payload_type, 8);
    assert_eq!(h.sequence_number, 1);
    assert_eq!(h.timestamp, 2);
    assert_eq!(h.ssrc, 3);
    assert_eq!(h.csrc, vec![4, 0xaabbccdd]);
    assert_eq!(h.marshal_size(), 20);
    assert_eq!(h.marshal().unwrap(), raw[..20].to_vec());
}

#[test]
fn test_unmarshal_too_short() {
    let mut h = Header::default();
    assert_eq!(h.unmarshal(&[0x80, 0x00, 0x00]), Err(RTPError::HeaderSizeInsufficient));
    assert_eq!(h, Header::default());
    let mut h = Header::default();
    assert_eq!(h.unmarshal(&FIXED[..11]), Err(RTPError::HeaderSizeInsufficient));
    // The first byte has been read.
    assert_eq!(h.version, 2);
    assert!(h.extension);
    let mut h = Header::default();
    // Two CSRC entries announced, one present.
    assert_eq!(
        h.unmarshal(&[0x82, 0, 0, 0, 0, 0, 0, 0, 0, 0, 0, 0, 1, 2, 3, 4]),
        Err(RTPError::HeaderSizeInsufficient)
    );
    assert_eq!(h.csrc, vec![0, 0]);
}

#[test]
fn test_unmarshal_too_short_for_extension() {
    let mut h = Header::default();
    assert_eq!(
        h.unmarshal(&packet(&[0xbe, 0xde], &[])),
        Err(RTPError::HeaderSizeInsufficientForExtension)
    );
    let mut h = Header::default();
    assert_eq!(
        h.unmarshal(&packet(&[0xbe, 0xde, 0x00, 0x02, 0x10, 0xaa], &[])),
        Err(RTPError::HeaderSizeInsufficientForExtension)
    );
    assert_eq!(h.extension_profile, 0xBEDE);
    assert!(h.extensions.is_empty());
}

#[test]
fn test_unmarshal_replaces_existing_extensions() {
    let mut h = Header::default();
    h.extensions.push(Extension { id: 3, payload: vec![1, 2, 3] });
    let raw = packet(&[0xbe, 0xde, 0x00, 0x01, 0x50, 0xaa, 0x00, 0x00], &[]);
    assert_eq!(h.unmarshal(&raw), Ok(20));
    assert_eq!(h.extensions, vec![Extension { id: 5, payload: vec![0xaa] }]);
    let mut fresh = Header::default();
    fresh.unmarshal(&raw).unwrap();
    assert_eq!(h, fresh);
}

#[test]
fn test_unmarshal_rfc3550_offset_ignores_old_extensions() {
    let mut h = Header::default();
    h.extensions.push(Extension { id: 0, payload: vec![0; 10] });
    let raw = packet(&[0x00, 0x01, 0x00, 0x01, 0x01, 0x02, 0x03, 0x04], &[]);
    assert_eq!(h.unmarshal(&raw), Ok(20));
    assert_eq!(h.extensions, vec![Extension { id: 0, payload: vec![1, 2, 3, 4] }]);
}

#[test]
fn test_unmarshal_without_extension_clears_extensions() {
    let mut h = Header::default();
    h.extensions.push(Extension { id: 3, payload: vec![1] });
    let mut raw = FIXED.to_vec();
    raw[0] = 0x80;
    assert_eq!(h.unmarshal(&raw), Ok(12));
    assert!(!h.extension);
    assert!(h.extensions.is_empty());
}

#[test]
fn test_unmarshal_reads_in_bounds() {
    // Short packets and packets without an extension block.
    assert!(Header::unmarshal_reads_in_bounds(&[]));
    assert!(Header::unmarshal_reads_in_bounds(&FIXED));
    // Well-formed extension blocks.
    assert!(Header::unmarshal_reads_in_bounds(&packet(
        &[0xbe, 0xde, 0x00, 0x01, 0x50, 0xaa, 0x00, 0x00],
        &[]
    )));
    assert!(Header::unmarshal_reads_in_bounds(&packet(
        &[0x10, 0x00, 0x00, 0x01, 0x07, 0x02, 0xcc, 0xdd],
        &[]
    )));
    // A one-byte extension of 4 bytes that runs past the packet.
    assert!(!Header::unmarshal_reads_in_bounds(&packet(
        &[0xbe, 0xde, 0x00, 0x01, 0x33, 0xaa, 0x00, 0x00],
        &[]
    )));
    // A two-byte extension whose length byte lies past the packet.
    assert!(!Header::unmarshal_reads_in_bounds(&packet(
        &[0x10, 0x00, 0x00, 0x01, 0x00, 0x00, 0x00, 0x07],
        &[]
    )));
    // A two-byte extension of 9 bytes that runs past the packet.
    assert!(!Header::unmarshal_reads_in_bounds(&packet(
        &[0x10, 0x00, 0x00, 0x01, 0x07, 0x09, 0xcc, 0xdd],
        &[]
    )));
}

#[test]
fn test_extension_profile_from_and_default() {
    assert_eq!(ExtensionProfile::from(0xBEDE), ExtensionProfile::OneByte);
    assert_eq!(ExtensionProfile::from(0x1000), ExtensionProfile::TwoByte);
    assert_eq!(ExtensionProfile::from(0x0001), ExtensionProfile::Undefined);
    assert_eq!(ExtensionProfile::from(0), ExtensionProfile::Undefined);
    assert_eq!(ExtensionProfile::default(), ExtensionProfile::Undefined);
}

fn base_header() -> Header {
    Header {
        version: 2,
        padding: false,
        extension: false,
        marker: true,
        payload_type: 96,
        sequence_number: 27023,
        timestamp: 3653407706,
        ssrc: 476325762,
        csrc: vec![],
        extension_profile: 0,
        extensions: vec![],
    }
}

#[test]
fn test_marshal_size() {
    let mut h = base_header();
    assert_eq!(h.marshal_size(), 12);
    h.csrc = vec![1, 2, 3];
    assert_eq!(h.marshal_size(), 24);
    h.set_extension(1, &[1, 2, 3]).unwrap();
    // one-byte: 1 + 3 bytes, one word.
    assert_eq!(h.marshal_size(), 24 + 4 + 4);
    h.set_extension(2, &[1]).unwrap();
    // 4 + 2 bytes, rounded to 8.
    assert_eq!(h.marshal_size(), 24 + 4 + 8);
    let mut h = base_header();
    h.set_extension(1, &[0u8; 20]).unwrap();
    assert_eq!(h.extension_profile, 0x1000);
    // two-byte: 2 + 20 bytes, rounded to 24.
    assert_eq!(h.marshal_size(), 12 + 4 + 24);
}

#[test]
fn test_marshal_bytes() {
    let mut h = base_header();
    h.padding = true;
    h.csrc = vec![0x01020304];
    h.set_extension(1, &[0xaa, 0xbb]).unwrap();
    let bytes = h.marshal().unwrap();
    assert_eq!(
        bytes,
        vec![
            0xb1, 0xe0, 0x69, 0x8f, 0xd9, 0xc2, 0x93, 0xda, 0x1c, 0x64, 0x27, 0x82, 0x01, 0x02, 0x03,
            0x04, 0xbe, 0xde, 0x00, 0x01, 0x11, 0xaa, 0xbb, 0x00
        ]
    );
}

#[test]
fn test_marshal_to_short_buffer() {
    let mut h = base_header();
    let mut buf = [7u8; 11];
    assert_eq!(h.marshal_to(&mut buf), Err(RTPError::ShortBuffer));
    assert_eq!(buf, [7u8; 11]);
    let mut buf = [7u8; 14];
    assert_eq!(h.marshal_to(&mut buf), Ok(12));
    assert_eq!(&buf[12..], &[7, 7]);
}

#[test]
fn test_marshal_rfc3550_payload_not_words() {
    let mut h = base_header();
    h.extension = true;
    h.extension_profile = 0x0001;
    h.extensions = vec![Extension { id: 0, payload: vec![1, 2, 3] }];
    assert_eq!(h.marshal(), Err(RTPError::ShortBuffer));
    let mut buf = [7u8; 20];
    assert_eq!(h.marshal_to(&mut buf), Err(RTPError::ShortBuffer));
    // The fixed header and the profile have been written.
    assert_eq!(&buf[12..], &[0x00, 0x01, 7, 7, 7, 7, 7, 7]);
}

#[test]
fn test_set_extension_errors() {
    let mut h = base_header();
    h.extension = true;
    h.extension_profile = 0xBEDE;
    let before = h.clone();
    assert_eq!(h.set_extension(0, &[1]), Err(RTPError::RFC8285OneByteHeaderIDRange(0)));
    assert_eq!(h.set_extension(15, &[1]), Err(RTPError::RFC8285OneByteHeaderIDRange(15)));
    assert_eq!(h.set_extension(1, &[0u8; 17]), Err(RTPError::RFC8285OneByteHeaderSize(1)));
    assert_eq!(h, before);
    h.extension_profile = 0x1000;
    assert_eq!(h.set_extension(0, &[1]), Err(RTPError::RFC8285TwoByteHeaderIDRange(0)));
    assert_eq!(h.set_extension(1, &[0u8; 256]), Err(RTPError::RFC8285TwoByteHeaderSize(1)));
    assert_eq!(h.set_extension(1, &[0u8; 255]), Ok(()));
    let mut h = base_header();
    h.extension = true;
    h.extension_profile = 0x0001;
    assert_eq!(h.set_extension(1, &[1, 2, 3, 4]), Err(RTPError::RFC3550HeaderIDRange(1)));
    assert_eq!(h.set_extension(0, &[1, 2, 3, 4]), Ok(()));
}

#[test]
fn test_set_extension_updates_and_appends() {
    let mut h = base_header();
    h.set_extension(1, &[1]).unwrap();
    assert!(h.extension);
    assert_eq!(h.extension_profile, 0xBEDE);
    h.set_extension(2, &[2, 2]).unwrap();
    h.set_extension(1, &[3, 3, 3]).unwrap();
    assert_eq!(
        h.extensions,
        vec![
            Extension { id: 1, payload: vec![3, 3, 3] },
            Extension { id: 2, payload: vec![2, 2] }
        ]
    );
}

#[test]
fn test_set_extension_large_payload_keeps_profile() {
    let mut h = base_header();
    h.extension_profile = 0x1234;
    h.set_extension(0, &[0u8; 256]).unwrap();
    assert!(h.extension);
    assert_eq!(h.extension_profile, 0x1234);
    assert_eq!(h.extensions.len(), 1);
}

#[test]
fn test_get_extension() {
    let mut h = base_header();
    assert_eq!(h.get_extension(1), None);
    h.extensions.push(Extension { id: 1, payload: vec![9] });
    // Extensions are not enabled.
    assert_eq!(h.get_extension(1), None);
    h.extension = true;
    assert_eq!(h.get_extension(1), Some(&[9u8][..]));
    assert_eq!(h.get_extension(2), None);
}

#[test]
fn test_get_extension_ids() {
    let mut h = base_header();
    assert_eq!(h.get_extension_ids(), Vec::<u8>::new());
    h.extension = true;
    assert_eq!(h.get_extension_ids(), Vec::<u8>::new());
    h.extension_profile = 0xBEDE;
    h.set_extension(3, &[1]).unwrap();
    h.set_extension(4, &[1]).unwrap();
    h.set_extension(5, &[1]).unwrap();
    assert_eq!(h.get_extension_ids(), vec![3, 4, 5]);
    h.extension = false;
    assert_eq!(h.get_extension_ids(), Vec::<u8>::new());
}

#[test]
fn test_del_extension() {
    let mut h = base_header();
    assert_eq!(h.del_extension(1), Err(RTPError::HeaderExtensionNotEnabled));
    h.set_extension(1, &[1]).unwrap();
    h.set_extension(2, &[2]).unwrap();
    assert_eq!(h.del_extension(3), Err(RTPError::HeaderExtensionNotFound));
    assert_eq!(h.del_extension(1), Ok(()));
    assert_eq!(h.extensions, vec![Extension { id: 2, payload: vec![2] }]);
    assert_eq!(h.get_extension(1), None);
    assert_eq!(h.del_extension(1), Err(RTPError::HeaderExtensionNotFound));
}

// Laws on concrete values.

#[test]
fn test_law_unmarshal_marshal_roundtrip() {
    let mut headers = Vec::new();
    let mut h = base_header();
    h.csrc = vec![1, 0xffffffff];
    headers.push(h.clone());
    h.set_extension(1, &[1, 2, 3]).unwrap();
    h.set_extension(14, &[0u8; 16]).unwrap();
    headers.push(h.clone());
    let mut h2 = base_header();
    h2.set_extension(200, &[5u8; 100]).unwrap();
    h2.set_extension(1, &[]).unwrap();
    headers.push(h2);
    let mut h3 = base_header();
    h3.extension = true;
    h3.extension_profile = 0x0002;
    h3.extensions = vec![Extension { id: 0, payload: vec![1, 2, 3, 4, 5, 6, 7, 8] }];
    headers.push(h3);
    for mut h in headers {
        let bytes = h.marshal().unwrap();
        let mut back = Header::default();
        assert_eq!(back.unmarshal(&bytes), Ok(bytes.len()));
        assert_eq!(back, h);
    }
}

#[test]
fn test_law_get_after_set() {
    let mut h = base_header();
    h.set_extension(7, &[1, 2]).unwrap();
    assert_eq!(h.get_extension(7), Some(&[1u8, 2][..]));
    h.set_extension(7, &[3]).unwrap();
    assert_eq!(h.get_extension(7), Some(&[3u8][..]));
}

#[test]
fn test_law_set_keeps_other_ids() {
    let mut h = base_header();
    h.set_extension(1, &[1]).unwrap();
    h.set_extension(2, &[2]).unwrap();
    h.set_extension(1, &[9, 9]).unwrap();
    assert_eq!(h.get_extension(2), Some(&[2u8][..]));
}

#[test]
fn test_law_get_after_del() {
    let mut h = base_header();
    h.set_extension(1, &[1]).unwrap();
    h.set_extension(2, &[2]).unwrap();
    h.del_extension(2).unwrap();
    assert_eq!(h.get_extension(2), None);
    assert_eq!(h.get_extension(1), Some(&[1u8][..]));
}

#[test]
fn test_law_marshal_size_aligned() {
    let mut h = base_header();
    for len in 0..20usize {
        let payload = vec![1u8; len + 1];
        h.set_extension(1, &payload[..len.min(15) + 1]).unwrap();
        assert_eq!(h.marshal_size() % 4, 0);
        assert_eq!(h.marshal().unwrap().len(), h.marshal_size());
    }
}

#[test]
fn test_law_unmarshal_offset_in_packet() {
    let raw = packet(&[0xbe, 0xde, 0x00, 0x01, 0x10, 0xaa, 0x00, 0x00], &[]);
    let mut h = Header::default();
    let n = h.unmarshal(&raw).unwrap();
    assert!(n <= raw.len());
}

#[test]
fn test_big_endian_fields() {
    let mut h = base_header();
    h.sequence_number = 0x1234;
    h.timestamp = 0x01020304;
    h.ssrc = 0xa1b2c3d4;
    let bytes = h.marshal().unwrap();
    assert_eq!(&bytes[2..12], &[0x12, 0x34, 0x01, 0x02, 0x03, 0x04, 0xa1, 0xb2, 0xc3, 0xd4]);
    let mut back = Header::default();
    back.unmarshal(&bytes).unwrap();
    assert_eq!(back.sequence_number, 0x1234);
    assert_eq!(back.timestamp, 0x01020304);
    assert_eq!(back.ssrc, 0xa1b2c3d4);
}

#[test]
fn test_law_marshal_reproduces_packet_without_extension() {
    let packets: Vec<Vec<u8>> = vec![
        vec![0xa1, 0x7f, 0xff, 0xfe, 0x01, 0x02, 0x03, 0x04, 0x05, 0x06, 0x07, 0x08, 0xde, 0xad, 0xbe, 0xef],
        vec![0x40, 0x80, 0, 0, 0, 0, 0, 0, 0, 0, 0, 0],
    ];
    for p in packets {
        let mut h = Header::default();
        h.extensions.push(Extension { id: 9, payload: vec![1] });
        assert_eq!(h.unmarshal(&p), Ok(p.len()));
        assert_eq!(h.marshal().unwrap(), p);
    }
}

#[test]
fn test_unmarshal_error_keeps_old_extensions() {
    let old = vec![Extension { id: 3, payload: vec![1] }];
    let mut h = Header::default();
    h.extensions = old.clone();
    assert_eq!(h.unmarshal(&FIXED[..11]), Err(RTPError::HeaderSizeInsufficient));
    assert_eq!(h.extensions, old);
    let mut h = Header::default();
    h.extensions = old.clone();
    assert_eq!(
        h.unmarshal(&packet(&[0xbe, 0xde], &[])),
        Err(RTPError::HeaderSizeInsufficientForExtension)
    );
    assert_eq!(h.extensions, old);
    let mut h = Header::default();
    h.extensions = old.clone();
    assert_eq!(
        h.unmarshal(&packet(&[0xbe, 0xde, 0x00, 0x02, 0x10, 0xaa], &[])),
        Err(RTPError::HeaderSizeInsufficientForExtension)
    );
    assert_eq!(h.extensions, old);
}

#[test]
fn test_extension_profile_as_u16() {
    assert_eq!(ExtensionProfile::OneByte.as_u16(), 0xBEDE);
    assert_eq!(ExtensionProfile::TwoByte.as_u16(), 0x1000);
    assert_eq!(ExtensionProfile::Undefined.as_u16(), 0x1001);
    assert_eq!(ExtensionProfile::from(ExtensionProfile::OneByte.as_u16()), ExtensionProfile::OneByte);
    assert_eq!(ExtensionProfile::from(ExtensionProfile::TwoByte.as_u16()), ExtensionProfile::TwoByte);
}

#[test]
fn test_marshal_to_empty_one_byte_payload_short_buffer() {
    let mut h = base_header();
    h.extension = true;
    h.extension_profile = 0xBEDE;
    h.extensions = vec![Extension { id: 1, payload: vec![] }];
    let mut buf = [0u8; 8];
    assert_eq!(h.marshal_to(&mut buf), Err(RTPError::ShortBuffer));
    assert_eq!(buf, [0u8; 8]);
}

#[test]
fn test_law_unmarshal_independent_of_target() {
    let raw = packet(&[0xbe, 0xde, 0x00, 0x01, 0x50, 0xaa, 0x00, 0x00], &[1, 2]);
    let mut a = Header::default();
    let mut b = base_header();
    b.csrc = vec![7, 8];
    b.extension_profile = 0x1000;
    b.extensions = vec![Extension { id: 9, payload: vec![9, 9] }];
    assert_eq!(a.unmarshal(&raw), b.unmarshal(&raw));
    assert_eq!(a, b);
    // Without an extension block each header keeps its profile.
    let mut raw = FIXED.to_vec();
    raw[0] = 0x80;
    let mut a = Header::default();
    let mut b = base_header();
    b.extension_profile = 0x1000;
    b.extensions = vec![Extension { id: 9, payload: vec![9] }];
    assert_eq!(a.unmarshal(&raw), b.unmarshal(&raw));
    b.extension_profile = a.extension_profile;
    assert_eq!(a, b);
}
