use little_exif::endian::{u16_from_bytes, u32_from_bytes, push_u16_bytes, push_u32_bytes, Endian};
use little_exif::envelope::{decode_metadata_png, encode_byte, encode_metadata_png};
use little_exif::ifd::{ExifTag, ExifTagGroup, ImageFileDirectory};
use little_exif::rational::{add_next_fraction_term, max_safe_term, uR64};
use little_exif::MetaError;

fn le(v: u32) -> [u8; 4] {
    [
        (v % 0x100) as u8,
        ((v / 0x100) % 0x100) as u8,
        ((v / 0x10000) % 0x100) as u8,
        (v / 0x1000000) as u8,
    ]
}

fn entry(id: u16, format: u16, components: u32, value: [u8; 4]) -> Vec<u8> {
    let mut out = Vec::new();
    out.extend_from_slice(&[(id % 0x100) as u8, (id / 0x100) as u8]);
    out.extend_from_slice(&[(format % 0x100) as u8, (format / 0x100) as u8]);
    out.extend_from_slice(&le(components));
    out.extend_from_slice(&value);
    out
}

fn ifd_blob(entries: &[Vec<u8>], tail: &[u8]) -> Vec<u8> {
    let mut out = Vec::new();
    out.extend_from_slice(&[(entries.len() % 0x100) as u8, (entries.len() / 0x100) as u8]);
    for e in entries {
        out.extend_from_slice(e);
    }
    out.extend_from_slice(&[0, 0, 0, 0]);
    out.extend_from_slice(tail);
    out
}

#[test]
fn endian_roundtrips() {
    assert_eq!(u16_from_bytes(&Endian::Big, 0x12, 0x34), 0x1234);
    assert_eq!(u16_from_bytes(&Endian::Little, 0x12, 0x34), 0x3412);
    assert_eq!(u32_from_bytes(&Endian::Big, 0x01, 0x02, 0x03, 0x04), 0x01020304);
    assert_eq!(u32_from_bytes(&Endian::Little, 0x01, 0x02, 0x03, 0x04), 0x04030201);
    let mut buf = Vec::new();
    push_u16_bytes(&mut buf, &Endian::Big, 0xbeef);
    push_u32_bytes(&mut buf, &Endian::Little, 0xdeadbeef);
    assert_eq!(buf, vec![0xbe, 0xef, 0xef, 0xbe, 0xad, 0xde]);
}

#[test]
fn encode_byte_renders_two_hex_digits() {
    assert_eq!(encode_byte(&0x30), [0x33, 0x30]);
    assert_eq!(encode_byte(&0xab), [0x61, 0x62]);
    assert_eq!(encode_byte(&0x0f), [0x30, 0x66]);
}

#[test]
fn envelope_exact_bytes() {
    // One payload byte: declared length is 6 + 1 + 1 = 8.
    let encoded = encode_metadata_png(&vec![0xab]);
    let mut expected: Vec<u8> = Vec::new();
    expected.extend_from_slice(b"\nexif\n       8\n");
    expected.extend_from_slice(b"45786966");
    expected.extend_from_slice(b"0000");
    expected.extend_from_slice(b"ab");
    expected.extend_from_slice(b"00\n");
    assert_eq!(encoded, expected);
}

#[test]
fn envelope_roundtrip_values() {
    for payload in [vec![], vec![0x01, 0x02, 0x03], vec![0xff; 300], (0u16..256).map(|b| b as u8).collect()] {
        let encoded = encode_metadata_png(&payload);
        let decoded = decode_metadata_png(&encoded).unwrap();
        assert_eq!(decoded, payload);
    }
}

#[test]
fn envelope_decode_rejects_garbage() {
    assert_eq!(decode_metadata_png(&b"no header here".to_vec()), Err(MetaError::EnvelopeMismatch));
    // A header with no declared length in front of it is rejected too.
    assert_eq!(
        decode_metadata_png(&b"4578696600000000".to_vec()),
        Err(MetaError::EnvelopeMismatch)
    );
    // A wrong declared length is caught.
    let mut enc = encode_metadata_png(&vec![0x01]);
    enc[13] = b'7'; // declared length 8 -> 7
    assert_eq!(decode_metadata_png(&enc), Err(MetaError::EnvelopeMismatch));
}

#[test]
fn decode_unknown_tag_carried_raw() {
    let blob = ifd_blob(
        &[entry(0x1000, 1, 3, [7, 8, 9, 0])],
        &[],
    );
    let mut ifds: Vec<ImageFileDirectory> = Vec::new();
    let link = ImageFileDirectory::decode_ifd(&blob, 0, 0, &Endian::Little, &ExifTagGroup::GENERIC, 0, &mut ifds)
        .unwrap();
    assert_eq!(link, None);
    assert_eq!(ifds.len(), 1);
    assert_eq!(ifds[0].get_generic_ifd_nr(), 0);
    assert_eq!(ifds[0].get_ifd_type(), ExifTagGroup::GENERIC);
    assert_eq!(ifds[0].tags.len(), 1);
    match &ifds[0].tags[0] {
        ExifTag::Entry { id, format, components, data } => {
            assert_eq!(*id, 0x1000);
            assert_eq!(*format, 1);
            assert_eq!(*components, 3);
            assert_eq!(data, &vec![7, 8, 9]);
        }
        _ => panic!("expected a plain entry"),
    }
}

#[test]
fn decode_coerces_short_to_long() {
    // ImageWidth as a 16-bit value widens to the expected 32-bit format.
    let blob = ifd_blob(&[entry(0x0100, 3, 1, [0x20, 0x03, 0, 0])], &[]);
    let mut ifds: Vec<ImageFileDirectory> = Vec::new();
    ImageFileDirectory::decode_ifd(&blob, 0, 0, &Endian::Little, &ExifTagGroup::GENERIC, 0, &mut ifds).unwrap();
    match &ifds[0].tags[0] {
        ExifTag::Entry { id, format, components, data } => {
            assert_eq!(*id, 0x0100);
            assert_eq!(*format, 4);
            assert_eq!(*components, 1);
            assert_eq!(data, &vec![0x20, 0x03, 0, 0]);
        }
        _ => panic!("expected a plain entry"),
    }
}

#[test]
fn decode_resolves_strip_pair() {
    // Offsets tag and byte-counts tag resolve into one synthesized tag
    // holding the pointed-at segment.
    let entries = [
        entry(0x0111, 4, 1, le(30)),
        entry(0x0117, 4, 1, le(3)),
    ];
    let mut blob = ifd_blob(&entries, &[]);
    while blob.len() < 30 {
        blob.push(0);
    }
    blob.extend_from_slice(&[9, 8, 7]);
    let mut ifds: Vec<ImageFileDirectory> = Vec::new();
    ImageFileDirectory::decode_ifd(&blob, 0, 0, &Endian::Little, &ExifTagGroup::GENERIC, 0, &mut ifds).unwrap();
    assert_eq!(ifds.len(), 1);
    assert_eq!(ifds[0].tags.len(), 1);
    match &ifds[0].tags[0] {
        ExifTag::Strips { segments } => {
            assert_eq!(segments, &vec![vec![9, 8, 7]]);
        }
        _ => panic!("expected the synthesized strip tag"),
    }
}

#[test]
fn decode_recurses_into_sub_ifd() {
    // A generic directory whose EXIF offset tag points at a nested
    // directory with one unknown tag.
    let sub = ifd_blob(&[entry(0x9999, 1, 1, [5, 0, 0, 0])], &[]);
    let main_len = 2 + 12 + 4;
    let entries = [entry(0x8769, 4, 1, le(main_len as u32))];
    let mut blob = ifd_blob(&entries, &[]);
    blob.extend_from_slice(&sub);
    let mut ifds: Vec<ImageFileDirectory> = Vec::new();
    let link = ImageFileDirectory::decode_ifd(&blob, 0, 0, &Endian::Little, &ExifTagGroup::GENERIC, 0, &mut ifds)
        .unwrap();
    assert_eq!(link, None);
    assert_eq!(ifds.len(), 2);
    assert_eq!(ifds[0].get_ifd_type(), ExifTagGroup::EXIF);
    assert_eq!(ifds[1].get_ifd_type(), ExifTagGroup::GENERIC);
}

#[test]
fn decode_rejects_out_of_bounds_sub_ifd_offset() {
    // An offset tag pointing past the buffer end fails cleanly.
    let blob = ifd_blob(&[entry(0x8769, 4, 1, le(0xffff))], &[]);
    let mut ifds: Vec<ImageFileDirectory> = Vec::new();
    let r = ImageFileDirectory::decode_ifd(&blob, 0, 0, &Endian::Little, &ExifTagGroup::GENERIC, 0, &mut ifds);
    assert_eq!(r, Err(MetaError::BadOffset));
}

#[test]
fn decode_rejects_unknown_format() {
    let blob = ifd_blob(&[entry(0x1000, 13, 1, [0, 0, 0, 0])], &[]);
    let mut ifds: Vec<ImageFileDirectory> = Vec::new();
    let r = ImageFileDirectory::decode_ifd(&blob, 0, 0, &Endian::Little, &ExifTagGroup::GENERIC, 0, &mut ifds);
    assert_eq!(r, Err(MetaError::UnknownFormat));
}

#[test]
fn decode_rejects_format_mismatch() {
    // ImageWidth with an 8-bit format is neither expected nor coercible.
    let blob = ifd_blob(&[entry(0x0100, 1, 1, [1, 0, 0, 0])], &[]);
    let mut ifds: Vec<ImageFileDirectory> = Vec::new();
    let r = ImageFileDirectory::decode_ifd(&blob, 0, 0, &Endian::Little, &ExifTagGroup::GENERIC, 0, &mut ifds);
    assert_eq!(r, Err(MetaError::FormatMismatch));
}

#[test]
fn decode_rejects_truncated_table() {
    // The count announces two entries but only the count itself fits.
    let blob = vec![2, 0, 0, 0, 0, 0];
    let mut ifds: Vec<ImageFileDirectory> = Vec::new();
    let r = ImageFileDirectory::decode_ifd(&blob, 0, 0, &Endian::Little, &ExifTagGroup::GENERIC, 0, &mut ifds);
    assert_eq!(r, Err(MetaError::Truncated));
}

#[test]
fn decode_rejects_chained_sub_ifd() {
    // A nested directory may not chain to a sibling: a nonzero trailing
    // link inside it is an error.
    let mut sub = ifd_blob(&[entry(0x9999, 1, 1, [5, 0, 0, 0])], &[]);
    let n = sub.len();
    sub[n - 4] = 0x50; // nonzero link in the nested directory
    let main_len = 2 + 12 + 4;
    let mut blob = ifd_blob(&[entry(0x8769, 4, 1, le(main_len as u32))], &[]);
    blob.extend_from_slice(&sub);
    let mut ifds: Vec<ImageFileDirectory> = Vec::new();
    let r = ImageFileDirectory::decode_ifd(&blob, 0, 0, &Endian::Little, &ExifTagGroup::GENERIC,
        0, &mut ifds);
    assert_eq!(r, Err(MetaError::SubIfdChained));
}

#[test]
fn decode_drops_lone_strip_half() {
    // A strip-offsets tag without its byte-counts partner is dropped
    // without failing the directory.
    let blob = ifd_blob(&[entry(0x0111, 4, 1, le(30))], &[]);
    let mut ifds: Vec<ImageFileDirectory> = Vec::new();
    let r = ImageFileDirectory::decode_ifd(&blob, 0, 0, &Endian::Little, &ExifTagGroup::GENERIC,
        0, &mut ifds);
    assert_eq!(r, Ok(None));
    assert_eq!(ifds.len(), 1);
    assert_eq!(ifds[0].tags.len(), 0);
}

#[test]
fn envelope_decode_accepts_uppercase_hex() {
    let mut enc: Vec<u8> = Vec::new();
    enc.extend_from_slice(b"\nexif\n       8\n");
    enc.extend_from_slice(b"45786966");
    enc.extend_from_slice(b"0000");
    enc.extend_from_slice(b"AB");
    enc.extend_from_slice(b"00\n");
    assert_eq!(decode_metadata_png(&enc), Ok(vec![0xab]));
}

#[test]
fn decode_self_reference_terminates() {
    // A directory whose EXIF offset tag points back at itself terminates:
    // inside the nested group the id is unknown, so the nested directory
    // carries it as a raw tag and the recursion stops.
    let blob = ifd_blob(&[entry(0x8769, 4, 1, le(0))], &[]);
    let mut ifds: Vec<ImageFileDirectory> = Vec::new();
    let r = ImageFileDirectory::decode_ifd(&blob, 0, 0, &Endian::Little, &ExifTagGroup::GENERIC, 0, &mut ifds);
    assert_eq!(r, Ok(None));
    assert_eq!(ifds.len(), 2);
    assert_eq!(ifds[0].get_ifd_type(), ExifTagGroup::EXIF);
    assert_eq!(ifds[0].tags.len(), 1);
    assert_eq!(ifds[1].get_ifd_type(), ExifTagGroup::GENERIC);
    assert_eq!(ifds[1].tags.len(), 0);
}

#[test]
fn decode_short_buffer_is_no_ifd() {
    let blob = vec![1, 0, 3];
    let mut ifds: Vec<ImageFileDirectory> = Vec::new();
    let r = ImageFileDirectory::decode_ifd(&blob, 0, 0, &Endian::Little, &ExifTagGroup::GENERIC, 0, &mut ifds);
    assert_eq!(r, Ok(None));
    assert_eq!(ifds.len(), 0);
}

#[test]
fn decode_returns_chain_link() {
    let mut blob = ifd_blob(&[entry(0x1000, 1, 1, [1, 0, 0, 0])], &[]);
    let n = blob.len();
    blob[n - 4] = 0x44; // nonzero trailing link
    let mut ifds: Vec<ImageFileDirectory> = Vec::new();
    let link = ImageFileDirectory::decode_ifd(&blob, 0, 0, &Endian::Little, &ExifTagGroup::GENERIC, 0, &mut ifds)
        .unwrap();
    assert_eq!(link, Some(0x44));
}

#[test]
fn encode_decode_roundtrip() {
    // A narrow and a wide tag, ascending ids: encoding and decoding gives
    // the same tags back.
    let tags = vec![
        ExifTag::Entry { id: 0x1000, format: 1, components: 3, data: vec![7, 8, 9] },
        ExifTag::Entry { id: 0x2000, format: 4, components: 2, data: vec![1, 2, 3, 4, 5, 6, 7, 8] },
    ];
    let ifd = ImageFileDirectory::new(tags, ExifTagGroup::GENERIC, 0);
    let blob = ifd.encode_generic_ifd(&Endian::Little).unwrap();
    let mut ifds: Vec<ImageFileDirectory> = Vec::new();
    let link = ImageFileDirectory::decode_ifd(&blob, 0, 0, &Endian::Little, &ExifTagGroup::GENERIC, 0, &mut ifds)
        .unwrap();
    assert_eq!(link, None);
    assert_eq!(ifds.len(), 1);
    assert_eq!(ifds[0].tags.len(), 2);
    match &ifds[0].tags[0] {
        ExifTag::Entry { id, format, components, data } => {
            assert_eq!((*id, *format, *components), (0x1000, 1, 3));
            assert_eq!(data, &vec![7, 8, 9]);
        }
        _ => panic!("expected a plain entry"),
    }
    match &ifds[0].tags[1] {
        ExifTag::Entry { id, format, components, data } => {
            assert_eq!((*id, *format, *components), (0x2000, 4, 2));
            assert_eq!(data, &vec![1, 2, 3, 4, 5, 6, 7, 8]);
        }
        _ => panic!("expected a plain entry"),
    }
}

#[test]
fn encode_decode_roundtrip_big_endian() {
    let tags = vec![ExifTag::Entry { id: 0x0100, format: 4, components: 1, data: vec![0, 0, 3, 0x20] }];
    let ifd = ImageFileDirectory::new(tags, ExifTagGroup::GENERIC, 2);
    let blob = ifd.encode_generic_ifd(&Endian::Big).unwrap();
    let mut ifds: Vec<ImageFileDirectory> = Vec::new();
    ImageFileDirectory::decode_ifd(&blob, 0, 0, &Endian::Big, &ExifTagGroup::GENERIC, 2, &mut ifds).unwrap();
    assert_eq!(ifds.len(), 1);
    assert_eq!(ifds[0].get_generic_ifd_nr(), 2);
    match &ifds[0].tags[0] {
        ExifTag::Entry { id, format, components, data } => {
            assert_eq!((*id, *format, *components), (0x0100, 4, 1));
            assert_eq!(data, &vec![0, 0, 3, 0x20]);
        }
        _ => panic!("expected a plain entry"),
    }
}

#[test]
fn convergent_recurrence_simple_ratios() {
    // The continued fraction of one half is [0; 2]: starting from the
    // seeds, one term of two yields one over two.
    let previous = uR64 { nominator: 1, denominator: 0 };
    let convergent = uR64 { nominator: 0, denominator: 1 };
    let next = add_next_fraction_term(&2, &convergent, &previous);
    assert_eq!(next, uR64 { nominator: 1, denominator: 2 });
    // An integer's first convergent is the integer over one.
    let first = add_next_fraction_term(&2022, &uR64 { nominator: 1, denominator: 0 }, &uR64 {
        nominator: 0,
        denominator: 1,
    });
    assert_eq!(first, uR64 { nominator: 2022, denominator: 1 });
}

#[test]
fn max_safe_term_bounds() {
    let n = max_safe_term(
        &uR64 { nominator: 1, denominator: 2 },
        &uR64 { nominator: 0, denominator: 1 },
    );
    assert_eq!(n, (0x7fffffff - 1) / 2);
    let m = max_safe_term(
        &uR64 { nominator: 0, denominator: 1 },
        &uR64 { nominator: 1, denominator: 0 },
    );
    assert_eq!(m, 0x7fffffff);
}
