use little_exif::png::{as_u8_vec, clear_metadata, parse_png, read_metadata, write_metadata};
use little_exif::MetaError;

fn crc32(data: &[u8]) -> u32 {
    crc::Crc::<u32>::new(&crc::CRC_32_ISO_HDLC).checksum(data)
}

fn chunk(ctype: &[u8; 4], data: &[u8]) -> Vec<u8> {
    let mut out = Vec::new();
    let len = data.len() as u32;
    out.extend_from_slice(&len.to_be_bytes());
    out.extend_from_slice(ctype);
    out.extend_from_slice(data);
    let mut crc_input = ctype.to_vec();
    crc_input.extend_from_slice(data);
    out.extend_from_slice(&crc32(&crc_input).to_be_bytes());
    out
}

const PNG_SIGNATURE: [u8; 8] = [0x89, 0x50, 0x4e, 0x47, 0x0d, 0x0a, 0x1a, 0x0a];

fn minimal_png() -> Vec<u8> {
    let mut png = PNG_SIGNATURE.to_vec();
    let ihdr_data = [0, 0, 0, 1, 0, 0, 0, 1, 8, 0, 0, 0, 0];
    png.extend_from_slice(&chunk(b"IHDR", &ihdr_data));
    png.extend_from_slice(&chunk(b"IDAT", &[0x78, 0x9c, 0x62, 0x00, 0x00]));
    png.extend_from_slice(&chunk(b"IEND", &[]));
    png
}

#[test]
fn parsing_test() {
    let chunks = parse_png(&minimal_png()).unwrap();
    assert_eq!(chunks.len(), 3);
}

#[test]
fn parse_reports_chunk_types_and_lengths() {
    let png = minimal_png();
    let chunks = parse_png(&png).unwrap();
    assert_eq!(chunks[0].chunk_type, *b"IHDR");
    assert_eq!(chunks[0].length(), 13);
    assert_eq!(chunks[1].chunk_type, *b"IDAT");
    assert_eq!(chunks[2].chunk_type, *b"IEND");
    assert_eq!(chunks[2].length(), 0);
}

#[test]
fn parse_rejects_bad_signature() {
    let mut png = minimal_png();
    png[0] = 0x88;
    assert_eq!(parse_png(&png), Err(MetaError::BadSignature));
    assert_eq!(parse_png(&vec![1, 2, 3]), Err(MetaError::BadSignature));
}

#[test]
fn parse_rejects_flipped_bit_in_data() {
    // A single flipped bit inside a chunk's data makes the checksum fail.
    let mut png = minimal_png();
    png[8 + 8 + 2] ^= 0x01;
    assert_eq!(parse_png(&png), Err(MetaError::BadChecksum));
}

#[test]
fn parse_rejects_flipped_bit_in_crc() {
    // A single flipped bit inside the stored CRC fails the same way.
    let mut png = minimal_png();
    let crc_pos = 8 + 8 + 13 + 2;
    png[crc_pos] ^= 0x80;
    assert_eq!(parse_png(&png), Err(MetaError::BadChecksum));
}

#[test]
fn parse_rejects_truncated_chunk() {
    let png = minimal_png();
    let cut = png[..png.len() - 6].to_vec();
    assert_eq!(parse_png(&cut), Err(MetaError::Truncated));
}

#[test]
fn parse_rejects_bad_chunk_name() {
    // A chunk type with a non-letter byte is refused even with a valid
    // checksum.
    let mut png = PNG_SIGNATURE.to_vec();
    png.extend_from_slice(&chunk(b"IH1R", &[1, 2, 3]));
    png.extend_from_slice(&chunk(b"IEND", &[]));
    assert_eq!(parse_png(&png), Err(MetaError::BadChunkName));
}

#[test]
fn read_on_bare_image_is_not_found() {
    assert_eq!(read_metadata(&minimal_png()), Err(MetaError::NotFound));
}

#[test]
fn write_then_read_roundtrip() {
    // End to end: embed a payload, read it back, and find exactly four
    // valid chunks in the rewritten image.
    let png = minimal_png();
    let payload = vec![0x01, 0x02, 0x03];
    let written = write_metadata(&png, &payload).unwrap();
    assert_eq!(read_metadata(&written), Ok(payload));
    let chunks = parse_png(&written).unwrap();
    assert_eq!(chunks.len(), 4);
    assert_eq!(chunks[0].chunk_type, *b"IHDR");
    assert_eq!(chunks[1].chunk_type, *b"zTXt");
    assert_eq!(chunks[2].chunk_type, *b"IDAT");
    assert_eq!(chunks[3].chunk_type, *b"IEND");
}

#[test]
fn write_then_read_large_payload() {
    let png = minimal_png();
    let payload: Vec<u8> = (0..2048u32).map(|i| (i * 7 % 256) as u8).collect();
    let written = write_metadata(&png, &payload).unwrap();
    assert_eq!(read_metadata(&written), Ok(payload));
}

#[test]
fn clear_removes_written_metadata() {
    let png = minimal_png();
    let written = write_metadata(&png, &vec![9, 9, 9]).unwrap();
    let cleared = clear_metadata(&written).unwrap();
    assert_eq!(cleared, png);
    assert_eq!(read_metadata(&cleared), Err(MetaError::NotFound));
}

#[test]
fn clear_is_idempotent() {
    // A second clear on an already cleared image is a byte-identical no-op.
    let png = minimal_png();
    let written = write_metadata(&png, &vec![1, 2, 3, 4]).unwrap();
    let once = clear_metadata(&written).unwrap();
    let twice = clear_metadata(&once).unwrap();
    assert_eq!(once, twice);
    // Clearing an image that never had metadata leaves it untouched.
    assert_eq!(clear_metadata(&png), Ok(png));
}

#[test]
fn clear_keeps_unrelated_text_chunks() {
    // A zTXt chunk without the EXIF profile marker survives a clear.
    let mut png = PNG_SIGNATURE.to_vec();
    let ihdr_data = [0, 0, 0, 1, 0, 0, 0, 1, 8, 0, 0, 0, 0];
    png.extend_from_slice(&chunk(b"IHDR", &ihdr_data));
    png.extend_from_slice(&chunk(b"zTXt", b"Comment\x00unrelated"));
    png.extend_from_slice(&chunk(b"IEND", &[]));
    let cleared = clear_metadata(&png).unwrap();
    assert_eq!(cleared, png);
}

#[test]
fn overwrite_replaces_old_payload() {
    let png = minimal_png();
    let first = write_metadata(&png, &vec![1, 1, 1]).unwrap();
    let second = write_metadata(&first, &vec![2, 2, 2]).unwrap();
    assert_eq!(read_metadata(&second), Ok(vec![2, 2, 2]));
    let chunks = parse_png(&second).unwrap();
    assert_eq!(chunks.len(), 4);
}

#[test]
fn write_rejects_corrupt_image() {
    let mut png = minimal_png();
    png[12] ^= 0x40;
    assert_eq!(write_metadata(&png, &vec![1]), Err(MetaError::BadChecksum));
}

#[test]
fn read_rejects_broken_compressed_body() {
    // A marker chunk whose body is not a zlib stream fails to inflate.
    let mut png = PNG_SIGNATURE.to_vec();
    let ihdr_data = [0, 0, 0, 1, 0, 0, 0, 1, 8, 0, 0, 0, 0];
    png.extend_from_slice(&chunk(b"IHDR", &ihdr_data));
    let mut body = b"Raw profile type exif\x00\x00".to_vec();
    body.extend_from_slice(&[0xde, 0xad, 0xbe, 0xef]);
    png.extend_from_slice(&chunk(b"zTXt", &body));
    png.extend_from_slice(&chunk(b"IEND", &[]));
    assert_eq!(read_metadata(&png), Err(MetaError::InflateFailed));
}

#[test]
fn as_u8_vec_builds_chunk_body() {
    let meta = vec![0x10, 0x20];
    let plain = as_u8_vec(&meta, false);
    let mut expected_plain: Vec<u8> = Vec::new();
    expected_plain.extend_from_slice(b"\nexif\n       9\n");
    expected_plain.extend_from_slice(b"45786966");
    expected_plain.extend_from_slice(b"0000");
    expected_plain.extend_from_slice(b"1020");
    expected_plain.extend_from_slice(b"00\n");
    assert_eq!(plain, expected_plain);

    let chunked = as_u8_vec(&meta, true);
    assert_eq!(&chunked[0..4], b"zTXt");
    assert_eq!(&chunked[4..27], b"Raw profile type exif\x00\x00");
    let inflated = miniz_oxide::inflate::decompress_to_vec_zlib(&chunked[27..]).unwrap();
    assert_eq!(inflated, plain);
}
