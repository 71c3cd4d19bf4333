use nds_util::blz::{check_footer, extract, BlzError};

fn footer(footer_len: u32, compressed_len: u32, dest_offset: u32) -> Vec<u8> {
    let mut v = ((footer_len << 24) | compressed_len).to_le_bytes().to_vec();
    v.extend_from_slice(&dest_offset.to_le_bytes());
    v
}

fn literal_image() -> (Vec<u8>, usize) {
    let mut buf: Vec<u8> = (0x10..0x19).collect();
    buf.extend_from_slice(&[0x41, 0x42, 0x43, 0x44, 0x45, 0x46, 0x47, 0x48, 0x00]);
    buf.extend(footer(8, 17, 9));
    let offset = buf.len();
    buf.extend(std::iter::repeat(0xee).take(16));
    (buf, offset)
}

fn reference_image(dest_offset: u32) -> (Vec<u8>, usize) {
    let mut buf: Vec<u8> = (0x10..0x18).collect();
    buf.extend_from_slice(&[0x00, 0x10, 0x43, 0x42, 0x41, 0x10]);
    buf.extend(footer(8, 14, dest_offset));
    let offset = buf.len();
    buf.extend(std::iter::repeat(0xee).take(16));
    (buf, offset)
}

#[test]
fn extract_literals() {
    let (mut buf, offset) = literal_image();
    assert_eq!(offset, 26);
    assert_eq!(check_footer(&buf, offset), Ok(()));
    let range = extract(&mut buf, offset).unwrap();
    assert_eq!(range, 27..35);
    assert_eq!(&buf[range], b"ABCDEFGH");
}

#[test]
fn extract_back_reference() {
    let (mut buf, offset) = reference_image(12);
    assert_eq!(offset, 22);
    let range = extract(&mut buf, offset).unwrap();
    assert_eq!(range, 27..34);
    assert_eq!(&buf[range], &[65, 67, 66, 65, 67, 66, 65]);
}

#[test]
fn extract_over_own_input() {
    let (mut buf, offset) = reference_image(4);
    let range = extract(&mut buf, offset).unwrap();
    assert_eq!(range, 19..26);
    assert_eq!(&buf[range], &[65, 67, 66, 65, 67, 66, 65]);
}

#[test]
fn extract_stops_at_compressed_start() {
    let mut buf: Vec<u8> = (0x10..0x18).collect();
    buf.extend_from_slice(&[0x41, 0x00]);
    buf.extend(footer(8, 10, 6));
    let offset = buf.len();
    buf.extend(std::iter::repeat(0xee).take(16));
    let range = extract(&mut buf, offset).unwrap();
    assert_eq!(range, 23..24);
    assert_eq!(&buf[range], &[0x41]);
}

#[test]
fn extract_leaves_other_bytes() {
    let (orig, offset) = reference_image(12);
    let mut buf = orig.clone();
    let range = extract(&mut buf, offset).unwrap();
    assert_eq!(buf.len(), orig.len());
    for k in 0..buf.len() {
        if k < range.start || k >= range.end {
            assert_eq!(buf[k], orig[k], "byte {} changed", k);
        }
    }
}

#[test]
fn check_footer_offset_out_of_bounds() {
    let buf = vec![0u8; 10];
    assert_eq!(check_footer(&buf, 10), Err(BlzError::OffsetOutOfBounds));
}

#[test]
fn check_footer_too_short() {
    let buf = vec![0u8; 12];
    assert_eq!(check_footer(&buf, 8), Err(BlzError::FooterTooShort));
}

#[test]
fn check_footer_before_start() {
    let buf = vec![0u8; 12];
    assert_eq!(check_footer(&buf, 4), Err(BlzError::FooterBeforeStart));
}

#[test]
fn check_footer_too_long() {
    let mut buf = vec![0u8; 8];
    buf.extend_from_slice(&[0, 0, 0, 0x20, 0, 0, 0, 0]);
    buf.extend(vec![0u8; 8]);
    assert_eq!(check_footer(&buf, 16), Err(BlzError::FooterTooLong));
}

#[test]
fn check_footer_past_start() {
    let mut buf = vec![0u8; 8];
    buf.extend_from_slice(&[0, 0, 0, 0x11, 0, 0, 0, 0]);
    buf.extend(vec![0u8; 20]);
    assert_eq!(check_footer(&buf, 16), Err(BlzError::FooterPastStart));
}

#[test]
fn check_footer_compressed_too_long() {
    let mut buf = vec![0u8; 8];
    buf.extend_from_slice(&[9, 0, 0, 8, 0, 0, 0, 0]);
    buf.extend(vec![0u8; 8]);
    assert_eq!(check_footer(&buf, 16), Err(BlzError::CompressedTooLong));
}

#[test]
fn check_footer_destination_out_of_bounds() {
    let mut buf = vec![0u8; 8];
    buf.extend_from_slice(&[8, 0, 0, 8, 8, 0, 0, 0]);
    buf.extend(vec![0u8; 8]);
    assert_eq!(check_footer(&buf, 16), Err(BlzError::DestinationOutOfBounds));
}

#[test]
fn extract_source_underflow() {
    let mut buf = vec![0u8, 0, 10, 0, 0, 0, 2, 0, 0, 0];
    buf.extend(vec![0u8; 8]);
    assert_eq!(extract(&mut buf, 10), Err(BlzError::SourceUnderflow));
}

#[test]
fn extract_destination_underflow() {
    let mut buf = vec![0u8; 8];
    buf.extend_from_slice(&[0, 0, 0, 0, 0xf0, 0, 0xf0, 0xff]);
    buf.extend(footer(8, 16, 0));
    buf.extend(vec![0u8; 8]);
    assert_eq!(extract(&mut buf, 24), Err(BlzError::DestinationUnderflow));
}

#[test]
fn extract_reference_out_of_bounds() {
    let mut buf: Vec<u8> = (0x10..0x18).collect();
    buf.extend_from_slice(&[0xff, 0x0f, 0x43, 0x42, 0x41, 0x10]);
    buf.extend(footer(8, 14, 12));
    buf.extend(std::iter::repeat(0xee).take(16));
    assert_eq!(extract(&mut buf, 22), Err(BlzError::ReferenceOutOfBounds));
}

#[test]
fn check_footer_nine_of_sixteen() {
    let buf = vec![0u8; 16];
    assert_eq!(check_footer(&buf, 9), Err(BlzError::FooterTooShort));
}
