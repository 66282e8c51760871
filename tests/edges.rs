use bmp_sobel::greyscale::convert_greyscale;
use bmp_sobel::header::arr_to_hex;
use bmp_sobel::pipeline::{detect_edges, read_header, BmpHeader, ImageError};
use bmp_sobel::sobel::sobel_filter;

fn header_bytes(offset: u8, width: [u8; 4], height: [u8; 4]) -> Vec<u8> {
    let mut h = vec![0u8; 26];
    h[0] = b'B';
    h[1] = b'M';
    h[10] = offset;
    h[18..22].copy_from_slice(&width);
    h[22..26].copy_from_slice(&height);
    h
}

#[test]
fn field_read_big_endian() {
    assert_eq!(arr_to_hex(&[0x00, 0x00, 0x01, 0x2C]), 300);
    assert_ne!(arr_to_hex(&[0x00, 0x00, 0x01, 0x2C]), 0x2C01_0000);
}

#[test]
fn field_read_short_and_signed() {
    assert_eq!(arr_to_hex(&[]), 0);
    assert_eq!(arr_to_hex(&[0x01, 0x02]), 0x0102);
    assert_eq!(arr_to_hex(&[0xFF, 0xFF, 0xFF, 0xFF]), -1);
    assert_eq!(arr_to_hex(&[0x80, 0x00, 0x00, 0x00]), i32::MIN);
}

#[test]
fn header_fields() {
    let buf = header_bytes(54, [0, 0, 0x01, 0x2C], [0, 0, 0, 0xC8]);
    assert_eq!(
        read_header(&buf),
        Ok(BmpHeader { pixel_offset: 54, width: 300, height: 200 })
    );
}

#[test]
fn header_too_short() {
    let buf = vec![0u8; 25];
    assert_eq!(read_header(&buf), Err(ImageError::TooShort));
    assert_eq!(detect_edges(&buf), Err(ImageError::TooShort));
}

#[test]
fn greyscale_single_pixel() {
    let out = convert_greyscale(&vec![10, 200, 30], 0);
    assert_eq!(out, vec![200, 200, 200]);
}

#[test]
fn greyscale_keeps_header_and_broadcasts() {
    let buf = vec![1, 2, 3, 4, 5, 6, 7, 8];
    let out = convert_greyscale(&buf, 2);
    assert_eq!(out, vec![1, 2, 4, 4, 4, 7, 7, 7]);
    assert_eq!(buf, vec![1, 2, 3, 4, 5, 6, 7, 8]);
}

#[test]
fn greyscale_offset_past_end() {
    let buf = vec![9, 8, 7];
    assert_eq!(convert_greyscale(&buf, 10), buf);
}

#[test]
fn sobel_uniform_interior_is_zero() {
    let pixels = vec![128u8; 48];
    let out = sobel_filter(pixels, 0, 4);
    assert_eq!(out.len(), 48);
    for c in [16usize, 19, 22, 25, 28, 31] {
        assert_eq!(&out[c..c + 3], &[0, 0, 0]);
    }
    assert_eq!(out[0], 128);
}

fn impulse(value: u8) -> Vec<u8> {
    let mut pixels = vec![0u8; 75];
    pixels[36] = value;
    pixels[37] = value;
    pixels[38] = value;
    pixels
}

fn expected_impulse(diagonal: u8, straight: u8) -> Vec<u8> {
    let mut out = vec![0u8; 75];
    for (c, m) in [
        (19usize, diagonal),
        (22, straight),
        (25, diagonal),
        (34, straight),
        (40, straight),
        (49, diagonal),
        (52, straight),
        (55, diagonal),
    ] {
        out[c] = m;
        out[c + 1] = m;
        out[c + 2] = m;
    }
    out
}

#[test]
fn sobel_impulse_response() {
    let out = sobel_filter(impulse(100), 0, 5);
    assert_eq!(out, expected_impulse(141, 200));
}

#[test]
fn sobel_impulse_clamped() {
    let out = sobel_filter(impulse(255), 0, 5);
    assert_eq!(out, expected_impulse(255, 255));
}

#[test]
fn sobel_keeps_bytes_outside_groups() {
    let pixels = vec![7u8, 1, 2, 3, 4, 5];
    let out = sobel_filter(pixels, 0, 1);
    assert_eq!(out[0], 7);
    assert_eq!(out[4], 4);
    assert_eq!(out[5], 5);
    assert_eq!(out[1], out[2]);
    assert_eq!(out[2], out[3]);
}

#[test]
fn end_to_end_small_image() {
    let mut buf = header_bytes(26, [0, 0, 0, 2], [0, 0, 0, 2]);
    buf.extend_from_slice(&[255, 0, 0, 0, 255, 0, 0, 0, 255, 40, 80, 120]);
    let out = detect_edges(&buf).unwrap();
    assert_eq!(out.len(), buf.len());
    assert_eq!(&out[..26], &buf[..26]);
    let grey = convert_greyscale(&buf, 26);
    assert_eq!(&grey[26..], &[0, 0, 0, 255, 255, 255, 0, 0, 0, 80, 80, 80]);
    assert_eq!(out, sobel_filter(grey, 26, 2));
    for c in [27usize, 30, 33] {
        assert_eq!(out[c], out[c + 1]);
        assert_eq!(out[c + 1], out[c + 2]);
    }
}

#[test]
fn misaligned_payload_rejected() {
    let mut buf = header_bytes(26, [0, 0, 0, 2], [0, 0, 0, 2]);
    buf.extend_from_slice(&[1, 2, 3, 4]);
    assert_eq!(detect_edges(&buf), Err(ImageError::Misaligned));
}
