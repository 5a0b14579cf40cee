use hsdraw::gx::GxTexFmt;
use hsdraw::gx_image::{decode_image, encode_png, image_size};

#[test]
fn i8_round_trip() {
    // 8x4 single-block I8: greyscale ramp.
    let raw: Vec<u8> = (0..8 * 4).map(|i| (i * 8) as u8).collect();
    let rgba = decode_image(GxTexFmt::I8, 8, 4, &raw, None).unwrap();
    assert_eq!(rgba[0..4], [0, 0, 0, 0]);
    assert_eq!(rgba[4..8], [8, 8, 8, 8]);
}

#[test]
fn rgb5a3_alpha_path() {
    let raw = [0x0Fu8, 0xFF].repeat(16);
    let rgba = decode_image(GxTexFmt::RGB5A3, 4, 4, &raw, None).unwrap();
    assert_eq!(rgba[0..4], [255, 255, 255, 0]);
}

#[test]
fn png_encode_minimal_size() {
    let rgba = vec![0u8; 4 * 4 * 4];
    let png = encode_png(&rgba, 4, 4).unwrap();
    assert_eq!(&png[..8], &[0x89, b'P', b'N', b'G', 0x0D, 0x0A, 0x1A, 0x0A]);
    assert!(png.len() < 200, "minimal PNG should be small, got {}", png.len());
}

#[test]
fn decode_refuses_short_input() {
    let raw = vec![0u8; 10];
    assert!(decode_image(GxTexFmt::RGBA8, 4, 4, &raw, None).is_err());
}

#[test]
fn i8_of_exactly_image_size_decodes_with_zero_fill() {
    let raw = vec![0u8; image_size(GxTexFmt::I8, 4, 4)];
    assert_eq!(raw.len(), 16);
    let rgba = decode_image(GxTexFmt::I8, 4, 4, &raw, None).unwrap();
    assert_eq!(rgba, vec![0u8; 64]);
}
