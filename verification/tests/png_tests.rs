use image_ffi::png::{
    encode_png_rgba, is_read_as_png, load_png_rgba, ImageKind, LoadPngError, SavePngError,
};

fn sample_pixels() -> Vec<u8> {
    // 3 by 2 image, every byte different.
    (0u8..24).map(|b| b * 10 + 1).collect()
}

#[test]
fn png_round_trip_keeps_pixels() {
    let pixels = sample_pixels();
    let bytes = encode_png_rgba(3, 2, &pixels).unwrap();
    assert_eq!(&bytes[..8], &[0x89, b'P', b'N', b'G', 0x0D, 0x0A, 0x1A, 0x0A]);
    let (w, h, back) = load_png_rgba(Some("png"), &bytes).unwrap();
    assert_eq!((w, h), (3, 2));
    assert_eq!(back, pixels);
}

#[test]
fn png_content_wins_over_extension() {
    let pixels = sample_pixels();
    let bytes = encode_png_rgba(3, 2, &pixels).unwrap();
    // The leading bytes say PNG, so a misleading or missing extension does not matter.
    assert_eq!(load_png_rgba(Some("jpg"), &bytes).unwrap().2, pixels);
    assert_eq!(load_png_rgba(None, &bytes).unwrap().2, pixels);
}

#[test]
fn png_longer_buffer_encodes_only_the_image() {
    let pixels = sample_pixels();
    let mut longer = pixels.clone();
    longer.extend_from_slice(&[7, 7, 7, 7, 7]);
    let a = encode_png_rgba(3, 2, &pixels).unwrap();
    let b = encode_png_rgba(3, 2, &longer).unwrap();
    assert_eq!(a, b);
    assert_eq!(load_png_rgba(Some("png"), &b).unwrap().2, pixels);
}

#[test]
fn png_short_buffer_is_refused() {
    let pixels = sample_pixels();
    assert!(matches!(
        encode_png_rgba(3, 2, &pixels[..23]),
        Err(SavePngError::InvalidSaveBuffer)
    ));
    assert!(matches!(
        encode_png_rgba(u32::MAX, u32::MAX, &pixels),
        Err(SavePngError::InvalidSaveBuffer)
    ));
}

#[test]
fn png_other_format_is_not_png() {
    let gif = b"GIF89a\x01\x00\x01\x00\x00\x00\x00;".to_vec();
    assert!(matches!(load_png_rgba(Some("png"), &gif), Err(LoadPngError::NotPng)));
}

#[test]
fn png_unknown_content_goes_by_extension() {
    let junk = b"hello, this is not an image".to_vec();
    assert!(matches!(load_png_rgba(Some("PNG"), &junk), Err(LoadPngError::Decode(_))));
    assert!(matches!(load_png_rgba(Some("png"), &junk), Err(LoadPngError::Decode(_))));
    assert!(matches!(load_png_rgba(Some("jpg"), &junk), Err(LoadPngError::NotPng)));
    assert!(matches!(load_png_rgba(Some(""), &junk), Err(LoadPngError::NotPng)));
    assert!(matches!(load_png_rgba(None, &junk), Err(LoadPngError::NotPng)));
}

#[test]
fn png_truncated_file_fails_to_decode() {
    let bytes = encode_png_rgba(3, 2, &sample_pixels()).unwrap();
    let cut = &bytes[..bytes.len() / 2];
    assert!(matches!(load_png_rgba(Some("png"), cut), Err(LoadPngError::Decode(_))));
}

#[test]
fn content_decides_before_extension() {
    assert!(is_read_as_png(Some(ImageKind::Png), None));
    assert!(is_read_as_png(Some(ImageKind::Png), Some(ImageKind::Jpeg)));
    assert!(!is_read_as_png(Some(ImageKind::Gif), Some(ImageKind::Png)));
    assert!(is_read_as_png(None, Some(ImageKind::Png)));
    assert!(!is_read_as_png(None, Some(ImageKind::Bmp)));
    assert!(!is_read_as_png(None, None));
}
