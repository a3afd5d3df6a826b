use std::io::Cursor;

use samepic::image::{extract_exif_timestamp, ImageLoadError};
use samepic::{Image, ImageData};

/// A small real PNG, encoded in memory; it carries no EXIF data.
fn png_bytes() -> Vec<u8> {
    let img = image::DynamicImage::new_rgb8(16, 16);
    let mut out = Cursor::new(Vec::new());
    img.write_to(&mut out, image::ImageFormat::Png).unwrap();
    out.into_inner()
}

/// A minimal TIFF whose first IFD holds one `DateTime` tag with the given
/// 19-byte ASCII value. No pixel data: EXIF parsing accepts it, image
/// decoding does not.
fn tiff_with_datetime(value: &str) -> Vec<u8> {
    assert_eq!(value.len(), 19);
    let mut b: Vec<u8> = Vec::new();
    b.extend_from_slice(b"II");
    b.extend_from_slice(&42u16.to_le_bytes());
    b.extend_from_slice(&8u32.to_le_bytes()); // first IFD at offset 8
    b.extend_from_slice(&1u16.to_le_bytes()); // one entry
    b.extend_from_slice(&0x0132u16.to_le_bytes()); // DateTime
    b.extend_from_slice(&2u16.to_le_bytes()); // ASCII
    b.extend_from_slice(&20u32.to_le_bytes()); // value length with NUL
    b.extend_from_slice(&26u32.to_le_bytes()); // value offset
    b.extend_from_slice(&0u32.to_le_bytes()); // no further IFD
    b.extend_from_slice(value.as_bytes());
    b.push(0);
    b
}

#[test]
fn exif_timestamp_is_read_from_the_container() {
    let bytes = tiff_with_datetime("2016:05:04 03:02:01");
    assert_eq!(extract_exif_timestamp(&bytes), Some(1462330921));
}

#[test]
fn invalid_exif_values_are_skipped() {
    // A month of 13 is not a calendar date, so the field yields nothing.
    let bytes = tiff_with_datetime("2016:13:04 03:02:01");
    assert_eq!(extract_exif_timestamp(&bytes), None);
}

#[test]
fn plain_png_has_no_exif_timestamp() {
    assert_eq!(extract_exif_timestamp(&png_bytes()), None);
}

#[test]
fn exif_beats_filesystem_times() {
    let bytes = tiff_with_datetime("2016:05:04 03:02:01");
    let data = ImageData::from_bytes("x.tif".to_string(), bytes, Some(5), Some(6)).unwrap();
    assert_eq!(data.timestamp, 1462330921);
}

#[test]
fn failed_exif_falls_back_to_creation_time() {
    // A file whose EXIF parsing fails but whose filesystem times are
    // known still loads, dated by the creation time.
    let img = Image::from_bytes("a.png".to_string(), png_bytes(), Some(1000), Some(2000))
        .unwrap();
    assert_eq!(img.timestamp, 1000);
    assert_eq!(img.path(), "a.png");
    assert_eq!(img.hash.bits.len(), 16);
}

#[test]
fn creation_time_falls_back_to_access_time() {
    let data = ImageData::from_bytes("a.png".to_string(), png_bytes(), None, Some(2000))
        .unwrap();
    assert_eq!(data.timestamp, 2000);
}

#[test]
fn no_timestamp_source_is_an_io_error() {
    let err = Image::from_bytes("a.png".to_string(), png_bytes(), None, None).unwrap_err();
    assert_eq!(err, ImageLoadError::IoError);
}

#[test]
fn undecodable_bytes_are_an_image_error() {
    let garbage = vec![0x11u8; 64];
    let err = Image::from_bytes("g.bin".to_string(), garbage, Some(1), None).unwrap_err();
    assert_eq!(err, ImageLoadError::InvalidImage);
}

#[test]
fn identical_bytes_get_identical_fingerprints() {
    // The fingerprint is a function of the bytes alone.
    let a = Image::from_bytes("a.png".to_string(), png_bytes(), Some(0), None).unwrap();
    let b = Image::from_bytes("b.png".to_string(), png_bytes(), Some(0), None).unwrap();
    assert_eq!(a.hash.bits, b.hash.bits);
    assert_eq!(a.hash.dist(&b.hash), 0);
    assert!(!a.same_image(&b));
    assert!(a.same_image(&a.duplicate()));
    assert!(a != b);
    assert!(a == a.duplicate());
}
