use vstd::prelude::*;

verus! {

// The outside collaborators the library leans on: image decoding plus
// perceptual hashing, EXIF tag lookup, and path-component handling. Each call
// lives in one trusted wrapper; everything around the calls is verified.
/// Whether the image crate can decode these bytes into pixels.
pub uninterp spec fn image_decodes(bytes: Seq<u8>) -> bool;

/// The 16-byte Blockhash fingerprint of the image these bytes encode. The
/// hash is a function of the bytes alone, the same on every machine.
pub uninterp spec fn blockhash16_of(bytes: Seq<u8>) -> Seq<u8>;

#[verifier::external_type_specification]
#[verifier::external_body]
pub struct ExImageError(::image::ImageError);

/// Relies on image's `ImageReader` (format guessed from the bytes, then
/// decoded) and on image_hasher's `Blockhash` algorithm at its default 8x8
/// size in a 16-byte container; both compute from the bytes alone.
#[verifier::external_body]
pub fn decode_and_hash(bytes: &Vec<u8>) -> (r: Result<Vec<u8>, ::image::ImageError>)
    ensures
        r matches Ok(h) ==> image_decodes(bytes@) && h@ == blockhash16_of(bytes@) && h@.len()
            == 16,
        r is Err ==> !image_decodes(bytes@),
{
    let cursor = std::io::Cursor::new(bytes.as_slice());
    let img = ::image::ImageReader::new(cursor)
        .with_guessed_format()
        .map_err(::image::ImageError::IoError)?
        .decode()?;
    let hasher = image_hasher::HasherConfig::with_bytes_type::<[u8; 16]>()
        .hash_alg(image_hasher::HashAlg::Blockhash)
        .to_hasher();
    Ok(hasher.hash_image(&img).as_bytes().to_vec())
}

/// The text of the `DateTimeOriginal` tag in the given IFD of the EXIF data
/// these bytes carry, when the tag is there with an ASCII value.
pub uninterp spec fn exif_datetime_original_of(bytes: Seq<u8>, ifd: u16) -> Option<Seq<char>>;

/// Relies on exif (kamadak-exif): `Reader::read_from_container` parses the
/// bytes, `get_field(Tag::DateTimeOriginal, In(ifd))` looks the tag up, and
/// the ASCII value's bytes become characters one for one; the result is a
/// function of the bytes and the IFD number alone.
#[verifier::external_body]
pub fn exif_datetime_original(bytes: &Vec<u8>, ifd: u16) -> (r: Option<String>)
    ensures
        r matches Some(s) ==> exif_datetime_original_of(bytes@, ifd) == Option::Some(s@),
        r is None ==> exif_datetime_original_of(bytes@, ifd) is None,
{
    let mut cursor = std::io::Cursor::new(bytes.as_slice());
    let container = exif::Reader::new().read_from_container(&mut cursor).ok()?;
    let field = container.get_field(exif::Tag::DateTimeOriginal, exif::In(ifd))?;
    match field.value {
        exif::Value::Ascii(ref a) => Some(
            a.iter().flat_map(|c| c.iter().copied().map(char::from)).collect(),
        ),
        _ => None,
    }
}

/// The text of the `DateTime` tag in the given IFD, as above.
pub uninterp spec fn exif_datetime_of(bytes: Seq<u8>, ifd: u16) -> Option<Seq<char>>;

/// Relies on exif (kamadak-exif), as `exif_datetime_original` does, for the
/// `DateTime` tag.
#[verifier::external_body]
pub fn exif_datetime(bytes: &Vec<u8>, ifd: u16) -> (r: Option<String>)
    ensures
        r matches Some(s) ==> exif_datetime_of(bytes@, ifd) == Option::Some(s@),
        r is None ==> exif_datetime_of(bytes@, ifd) is None,
{
    let mut cursor = std::io::Cursor::new(bytes.as_slice());
    let container = exif::Reader::new().read_from_container(&mut cursor).ok()?;
    let field = container.get_field(exif::Tag::DateTime, exif::In(ifd))?;
    match field.value {
        exif::Value::Ascii(ref a) => Some(
            a.iter().flat_map(|c| c.iter().copied().map(char::from)).collect(),
        ),
        _ => None,
    }
}

/// The text of the `DateTimeDigitized` tag in the given IFD, as above.
pub uninterp spec fn exif_datetime_digitized_of(bytes: Seq<u8>, ifd: u16) -> Option<Seq<char>>;

/// Relies on exif (kamadak-exif), as `exif_datetime_original` does, for the
/// `DateTimeDigitized` tag.
#[verifier::external_body]
pub fn exif_datetime_digitized(bytes: &Vec<u8>, ifd: u16) -> (r: Option<String>)
    ensures
        r matches Some(s) ==> exif_datetime_digitized_of(bytes@, ifd) == Option::Some(s@),
        r is None ==> exif_datetime_digitized_of(bytes@, ifd) is None,
{
    let mut cursor = std::io::Cursor::new(bytes.as_slice());
    let container = exif::Reader::new().read_from_container(&mut cursor).ok()?;
    let field = container.get_field(exif::Tag::DateTimeDigitized, exif::In(ifd))?;
    match field.value {
        exif::Value::Ascii(ref a) => Some(
            a.iter().flat_map(|c| c.iter().copied().map(char::from)).collect(),
        ),
        _ => None,
    }
}

/// Relies on camino's `Utf8Path::file_name`: the final component of the path,
/// or nothing when the path has none or ends in `..`. Which characters count
/// as separators differs between platforms, so only what holds of every
/// outcome is stated: a component is a non-empty piece of the path.
#[verifier::external_body]
pub fn path_file_name(path: &str) -> (r: Option<String>)
    ensures
        r matches Some(s) ==> 1 <= s@.len() <= path@.len(),
{
    camino::Utf8Path::new(path).file_name().map(|s| s.to_string())
}

/// Relies on camino's `Utf8Path::file_stem`: the final component without its
/// last extension, or nothing when the path has no final component. Stated as
/// for `path_file_name`.
#[verifier::external_body]
pub fn path_file_stem(path: &str) -> (r: Option<String>)
    ensures
        r matches Some(s) ==> 1 <= s@.len() <= path@.len(),
{
    camino::Utf8Path::new(path).file_stem().map(|s| s.to_string())
}

/// Relies on camino's `Utf8Path::extension`: what follows the final
/// component's last dot, or nothing when there is no such dot. Stated as for
/// `path_file_name`, except that an extension may be empty.
#[verifier::external_body]
pub fn path_extension(path: &str) -> (r: Option<String>)
    ensures
        r matches Some(s) ==> s@.len() <= path@.len(),
{
    camino::Utf8Path::new(path).extension().map(|s| s.to_string())
}

} // verus!
