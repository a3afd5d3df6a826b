use vstd::prelude::*;

use crate::collaborators::{
    blockhash16_of, decode_and_hash, exif_datetime, exif_datetime_digitized,
    exif_datetime_digitized_of, exif_datetime_of, exif_datetime_original,
    exif_datetime_original_of, image_decodes,
};
use crate::exif_datetime::{exif_datetime_value, parse_exif_datetime};
use crate::fingerprint::Fingerprint;
use crate::timestamp::{TIMESTAMP_MAX, TIMESTAMP_MIN};
use crate::HASH_BYTES;

verus! {

/// Why a file could not become an `Image`. Every such failure is local to
/// the file: the caller logs it, skips the file, and the run goes on.
#[derive(Clone, Copy, Debug, PartialEq, Eq, Structural)]
pub enum ImageLoadError {
    /// The file could not be read, or no timestamp source was left.
    IoError,
    /// The EXIF container was invalid.
    InvalidExif,
    /// The image bytes could not be decoded.
    InvalidImage,
}

/// The mathematical content of an `Image`: its identifying path, its
/// best-effort capture timestamp, and its perceptual-hash fingerprint.
pub ghost struct ImageModel {
    pub path: Seq<char>,
    pub timestamp: int,
    pub hash: Seq<u8>,
}

/// One loaded image file. The path is its identity: two records with the
/// same path stand for the same image.
#[derive(Debug, Clone)]
pub struct Image {
    pub path: String,
    pub timestamp: i64,
    pub hash: Fingerprint,
}

impl View for Image {
    type V = ImageModel;

    open spec fn view(&self) -> ImageModel {
        ImageModel { path: self.path@, timestamp: self.timestamp as int, hash: self.hash@ }
    }
}

// Path is identity: two records with the same path are the same entity,
// whatever their other fields hold.
impl PartialEq for Image {
    fn eq(&self, other: &Image) -> (r: bool) {
        self.path == other.path
    }
}

impl vstd::std_specs::cmp::PartialEqSpecImpl for Image {
    open spec fn obeys_eq_spec() -> bool {
        true
    }

    open spec fn eq_spec(&self, other: &Image) -> bool {
        self@.path == other@.path
    }
}

/// Raw file contents together with the resolved timestamp, before decoding.
pub struct ImageData {
    pub data: Vec<u8>,
    pub path: String,
    pub timestamp: i64,
}

/// An `Option<i64>` read as an `Option<int>`.
pub open spec fn opt_int(o: Option<i64>) -> Option<int> {
    match o {
        Option::Some(v) => Option::Some(v as int),
        Option::None => Option::None,
    }
}

/// The timestamp one EXIF field contributes: the value its text denotes,
/// when the field is present and its text parses.
pub open spec fn field_timestamp(field: Option<Seq<char>>) -> Option<int> {
    match field {
        Option::Some(s) => exif_datetime_value(s),
        Option::None => Option::None,
    }
}

/// The timestamp the EXIF data in these bytes yields: the capture time, the
/// generic date-time, then the digitization time, each tried first in the
/// primary IFD and then in the thumbnail IFD; the first value that parses
/// wins.
pub open spec fn exif_timestamp_spec(bytes: Seq<u8>) -> Option<int> {
    if field_timestamp(exif_datetime_original_of(bytes, 0)) is Some {
        field_timestamp(exif_datetime_original_of(bytes, 0))
    } else if field_timestamp(exif_datetime_original_of(bytes, 1)) is Some {
        field_timestamp(exif_datetime_original_of(bytes, 1))
    } else if field_timestamp(exif_datetime_of(bytes, 0)) is Some {
        field_timestamp(exif_datetime_of(bytes, 0))
    } else if field_timestamp(exif_datetime_of(bytes, 1)) is Some {
        field_timestamp(exif_datetime_of(bytes, 1))
    } else if field_timestamp(exif_datetime_digitized_of(bytes, 0)) is Some {
        field_timestamp(exif_datetime_digitized_of(bytes, 0))
    } else {
        field_timestamp(exif_datetime_digitized_of(bytes, 1))
    }
}

/// The timestamp an image file ends up with: EXIF if any field parses, else
/// the filesystem's creation time, else its last-access time.
pub open spec fn resolved_timestamp(
    exif_ts: Option<int>,
    created: Option<int>,
    accessed: Option<int>,
) -> Option<int> {
    match exif_ts {
        Option::Some(t) => Option::Some(t),
        Option::None => match created {
            Option::Some(c) => Option::Some(c),
            Option::None => accessed,
        },
    }
}

/// Try to parse the text of one EXIF field as a timestamp.
fn try_field(field: Option<String>) -> (r: Option<i64>)
    ensures
        opt_int(r) == field_timestamp(
            match field {
                Option::Some(s) => Option::Some(s@),
                Option::None => Option::None,
            },
        ),
        r matches Some(t) ==> TIMESTAMP_MIN <= t <= TIMESTAMP_MAX,
{
    match field {
        Option::Some(s) => parse_exif_datetime(s.as_str()),
        Option::None => None,
    }
}

/// The structured timestamp carried by a file's EXIF data, if any field
/// holds one.
pub fn extract_exif_timestamp(bytes: &Vec<u8>) -> (r: Option<i64>)
    ensures
        opt_int(r) == exif_timestamp_spec(bytes@),
        r matches Some(t) ==> TIMESTAMP_MIN <= t <= TIMESTAMP_MAX,
{
    let c = try_field(exif_datetime_original(bytes, 0));
    if c.is_some() {
        return c;
    }
    let c = try_field(exif_datetime_original(bytes, 1));
    if c.is_some() {
        return c;
    }
    let c = try_field(exif_datetime(bytes, 0));
    if c.is_some() {
        return c;
    }
    let c = try_field(exif_datetime(bytes, 1));
    if c.is_some() {
        return c;
    }
    let c = try_field(exif_datetime_digitized(bytes, 0));
    if c.is_some() {
        return c;
    }
    try_field(exif_datetime_digitized(bytes, 1))
}

impl ImageData {
    /// Resolve the timestamp of a file from its bytes and the filesystem
    /// times the caller read, keeping the bytes for later decoding.
    pub fn from_bytes(
        path: String,
        data: Vec<u8>,
        created: Option<i64>,
        accessed: Option<i64>,
    ) -> (r: Result<ImageData, ImageLoadError>)
        requires
            created matches Some(c) ==> TIMESTAMP_MIN <= c <= TIMESTAMP_MAX,
            accessed matches Some(a) ==> TIMESTAMP_MIN <= a <= TIMESTAMP_MAX,
        ensures
            (r is Ok) == (resolved_timestamp(
                exif_timestamp_spec(data@),
                opt_int(created),
                opt_int(accessed),
            ) is Some),
            r matches Ok(d) ==> {
                &&& d.path@ == path@
                &&& d.data@ == data@
                &&& Option::Some(d.timestamp as int) == resolved_timestamp(
                    exif_timestamp_spec(data@),
                    opt_int(created),
                    opt_int(accessed),
                )
                &&& TIMESTAMP_MIN <= d.timestamp <= TIMESTAMP_MAX
            },
            r matches Err(e) ==> e == ImageLoadError::IoError,
    {
        let timestamp: i64 = match extract_exif_timestamp(&data) {
            Some(t) => t,
            None => match created {
                Some(c) => c,
                None => match accessed {
                    Some(a) => a,
                    None => {
                        return Err(ImageLoadError::IoError);
                    },
                },
            },
        };
        Ok(ImageData { data, path, timestamp })
    }

    /// The bytes this record was loaded from.
    pub fn bytes(&self) -> (r: &Vec<u8>)
        ensures
            r@ == self.data@,
    {
        &self.data
    }

    /// The path this record was loaded from.
    pub fn path(&self) -> (r: &String)
        ensures
            r@ == self.path@,
    {
        &self.path
    }
}

/// A well-formed image record has a non-empty identifying path, a
/// fingerprint of the run's fixed width, and a timestamp inside the
/// library's calendar range.
pub open spec fn img_wf(m: ImageModel) -> bool {
    &&& m.path.len() > 0
    &&& m.hash.len() == HASH_BYTES
    &&& TIMESTAMP_MIN <= m.timestamp <= TIMESTAMP_MAX
}

impl Image {
    /// Well-formedness of this record; see `img_wf`.
    pub open spec fn wf(&self) -> bool {
        img_wf(self@)
    }

    /// The path that identifies this image.
    pub fn path(&self) -> (r: &String)
        ensures
            r@ == self@.path,
    {
        &self.path
    }

    /// Whether two records stand for the same image, by path.
    pub fn same_image(&self, other: &Image) -> (r: bool)
        ensures
            r == (self@.path == other@.path),
    {
        self.path == other.path
    }

    /// An exact copy of this image record.
    pub fn duplicate(&self) -> (r: Image)
        ensures
            r@ == self@,
    {
        Image {
            path: self.path.clone(),
            timestamp: self.timestamp,
            hash: self.hash.duplicate(),
        }
    }

    /// Build an image record from a file's path, bytes and filesystem
    /// times: resolve its timestamp, then decode and fingerprint it.
    pub fn from_bytes(
        path: String,
        data: Vec<u8>,
        created: Option<i64>,
        accessed: Option<i64>,
    ) -> (r: Result<Image, ImageLoadError>)
        requires
            path@.len() > 0,
            created matches Some(c) ==> TIMESTAMP_MIN <= c <= TIMESTAMP_MAX,
            accessed matches Some(a) ==> TIMESTAMP_MIN <= a <= TIMESTAMP_MAX,
        ensures
            (r is Ok) == (resolved_timestamp(
                exif_timestamp_spec(data@),
                opt_int(created),
                opt_int(accessed),
            ) is Some && image_decodes(data@)),
            r matches Ok(img) ==> {
                &&& img@.path == path@
                &&& Option::Some(img@.timestamp) == resolved_timestamp(
                    exif_timestamp_spec(data@),
                    opt_int(created),
                    opt_int(accessed),
                )
                &&& img@.hash == blockhash16_of(data@)
                &&& img.wf()
            },
            r == Result::<Image, ImageLoadError>::Err(ImageLoadError::IoError) <==> (
            resolved_timestamp(
                exif_timestamp_spec(data@),
                opt_int(created),
                opt_int(accessed),
            ) is None),
            r == Result::<Image, ImageLoadError>::Err(ImageLoadError::InvalidImage) <==> (
            resolved_timestamp(
                exif_timestamp_spec(data@),
                opt_int(created),
                opt_int(accessed),
            ) is Some && !image_decodes(data@)),
    {
        let image_data = match ImageData::from_bytes(path, data, created, accessed) {
            Ok(d) => d,
            Err(e) => {
                return Err(e);
            },
        };
        let hash_bytes = match decode_and_hash(&image_data.data) {
            Ok(h) => h,
            Err(_) => {
                return Err(ImageLoadError::InvalidImage);
            },
        };
        Ok(
            Image {
                path: image_data.path,
                timestamp: image_data.timestamp,
                hash: Fingerprint { bits: hash_bytes },
            },
        )
    }
}

} // verus!
