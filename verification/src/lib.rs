use vstd::prelude::*;

pub mod fingerprint;
pub mod collaborators;
pub mod exif_datetime;
pub mod image;
pub mod laws;
pub mod lru;
pub mod naming;
pub mod open;
pub mod pile;
pub mod repository;
pub mod timestamp;

pub use crate::fingerprint::Fingerprint;
pub use crate::image::{Image, ImageData, ImageLoadError};
pub use crate::lru::{Key, LruCache};
pub use crate::open::{Open, OpenOptions};
pub use crate::pile::Pile;
pub use crate::repository::{MatchConfig, MaterializeError, MaterializePlan, Repository, Stats};

verus! {

/// Number of bytes in a perceptual-hash fingerprint for one run.
pub const HASH_BYTES: usize = 16;

/// The time format renamed files and reports use, as a strftime pattern;
/// `naming::timestamp_stem` renders the same shape.
pub const DATETIME_FORMATTER: &'static str = "%FT%H-%M-%S";

} // verus!
