//! Codec for catalog identifiers (128-bit values written in base 16, base 62
//! or as 16 big-endian bytes) and for 20-byte content identifiers.
pub mod laws;
pub mod numeral;
pub mod spotify_id;

pub use crate::spotify_id::{FileId, SpotifyId, SpotifyIdError};
