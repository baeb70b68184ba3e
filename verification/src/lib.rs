//! Colored ASCII-art transcoding and human-readable byte-size formatting.
//!
//! The crate has two independent, pure components:
//!
//! * the art transcoder ([`art::AsciiArt::try_from`]), which turns a raw
//!   multi-line template with inline `${c<digits>}` color-switch markers and
//!   an ordered palette into a renderable artifact of
//!   (palette index, text chunk) segments plus a line count; and
//! * the byte-size formatter ([`size::bytecount_format`]), which renders an
//!   unsigned magnitude with a binary unit (bytes, KiB, ..., EiB) and a
//!   caller-chosen number of fractional digits.

use vstd::prelude::*;

pub mod art;
pub mod color;
pub mod marker;
pub mod size;

pub use art::AsciiArt;
pub use art::AsciiArtUnprocessed;
pub use size::SizeError;
pub use size::bytecount_format;

verus! {

/// Error returned by the art transcoder.
#[derive(Clone, Copy, Debug, PartialEq, Eq, Structural)]
pub enum TranscodeError {
    /// A marker's digit sequence denotes a value that does not fit in `u8`.
    MalformedMarker,
    /// The template's line count does not fit in `u16`.
    HeightOverflow,
}

} // verus!
