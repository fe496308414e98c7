//! A self-extracting archive container: entries are compressed with zstd,
//! checksummed with MD5 and appended after an executable image, with a
//! trailing footer that lets the image find its own container.

pub mod codec;
pub mod container;
pub mod header;
pub mod paths;
