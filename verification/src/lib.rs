//! Reader for ALZ archives: container parsing, PKWARE decryption, and the
//! three payload codecs (stored, DEFLATE and the ALZ dialect of BZIP2).
//!
//! An archive is a chain of volume images held in memory. The
//! [`multivolume`] reader presents the chain as one byte stream, [`archive`]
//! scans that stream for its entry table, and [`extract`] decodes the
//! payload of an entry into a buffer of the caller's and checks it against
//! the CRC-32 that the entry declares.

pub mod archive;
pub mod crc;
pub mod crypto;
pub mod decompress;
pub mod dostime;
pub mod encoding;
pub mod error;
pub mod extract;
pub mod listing;
pub mod multivolume;
pub mod text;
