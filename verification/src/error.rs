//! Failure kinds of archive parsing and extraction.

use crate::text::{decimal_digits, padded_digits, push_decimal, push_padded};
use vstd::prelude::*;
use vstd::std_specs::convert::FromSpecImpl;
use vstd::string::StringExecFns;

verus! {

/// `std::io::Error`, carried as it is.
#[verifier::external_type_specification]
#[verifier::external_body]
pub struct ExIoError(std::io::Error);

/// What can go wrong while an archive is opened, parsed or extracted.
#[derive(Debug)]
pub enum AlzError {
    /// The stream does not start with an ALZ file header.
    NotAlzFile,
    /// An unknown record follows the file header, or a record points
    /// outside the stream.
    CorruptedFile,
    /// The archive could not be opened.
    CantOpenFile(std::io::Error),
    /// The destination could not be written.
    CantOpenDestFile(std::io::Error),
    /// An entry name is empty or longer than 4096 bytes.
    InvalidFilenameLength,
    /// The inflater refused a DEFLATE payload; the text is the inflater's.
    InflateFailed(String),
    /// A BZIP2 payload could not be rewritten or decoded.
    Bzip2Failed(String),
    /// The decoded bytes do not have the checksum the entry declares.
    InvalidFileCrc { expected: u32, got: u32 },
    /// The size-width nibble of a descriptor is not one of 0, 1, 2, 4, 8.
    InvalidSizeFieldWidth(u8),
    /// The method byte of an entry names no known method.
    UnknownCompressionMethod(u8),
    /// An encrypted entry was met without a password.
    PasswordNotSet,
    /// The check header does not decrypt to the expected byte.
    InvalidPassword,
    /// An entry name or link target would leave the destination.
    PathTraversal(String),
    /// The byte source ended early or refused a seek.
    Io(std::io::Error),
}

/// The result of an operation that can fail with an [`AlzError`].
pub type AlzResult<T> = Result<T, AlzError>;

impl From<std::io::Error> for AlzError {
    fn from(e: std::io::Error) -> (r: Self) {
        AlzError::Io(e)
    }
}

impl FromSpecImpl<std::io::Error> for AlzError {
    open spec fn obeys_from_spec() -> bool {
        true
    }

    open spec fn from_spec(e: std::io::Error) -> Self {
        AlzError::Io(e)
    }
}

/// Whether a result is an `Io` failure.
pub open spec fn is_io_failure<T>(r: AlzResult<T>) -> bool {
    r is Err && r->Err_0 is Io
}

/// `std::io::Error::from(ErrorKind::UnexpectedEof)`: the error a source
/// reports when it ends before a buffer could be filled.
#[verifier::external_body]
pub(crate) fn unexpected_eof() -> std::io::Error {
    std::io::Error::from(std::io::ErrorKind::UnexpectedEof)
}

/// `std::io::Error::new(ErrorKind::InvalidInput, ..)`: the error for a seek
/// to a position that cannot be represented.
#[verifier::external_body]
pub(crate) fn invalid_seek() -> std::io::Error {
    std::io::Error::new(std::io::ErrorKind::InvalidInput, "seek before start")
}

/// The text of a `std::io::Error`, as its `Display` gives it.
#[verifier::external_body]
fn io_error_text(e: &std::io::Error) -> String {
    format!("{e}")
}

/// What the message of an error starts with. For every kind but those that
/// carry an I/O error this is the whole message.
pub open spec fn message_head(e: AlzError) -> Seq<char> {
    match e {
        AlzError::NotAlzFile => "not an ALZ file"@,
        AlzError::CorruptedFile => "corrupted file"@,
        AlzError::CantOpenFile(_) => "can't open archive file: "@,
        AlzError::CantOpenDestFile(_) => "can't open dest file: "@,
        AlzError::InvalidFilenameLength => "invalid filename length"@,
        AlzError::InflateFailed(s) => "inflate failed: "@ + s@,
        AlzError::Bzip2Failed(s) => "bzip2 decompress failed: "@ + s@,
        AlzError::InvalidFileCrc { expected, got } => "invalid file CRC: expected "@
            + padded_digits(expected as nat, 16, 8) + ", got "@ + padded_digits(got as nat, 16, 8),
        AlzError::InvalidSizeFieldWidth(v) => "invalid size field width: 0x"@ + padded_digits(
            v as nat,
            16,
            2,
        ),
        AlzError::UnknownCompressionMethod(m) => "unknown compression method: "@ + decimal_digits(
            m as nat,
        ),
        AlzError::PasswordNotSet => "password was not set"@,
        AlzError::InvalidPassword => "invalid password"@,
        AlzError::PathTraversal(p) => "path traversal blocked: "@ + p@,
        AlzError::Io(_) => Seq::empty(),
    }
}

/// Whether an error carries an I/O error, whose text ends its message.
pub open spec fn carries_io_error(e: AlzError) -> bool {
    e is CantOpenFile || e is CantOpenDestFile || e is Io
}

impl AlzError {
    /// The message of the error. For the kinds that carry an I/O error the
    /// message ends with that error's own text.
    pub fn to_string(&self) -> (s: String)
        ensures
            message_head(*self).is_prefix_of(s@),
            !carries_io_error(*self) ==> s@ == message_head(*self),
    {
        let mut s = String::new();
        match self {
            AlzError::NotAlzFile => {
                s.append("not an ALZ file");
            },
            AlzError::CorruptedFile => {
                s.append("corrupted file");
            },
            AlzError::CantOpenFile(e) => {
                s.append("can't open archive file: ");
                let text = io_error_text(e);
                s.append(text.as_str());
            },
            AlzError::CantOpenDestFile(e) => {
                s.append("can't open dest file: ");
                let text = io_error_text(e);
                s.append(text.as_str());
            },
            AlzError::InvalidFilenameLength => {
                s.append("invalid filename length");
            },
            AlzError::InflateFailed(msg) => {
                s.append("inflate failed: ");
                s.append(msg.as_str());
            },
            AlzError::Bzip2Failed(msg) => {
                s.append("bzip2 decompress failed: ");
                s.append(msg.as_str());
            },
            AlzError::InvalidFileCrc { expected, got } => {
                s.append("invalid file CRC: expected ");
                push_padded(&mut s, *expected as u64, 16, 8);
                s.append(", got ");
                push_padded(&mut s, *got as u64, 16, 8);
            },
            AlzError::InvalidSizeFieldWidth(v) => {
                s.append("invalid size field width: 0x");
                push_padded(&mut s, *v as u64, 16, 2);
            },
            AlzError::UnknownCompressionMethod(m) => {
                s.append("unknown compression method: ");
                push_decimal(&mut s, *m as u64);
            },
            AlzError::PasswordNotSet => {
                s.append("password was not set");
            },
            AlzError::InvalidPassword => {
                s.append("invalid password");
            },
            AlzError::PathTraversal(p) => {
                s.append("path traversal blocked: ");
                s.append(p.as_str());
            },
            AlzError::Io(e) => {
                let text = io_error_text(e);
                s.append(text.as_str());
            },
        }
        proof {
            assert(message_head(*self).is_prefix_of(s@));
            if !carries_io_error(*self) {
                assert(s@ =~= message_head(*self));
            }
        }
        s
    }
}

} // verus!
