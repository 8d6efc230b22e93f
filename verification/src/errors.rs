use vstd::prelude::*;

verus! {

/// `std::io::Error` travels through the library's error types unchanged.
#[verifier::external_type_specification]
#[verifier::external_body]
pub struct ExIoError(std::io::Error);

/// The error that reading past the end of an in-memory stream reports
/// (`std::io::Error::from(ErrorKind::UnexpectedEof)`); nothing is claimed of it.
#[verifier::external_body]
pub fn unexpected_eof_error() -> std::io::Error {
    std::io::Error::from(std::io::ErrorKind::UnexpectedEof)
}

/// The error that writing into a full in-memory buffer reports
/// (`std::io::Error::from(ErrorKind::WriteZero)`); nothing is claimed of it.
#[verifier::external_body]
pub fn write_zero_error() -> std::io::Error {
    std::io::Error::from(std::io::ErrorKind::WriteZero)
}

#[derive(Debug)]
pub enum CompressError {
    IOErr(std::io::Error),
    Overflow,
    Malformed,
}

#[derive(Debug)]
pub enum DecompressError {
    IOErr(std::io::Error),
    Unsupported,
    Underflow,
    Malformed,
    TypeMismatch,
}

#[derive(Debug)]
pub enum HeaderDecodeErr {
    IOErr(std::io::Error),
    WrongMagic,
    WrongValue(String),
}

impl CompressError {
    /// A human readable description of the error.
    pub fn message(&self) -> (r: String)
        ensures
            r@ == match self {
                CompressError::IOErr(_) => "I/O error"@,
                CompressError::Overflow => "Buffer is too small"@,
                CompressError::Malformed => "Invalid arguments"@,
            },
    {
        match self {
            CompressError::IOErr(_) => String::from_str("I/O error"),
            CompressError::Overflow => String::from_str("Buffer is too small"),
            CompressError::Malformed => String::from_str("Invalid arguments"),
        }
    }
}

impl DecompressError {
    /// A human readable description of the error.
    pub fn message(&self) -> (r: String)
        ensures
            r@ == match self {
                DecompressError::IOErr(_) => "I/O error"@,
                DecompressError::Unsupported => "Unsupported image format"@,
                DecompressError::Malformed => "Invalid arguments"@,
                DecompressError::Underflow => "Buffer underflow detected"@,
                DecompressError::TypeMismatch => "Image data doesn't match the header"@,
            },
    {
        match self {
            DecompressError::IOErr(_) => String::from_str("I/O error"),
            DecompressError::Unsupported => String::from_str("Unsupported image format"),
            DecompressError::Malformed => String::from_str("Invalid arguments"),
            DecompressError::Underflow => String::from_str("Buffer underflow detected"),
            DecompressError::TypeMismatch => String::from_str("Image data doesn't match the header"),
        }
    }
}

impl HeaderDecodeErr {
    /// A human readable description of the error: for a wrong value, the
    /// description it carries.
    pub fn message(&self) -> (r: String)
        ensures
            r@ == match self {
                HeaderDecodeErr::IOErr(_) => "I/O error"@,
                HeaderDecodeErr::WrongMagic => "Header doen't contain GFWX magic"@,
                HeaderDecodeErr::WrongValue(s) => s@,
            },
    {
        match self {
            HeaderDecodeErr::IOErr(_) => String::from_str("I/O error"),
            HeaderDecodeErr::WrongMagic => String::from_str("Header doen't contain GFWX magic"),
            HeaderDecodeErr::WrongValue(s) => s.clone(),
        }
    }
}

impl From<std::io::Error> for CompressError {
    fn from(e: std::io::Error) -> (r: Self) {
        CompressError::IOErr(e)
    }
}

impl vstd::std_specs::convert::FromSpecImpl<std::io::Error> for CompressError {
    open spec fn obeys_from_spec() -> bool {
        true
    }

    open spec fn from_spec(e: std::io::Error) -> Self {
        CompressError::IOErr(e)
    }
}

impl From<std::io::Error> for DecompressError {
    fn from(e: std::io::Error) -> (r: Self) {
        DecompressError::IOErr(e)
    }
}

impl vstd::std_specs::convert::FromSpecImpl<std::io::Error> for DecompressError {
    open spec fn obeys_from_spec() -> bool {
        true
    }

    open spec fn from_spec(e: std::io::Error) -> Self {
        DecompressError::IOErr(e)
    }
}

impl From<std::io::Error> for HeaderDecodeErr {
    fn from(e: std::io::Error) -> (r: Self) {
        HeaderDecodeErr::IOErr(e)
    }
}

impl vstd::std_specs::convert::FromSpecImpl<std::io::Error> for HeaderDecodeErr {
    open spec fn obeys_from_spec() -> bool {
        true
    }

    open spec fn from_spec(e: std::io::Error) -> Self {
        HeaderDecodeErr::IOErr(e)
    }
}

} // verus!
