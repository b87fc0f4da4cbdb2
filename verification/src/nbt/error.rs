//! Errors of NBT reading and writing.
use crate::binary::{BinaryUtilError, error_text};
use vstd::prelude::*;

verus! {

/// What went wrong while reading, writing or querying a tag tree.
#[derive(Debug)]
pub enum NbtError {
    /// The bytes ran out.
    IoError(BinaryUtilError),
    /// The bytes do not form valid NBT.
    DataError(String),
    /// A value cannot be written (a string or array is too long).
    InvalidTagValue(String),
    /// A tag has another type than the one asked for.
    UnexpectedTagType(String),
    /// No tag has the name asked for.
    NoSuchTag(String),
    /// The tree nests deeper than allowed.
    DepthLimitExceeded(String),
    /// An operation on a list was out of bounds.
    InvalidOperation(String),
    /// A string's bytes are not UTF-8.
    Utf8Error(String),
    /// A length does not fit the integer type that holds it.
    TryFromIntError(String),
}

/// The variant of an [`NbtError`], without its message.
#[derive(Debug, Clone, Copy, PartialEq, Eq, Structural)]
pub enum NbtErrorKind {
    Io,
    Data,
    InvalidTagValue,
    UnexpectedTagType,
    NoSuchTag,
    DepthLimitExceeded,
    InvalidOperation,
    Utf8,
    TryFromInt,
}

impl NbtError {
    /// The variant of this error.
    pub open spec fn kind(&self) -> NbtErrorKind {
        match self {
            NbtError::IoError(_) => NbtErrorKind::Io,
            NbtError::DataError(_) => NbtErrorKind::Data,
            NbtError::InvalidTagValue(_) => NbtErrorKind::InvalidTagValue,
            NbtError::UnexpectedTagType(_) => NbtErrorKind::UnexpectedTagType,
            NbtError::NoSuchTag(_) => NbtErrorKind::NoSuchTag,
            NbtError::DepthLimitExceeded(_) => NbtErrorKind::DepthLimitExceeded,
            NbtError::InvalidOperation(_) => NbtErrorKind::InvalidOperation,
            NbtError::Utf8Error(_) => NbtErrorKind::Utf8,
            NbtError::TryFromIntError(_) => NbtErrorKind::TryFromInt,
        }
    }

    /// The variant of this error, computed.
    pub fn error_kind(&self) -> (r: NbtErrorKind)
        ensures
            r == self.kind(),
    {
        match self {
            NbtError::IoError(_) => NbtErrorKind::Io,
            NbtError::DataError(_) => NbtErrorKind::Data,
            NbtError::InvalidTagValue(_) => NbtErrorKind::InvalidTagValue,
            NbtError::UnexpectedTagType(_) => NbtErrorKind::UnexpectedTagType,
            NbtError::NoSuchTag(_) => NbtErrorKind::NoSuchTag,
            NbtError::DepthLimitExceeded(_) => NbtErrorKind::DepthLimitExceeded,
            NbtError::InvalidOperation(_) => NbtErrorKind::InvalidOperation,
            NbtError::Utf8Error(_) => NbtErrorKind::Utf8,
            NbtError::TryFromIntError(_) => NbtErrorKind::TryFromInt,
        }
    }

    /// The error's text: what went wrong, then its message.
    pub open spec fn text(&self) -> Seq<char> {
        match self {
            NbtError::IoError(e) => "NBT IO Error: "@ + error_text(*e),
            NbtError::DataError(m) => "NBT Data Error: "@ + m@,
            NbtError::InvalidTagValue(m) => "NBT Invalid Tag Value: "@ + m@,
            NbtError::UnexpectedTagType(m) => "NBT Unexpected Tag Type: "@ + m@,
            NbtError::NoSuchTag(m) => "NBT No Such Tag: "@ + m@,
            NbtError::DepthLimitExceeded(m) => "NBT Depth Limit Exceeded: "@ + m@,
            NbtError::InvalidOperation(m) => "NBT Invalid Operation: "@ + m@,
            NbtError::Utf8Error(m) => "NBT UTF-8 Error: "@ + m@,
            NbtError::TryFromIntError(m) => "NBT Integer Conversion Error: "@ + m@,
        }
    }

    /// The error's text; see `text`.
    pub fn to_string(&self) -> (r: String)
        ensures
            r@ == self.text(),
    {
        let (head, body) = match self {
            NbtError::IoError(e) => ("NBT IO Error: ", e.to_string()),
            NbtError::DataError(m) => ("NBT Data Error: ", m.clone()),
            NbtError::InvalidTagValue(m) => ("NBT Invalid Tag Value: ", m.clone()),
            NbtError::UnexpectedTagType(m) => ("NBT Unexpected Tag Type: ", m.clone()),
            NbtError::NoSuchTag(m) => ("NBT No Such Tag: ", m.clone()),
            NbtError::DepthLimitExceeded(m) => ("NBT Depth Limit Exceeded: ", m.clone()),
            NbtError::InvalidOperation(m) => ("NBT Invalid Operation: ", m.clone()),
            NbtError::Utf8Error(m) => ("NBT UTF-8 Error: ", m.clone()),
            NbtError::TryFromIntError(m) => ("NBT Integer Conversion Error: ", m.clone()),
        };
        let mut text = head.to_owned();
        text.append(body.as_str());
        text
    }

    pub fn new_data_error(message: &str) -> (r: Self)
        ensures
            r matches NbtError::DataError(m) && m@ == message@,
    {
        NbtError::DataError(message.to_owned())
    }

    pub fn new_invalid_tag_value(message: &str) -> (r: Self)
        ensures
            r matches NbtError::InvalidTagValue(m) && m@ == message@,
    {
        NbtError::InvalidTagValue(message.to_owned())
    }

    pub fn new_unexpected_tag_type(message: &str) -> (r: Self)
        ensures
            r matches NbtError::UnexpectedTagType(m) && m@ == message@,
    {
        NbtError::UnexpectedTagType(message.to_owned())
    }

    pub fn new_no_such_tag(message: &str) -> (r: Self)
        ensures
            r matches NbtError::NoSuchTag(m) && m@ == message@,
    {
        NbtError::NoSuchTag(message.to_owned())
    }

    pub fn new_depth_limit_exceeded(message: &str) -> (r: Self)
        ensures
            r matches NbtError::DepthLimitExceeded(m) && m@ == message@,
    {
        NbtError::DepthLimitExceeded(message.to_owned())
    }

    pub fn new_invalid_operation(message: &str) -> (r: Self)
        ensures
            r matches NbtError::InvalidOperation(m) && m@ == message@,
    {
        NbtError::InvalidOperation(message.to_owned())
    }
}

} // verus!
