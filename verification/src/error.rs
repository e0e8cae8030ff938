//! Error types of the codec.

use vstd::prelude::*;
use vstd::std_specs::convert::FromSpecImpl;

verus! {

/// A read that would leave the byte buffer.
#[derive(Debug, Clone, Copy, PartialEq, Eq)]
pub enum SliceReadError {
    /// Fewer bytes are left than the read needs, or no terminator follows.
    UnexpectedEndOfInput,
}

/// A write that breaks the append-or-patch discipline of the output buffer.
#[derive(Debug, Clone, Copy, PartialEq, Eq)]
pub enum VecWriteError {
    /// The target lies beyond the end, or straddles it.
    NonContiguousWrite,
    /// The target offset is not a multiple of the width written.
    UnalignedWrite,
}

/// A property that is absent or whose value cannot be decoded as asked.
#[derive(Debug, Clone, Copy, PartialEq, Eq)]
pub enum PropError {
    /// The node has no property of that name.
    NotFound,
    /// The value is not valid UTF-8.
    Utf8Error,
    /// The value does not end in a zero byte.
    Missing0,
    /// The value is shorter than the integer asked for.
    SliceReadError(SliceReadError),
}

/// A failure to load or store a device tree.
#[derive(Debug, Clone, Copy, PartialEq, Eq)]
pub enum DeviceTreeError {
    /// The image does not start with the magic number.
    InvalidMagicNumber,
    /// On load, the size in the header differs from the length of the image;
    /// on store, a length or offset does not fit the 32-bit fields of the format.
    SizeMismatch,
    /// A read left the image.
    SliceReadError(SliceReadError),
    /// The token expected at the given offset of the structure block is not there.
    ParseError(usize),
    /// A node or property name is not valid UTF-8.
    Utf8Error,
    /// The version in the header is not the supported one.
    VersionNotSupported,
    /// A write broke the discipline of the output buffer.
    VecWriteError(VecWriteError),
    /// A property could not be decoded.
    PropError(PropError),
}

impl From<SliceReadError> for DeviceTreeError {
    fn from(e: SliceReadError) -> (r: DeviceTreeError) {
        DeviceTreeError::SliceReadError(e)
    }
}

impl FromSpecImpl<SliceReadError> for DeviceTreeError {
    open spec fn obeys_from_spec() -> bool {
        true
    }

    open spec fn from_spec(e: SliceReadError) -> DeviceTreeError {
        DeviceTreeError::SliceReadError(e)
    }
}

impl From<VecWriteError> for DeviceTreeError {
    fn from(e: VecWriteError) -> (r: DeviceTreeError) {
        DeviceTreeError::VecWriteError(e)
    }
}

impl FromSpecImpl<VecWriteError> for DeviceTreeError {
    open spec fn obeys_from_spec() -> bool {
        true
    }

    open spec fn from_spec(e: VecWriteError) -> DeviceTreeError {
        DeviceTreeError::VecWriteError(e)
    }
}

impl From<PropError> for DeviceTreeError {
    fn from(e: PropError) -> (r: DeviceTreeError) {
        DeviceTreeError::PropError(e)
    }
}

impl FromSpecImpl<PropError> for DeviceTreeError {
    open spec fn obeys_from_spec() -> bool {
        true
    }

    open spec fn from_spec(e: PropError) -> DeviceTreeError {
        DeviceTreeError::PropError(e)
    }
}

impl From<SliceReadError> for PropError {
    fn from(e: SliceReadError) -> (r: PropError) {
        PropError::SliceReadError(e)
    }
}

impl FromSpecImpl<SliceReadError> for PropError {
    open spec fn obeys_from_spec() -> bool {
        true
    }

    open spec fn from_spec(e: SliceReadError) -> PropError {
        PropError::SliceReadError(e)
    }
}

impl From<core::str::Utf8Error> for DeviceTreeError {
    fn from(e: core::str::Utf8Error) -> (r: DeviceTreeError) {
        DeviceTreeError::Utf8Error
    }
}

impl FromSpecImpl<core::str::Utf8Error> for DeviceTreeError {
    open spec fn obeys_from_spec() -> bool {
        true
    }

    open spec fn from_spec(e: core::str::Utf8Error) -> DeviceTreeError {
        DeviceTreeError::Utf8Error
    }
}

impl From<core::str::Utf8Error> for PropError {
    fn from(e: core::str::Utf8Error) -> (r: PropError) {
        PropError::Utf8Error
    }
}

impl FromSpecImpl<core::str::Utf8Error> for PropError {
    open spec fn obeys_from_spec() -> bool {
        true
    }

    open spec fn from_spec(e: core::str::Utf8Error) -> PropError {
        PropError::Utf8Error
    }
}

} // verus!
