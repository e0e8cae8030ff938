//! The container format, read: which tree an image spells, or the error
//! that reading it ends in.
//!
//! An image starts with a header of ten big-endian words. The header gives
//! the offsets of three blocks: the reserved memory regions, the structure
//! block and the strings block. The structure block is a stream of tokens,
//! each a word at an offset that is a multiple of four; a property record
//! names its property by an offset into the strings block.

use vstd::prelude::*;
use vstd::utf8::*;

use crate::error::{DeviceTreeError, SliceReadError};
use crate::model::{DeviceTreeModel, NodeModel};
use crate::util::{
    spec_align, spec_read_be_u32, spec_read_be_u64, spec_read_bstring0, spec_subslice,
};

verus! {

/// The first word of every image.
pub const MAGIC_NUMBER: u32 = 0xd00dfeed;

/// The one version of the format that is read and written.
pub const SUPPORTED_VERSION: u32 = 17;

/// The oldest version that a written image declares itself compatible with.
pub const COMPAT_VERSION: u32 = 16;

/// The token that opens a node; the node's name follows it.
pub const OF_DT_BEGIN_NODE: u32 = 0x00000001;

/// The token that closes a node.
pub const OF_DT_END_NODE: u32 = 0x00000002;

/// The token that opens a property record.
pub const OF_DT_PROP: u32 = 0x00000003;

/// The token that closes the structure block.
pub const OF_DT_END: u32 = 0x00000009;

/// How many bytes of `b` lie at and after `pos`; zero where `pos` is outside of `b`.
pub open spec fn room(b: Seq<u8>, pos: int) -> nat {
    if 0 <= pos < b.len() {
        (b.len() - pos) as nat
    } else {
        0
    }
}

/// The word at `pos`.
pub open spec fn word_at(b: Seq<u8>, pos: int) -> Result<u32, DeviceTreeError> {
    match spec_read_be_u32(b, pos) {
        Ok(v) => Ok(v),
        Err(e) => Err(DeviceTreeError::SliceReadError(e)),
    }
}

/// The double word at `pos`.
pub open spec fn dword_at(b: Seq<u8>, pos: int) -> Result<u64, DeviceTreeError> {
    match spec_read_be_u64(b, pos) {
        Ok(v) => Ok(v),
        Err(e) => Err(DeviceTreeError::SliceReadError(e)),
    }
}

/// The name that is spelled at `pos`: the bytes up to the next zero byte, as UTF-8.
pub open spec fn name_at(b: Seq<u8>, pos: int) -> Result<Seq<char>, DeviceTreeError> {
    match spec_read_bstring0(b, pos) {
        Err(e) => Err(DeviceTreeError::SliceReadError(e)),
        Ok(raw) => {
            if valid_utf8(raw) {
                Ok(decode_utf8(raw))
            } else {
                Err(DeviceTreeError::Utf8Error)
            }
        },
    }
}

/// The property whose record starts at `pos` with the token `OF_DT_PROP`,
/// and the offset of what follows the record. After the token come the
/// length of the value, the offset of the name in the strings block, which
/// starts at `strings`, and the value.
pub open spec fn parse_prop(b: Seq<u8>, pos: int, strings: int) -> Result<
    (int, (Seq<char>, Seq<u8>)),
    DeviceTreeError,
> {
    match word_at(b, pos + 4) {
        Err(e) => Err(e),
        Ok(val_size) => match word_at(b, pos + 8) {
            Err(e) => Err(e),
            Ok(name_offset) => match spec_subslice(b, pos + 12, pos + 12 + val_size) {
                Err(e) => Err(DeviceTreeError::SliceReadError(e)),
                Ok(value) => match name_at(b, strings + name_offset) {
                    Err(e) => Err(e),
                    Ok(name) => Ok((spec_align(pos + 12 + val_size, 4), (name, value))),
                },
            },
        },
    }
}

/// The properties whose records follow each other from `pos` on, and the
/// offset of the first word that is not `OF_DT_PROP`.
pub open spec fn parse_props(b: Seq<u8>, pos: int, strings: int) -> Result<
    (int, Seq<(Seq<char>, Seq<u8>)>),
    DeviceTreeError,
>
    decreases room(b, pos),
{
    match word_at(b, pos) {
        Err(e) => Err(e),
        Ok(token) => {
            if token != OF_DT_PROP {
                Ok((pos, Seq::empty()))
            } else {
                match parse_prop(b, pos, strings) {
                    Err(e) => Err(e),
                    Ok((next, prop)) => match parse_props(b, next, strings) {
                        Err(e) => Err(e),
                        Ok((end, rest)) => Ok((end, seq![prop] + rest)),
                    },
                }
            }
        },
    }
}

/// The properties are read forwards.
pub proof fn lemma_parse_props_advances(b: Seq<u8>, pos: int, strings: int)
    ensures
        parse_props(b, pos, strings) matches Ok((end, _)) ==> pos <= end,
    decreases room(b, pos),
{
    if let Ok(token) = word_at(b, pos) {
        if token == OF_DT_PROP {
            if let Ok((next, _)) = parse_prop(b, pos, strings) {
                lemma_parse_props_advances(b, next, strings);
            }
        }
    }
}

/// The node whose record starts at `start`, and the offset of what follows
/// the record. The record is the token `OF_DT_BEGIN_NODE`, the name with
/// its zero byte, then from the next multiple of four on the properties,
/// the child nodes and the token `OF_DT_END_NODE`.
pub open spec fn parse_node(b: Seq<u8>, start: int, strings: int) -> Result<
    (int, NodeModel),
    DeviceTreeError,
>
    decreases room(b, start), 0int,
{
    match word_at(b, start) {
        Err(e) => Err(e),
        Ok(token) => {
            if token != OF_DT_BEGIN_NODE {
                Err(DeviceTreeError::ParseError(start as usize))
            } else {
                match spec_read_bstring0(b, start + 4) {
                    Err(e) => Err(DeviceTreeError::SliceReadError(e)),
                    Ok(raw_name) => match parse_props(
                        b,
                        spec_align(start + 4 + raw_name.len() + 1, 4),
                        strings,
                    ) {
                        Err(e) => Err(e),
                        Ok((props_end, props)) => {
                            proof {
                                lemma_parse_props_advances(
                                    b,
                                    spec_align(start + 4 + raw_name.len() + 1, 4),
                                    strings,
                                );
                            }
                            match parse_children(b, props_end, strings) {
                                Err(e) => Err(e),
                                Ok((end, children)) => match word_at(b, end) {
                                    Err(e) => Err(e),
                                    Ok(closing) => {
                                        if closing != OF_DT_END_NODE {
                                            Err(DeviceTreeError::ParseError(end as usize))
                                        } else if !valid_utf8(raw_name) {
                                            Err(DeviceTreeError::Utf8Error)
                                        } else {
                                            Ok(
                                                (
                                                    end + 4,
                                                    NodeModel {
                                                        name: decode_utf8(raw_name),
                                                        props,
                                                        children,
                                                    },
                                                ),
                                            )
                                        }
                                    },
                                },
                            }
                        },
                    },
                }
            }
        },
    }
}

/// The nodes whose records follow each other from `pos` on, and the offset
/// of the first word that is not `OF_DT_BEGIN_NODE`.
///
/// A node's record is at least eight bytes long, so reading one always
/// leads forwards (`lemma_parse_node_advances`); the test for it in this
/// definition only serves to show that the definition is well founded.
pub open spec fn parse_children(b: Seq<u8>, pos: int, strings: int) -> Result<
    (int, Seq<NodeModel>),
    DeviceTreeError,
>
    decreases room(b, pos), 1int,
{
    match word_at(b, pos) {
        Err(e) => Err(e),
        Ok(token) => {
            if token != OF_DT_BEGIN_NODE {
                Ok((pos, Seq::empty()))
            } else {
                match parse_node(b, pos, strings) {
                    Err(e) => Err(e),
                    Ok((next, child)) => {
                        if next <= pos {
                            Err(DeviceTreeError::ParseError(pos as usize))
                        } else {
                            match parse_children(b, next, strings) {
                                Err(e) => Err(e),
                                Ok((end, rest)) => Ok((end, seq![child] + rest)),
                            }
                        }
                    },
                }
            }
        },
    }
}

/// The child nodes are read forwards.
pub proof fn lemma_parse_children_advances(b: Seq<u8>, pos: int, strings: int)
    ensures
        parse_children(b, pos, strings) matches Ok((end, _)) ==> pos <= end,
    decreases room(b, pos),
{
    if let Ok(token) = word_at(b, pos) {
        if token == OF_DT_BEGIN_NODE {
            if let Ok((next, _)) = parse_node(b, pos, strings) {
                if next > pos {
                    lemma_parse_children_advances(b, next, strings);
                }
            }
        }
    }
}

/// A node's record is at least eight bytes long and ends inside the image.
pub proof fn lemma_parse_node_advances(b: Seq<u8>, start: int, strings: int)
    ensures
        parse_node(b, start, strings) matches Ok((end, _)) ==> 0 <= start && start + 8 <= end
            <= b.len(),
{
    if let Ok((end, _)) = parse_node(b, start, strings) {
        let raw_name = spec_read_bstring0(b, start + 4)->Ok_0;
        let props_start = spec_align(start + 4 + raw_name.len() + 1, 4);
        lemma_parse_props_advances(b, props_start, strings);
        let props_end = parse_props(b, props_start, strings)->Ok_0.0;
        lemma_parse_children_advances(b, props_end, strings);
    }
}

/// The reserved memory regions that are listed from `pos` on, as pairs of
/// address and size, up to and without the first pair whose size is zero.
pub open spec fn parse_reserved(b: Seq<u8>, pos: int) -> Result<Seq<(u64, u64)>, DeviceTreeError>
    decreases room(b, pos),
{
    match dword_at(b, pos) {
        Err(e) => Err(e),
        Ok(address) => match dword_at(b, pos + 8) {
            Err(e) => Err(e),
            Ok(size) => {
                if size == 0 {
                    Ok(Seq::empty())
                } else {
                    match parse_reserved(b, pos + 16) {
                        Err(e) => Err(e),
                        Ok(rest) => Ok(seq![(address, size)] + rest),
                    }
                }
            },
        },
    }
}

/// The tree that the image `b` spells.
///
/// The header is checked first: the magic number, the size, which must be
/// the length of `b`, and the version. Then the reserved memory regions
/// and the root node are read where the header says they are.
pub open spec fn parse_image(b: Seq<u8>) -> Result<DeviceTreeModel, DeviceTreeError> {
    match word_at(b, 0) {
        Err(e) => Err(e),
        Ok(magic) => {
            if magic != MAGIC_NUMBER {
                Err(DeviceTreeError::InvalidMagicNumber)
            } else {
                match word_at(b, 4) {
                    Err(e) => Err(e),
                    Ok(size) => {
                        if size != b.len() {
                            Err(DeviceTreeError::SizeMismatch)
                        } else {
                            match word_at(b, 20) {
                                Err(e) => Err(e),
                                Ok(version) => {
                                    if version != SUPPORTED_VERSION {
                                        Err(DeviceTreeError::VersionNotSupported)
                                    } else {
                                        parse_body(b, version)
                                    }
                                },
                            }
                        }
                    },
                }
            }
        },
    }
}

/// The tree that the image `b` spells, once its header is found in order.
pub open spec fn parse_body(b: Seq<u8>, version: u32) -> Result<DeviceTreeModel, DeviceTreeError> {
    match word_at(b, 8) {
        Err(e) => Err(e),
        Ok(off_dt_struct) => match word_at(b, 12) {
            Err(e) => Err(e),
            Ok(off_dt_strings) => match word_at(b, 16) {
                Err(e) => Err(e),
                Ok(off_mem_rsvmap) => match word_at(b, 28) {
                    Err(e) => Err(e),
                    Ok(boot_cpuid_phys) => match parse_reserved(b, off_mem_rsvmap as int) {
                        Err(e) => Err(e),
                        Ok(reserved) => match parse_node(
                            b,
                            off_dt_struct as int,
                            off_dt_strings as int,
                        ) {
                            Err(e) => Err(e),
                            Ok((_, root)) => Ok(
                                DeviceTreeModel { version, boot_cpuid_phys, reserved, root },
                            ),
                        },
                    },
                },
            },
        },
    }
}

} // verus!
