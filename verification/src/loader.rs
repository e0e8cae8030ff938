//! The loader: from an image to the tree it spells.

use vstd::prelude::*;
use vstd::slice::slice_to_vec;
use vstd::utf8::*;

use crate::error::{DeviceTreeError, SliceReadError};
use crate::format::{
    lemma_parse_node_advances, lemma_parse_props_advances, name_at, parse_children, parse_image,
    parse_node, parse_prop, parse_props, parse_reserved, room, MAGIC_NUMBER, OF_DT_BEGIN_NODE,
    OF_DT_END_NODE, OF_DT_PROP, SUPPORTED_VERSION,
};
use crate::model::{DeviceTreeModel, NodeModel};
use crate::tree::{lemma_node_view, nodes_view, props_view, DeviceTree, Node};
use crate::util::{
    be_u32, lemma_be_range, lemma_first_of, lemma_len_fits, read_be_u32, read_be_u64,
    read_bstring0, spec_align, subslice,
};

verus! {

/// `x` rounded up to a multiple of four, where that is still a `usize`.
fn align4(x: usize) -> (r: Option<usize>)
    ensures
        match r {
            Some(v) => v == spec_align(x as int, 4),
            None => spec_align(x as int, 4) > usize::MAX,
        },
{
    let rem = x % 4;
    if rem == 0 {
        Some(x)
    } else {
        x.checked_add(4 - rem)
    }
}

/// What reading on gives, put behind the properties read so far.
pub open spec fn after_props(
    done: Seq<(Seq<char>, Seq<u8>)>,
    rest: Result<(int, Seq<(Seq<char>, Seq<u8>)>), DeviceTreeError>,
) -> Result<(int, Seq<(Seq<char>, Seq<u8>)>), DeviceTreeError> {
    match rest {
        Ok((end, props)) => Ok((end, done + props)),
        Err(e) => Err(e),
    }
}

/// What reading on gives, put behind the nodes read so far.
pub open spec fn after_nodes(
    done: Seq<NodeModel>,
    rest: Result<(int, Seq<NodeModel>), DeviceTreeError>,
) -> Result<(int, Seq<NodeModel>), DeviceTreeError> {
    match rest {
        Ok((end, nodes)) => Ok((end, done + nodes)),
        Err(e) => Err(e),
    }
}

/// What reading on gives, put behind the regions read so far.
pub open spec fn after_regions(
    done: Seq<(u64, u64)>,
    rest: Result<Seq<(u64, u64)>, DeviceTreeError>,
) -> Result<Seq<(u64, u64)>, DeviceTreeError> {
    match rest {
        Ok(regions) => Ok(done + regions),
        Err(e) => Err(e),
    }
}

/// Reads the name that is spelled at `pos`.
fn load_name(buffer: &[u8], pos: usize) -> (r: Result<String, DeviceTreeError>)
    ensures
        match r {
            Ok(name) => name_at(buffer@, pos as int) == Ok::<Seq<char>, DeviceTreeError>(name@),
            Err(e) => name_at(buffer@, pos as int) == Err::<Seq<char>, DeviceTreeError>(e),
        },
{
    let raw = match read_bstring0(buffer, pos) {
        Ok(raw) => raw,
        Err(e) => {
            return Err(DeviceTreeError::SliceReadError(e));
        },
    };
    decode_name(raw)
}

/// Decodes a name from its bytes.
fn decode_name(raw: &[u8]) -> (r: Result<String, DeviceTreeError>)
    ensures
        match r {
            Ok(name) => valid_utf8(raw@) && name@ == decode_utf8(raw@),
            Err(e) => !valid_utf8(raw@) && e == DeviceTreeError::Utf8Error,
        },
{
    match core::str::from_utf8(raw) {
        Ok(s) => {
            proof {
                encode_utf8_decode_utf8(s@);
            }
            Ok(s.to_owned())
        },
        Err(_) => Err(DeviceTreeError::Utf8Error),
    }
}

/// Reads the property record at `pos`, whose token has been read, and
/// returns the offset at which its value ends with its name and value.
fn load_prop(buffer: &[u8], pos: usize, off_dt_strings: usize) -> (r: Result<
    (usize, String, Vec<u8>),
    DeviceTreeError,
>)
    requires
        pos + 4 <= buffer@.len(),
    ensures
        match r {
            Ok((val_end, name, value)) => parse_prop(buffer@, pos as int, off_dt_strings as int)
                == Ok::<(int, (Seq<char>, Seq<u8>)), DeviceTreeError>(
                (spec_align(val_end as int, 4), (name@, value@)),
            ),
            Err(e) => parse_prop(buffer@, pos as int, off_dt_strings as int) == Err::<
                (int, (Seq<char>, Seq<u8>)),
                DeviceTreeError,
            >(e),
        },
{
    proof {
        lemma_len_fits(buffer);
    }
    let val_size = match read_be_u32(buffer, pos + 4) {
        Ok(v) => v as usize,
        Err(e) => {
            return Err(DeviceTreeError::SliceReadError(e));
        },
    };
    let name_offset = match read_be_u32(buffer, pos + 8) {
        Ok(v) => v as usize,
        Err(e) => {
            return Err(DeviceTreeError::SliceReadError(e));
        },
    };
    let val_start = pos + 12;
    let val_end = match val_start.checked_add(val_size) {
        Some(v) => v,
        None => {
            return Err(DeviceTreeError::SliceReadError(SliceReadError::UnexpectedEndOfInput));
        },
    };
    let val = match subslice(buffer, val_start, val_end) {
        Ok(v) => v,
        Err(e) => {
            return Err(DeviceTreeError::SliceReadError(e));
        },
    };
    let name_pos = match off_dt_strings.checked_add(name_offset) {
        Some(v) => v,
        None => {
            return Err(DeviceTreeError::SliceReadError(SliceReadError::UnexpectedEndOfInput));
        },
    };
    let name = match load_name(buffer, name_pos) {
        Ok(v) => v,
        Err(e) => {
            return Err(e);
        },
    };
    Ok((val_end, name, slice_to_vec(val)))
}

/// Reads the property records that follow each other from `pos` on.
fn load_props(buffer: &[u8], pos: usize, off_dt_strings: usize) -> (r: Result<
    (usize, Vec<(String, Vec<u8>)>),
    DeviceTreeError,
>)
    ensures
        match r {
            Ok((end, props)) => parse_props(buffer@, pos as int, off_dt_strings as int) == Ok::<
                (int, Seq<(Seq<char>, Seq<u8>)>),
                DeviceTreeError,
            >((end as int, props_view(props@))),
            Err(e) => parse_props(buffer@, pos as int, off_dt_strings as int) == Err::<
                (int, Seq<(Seq<char>, Seq<u8>)>),
                DeviceTreeError,
            >(e),
        },
{
    let mut props: Vec<(String, Vec<u8>)> = Vec::new();
    let mut cur = pos;
    proof {
        lemma_len_fits(buffer);
    }
    assert(props_view(props@) + Seq::<(Seq<char>, Seq<u8>)>::empty() =~= props_view(props@));
    loop
        invariant
            buffer@.len() <= usize::MAX,
            parse_props(buffer@, pos as int, off_dt_strings as int) == after_props(
                props_view(props@),
                parse_props(buffer@, cur as int, off_dt_strings as int),
            ),
        decreases room(buffer@, cur as int),
    {
        let token = match read_be_u32(buffer, cur) {
            Ok(v) => v,
            Err(e) => {
                return Err(DeviceTreeError::SliceReadError(e));
            },
        };
        if token != OF_DT_PROP {
            assert(props_view(props@) + Seq::<(Seq<char>, Seq<u8>)>::empty() =~= props_view(
                props@,
            ));
            return Ok((cur, props));
        }
        let (val_end, name, value) = match load_prop(buffer, cur, off_dt_strings) {
            Ok(v) => v,
            Err(e) => {
                return Err(e);
            },
        };
        let next = match align4(val_end) {
            Some(v) => v,
            None => {
                assert(parse_props(buffer@, spec_align(val_end as int, 4), off_dt_strings as int)
                    is Err);
                return Err(DeviceTreeError::SliceReadError(SliceReadError::UnexpectedEndOfInput));
            },
        };
        let ghost before = props_view(props@);
        let ghost prop = (name@, value@);
        props.push((name, value));
        proof {
            assert(props_view(props@) =~= before.push(prop));
            let rest = parse_props(buffer@, next as int, off_dt_strings as int);
            if let Ok((end, more)) = rest {
                assert(before + (seq![prop] + more) =~= before.push(prop) + more);
            }
        }
        cur = next;
    }
}

impl Node {
    /// Reads the node whose record starts at `start`: its name, its
    /// properties, whose names are found in the strings block at
    /// `off_dt_strings`, and its child nodes. Returns the offset of what
    /// follows the record with the node.
    pub fn load(buffer: &[u8], start: usize, off_dt_strings: usize) -> (r: Result<
        (usize, Node),
        DeviceTreeError,
    >)
        ensures
            match r {
                Ok((end, node)) => parse_node(buffer@, start as int, off_dt_strings as int) == Ok::<
                    (int, NodeModel),
                    DeviceTreeError,
                >((end as int, node@)),
                Err(e) => parse_node(buffer@, start as int, off_dt_strings as int) == Err::<
                    (int, NodeModel),
                    DeviceTreeError,
                >(e),
            },
        decreases room(buffer@, start as int), 0int,
    {
        proof {
            lemma_len_fits(buffer);
        }
        let token = match read_be_u32(buffer, start) {
            Ok(v) => v,
            Err(e) => {
                return Err(DeviceTreeError::SliceReadError(e));
            },
        };
        if token != OF_DT_BEGIN_NODE {
            return Err(DeviceTreeError::ParseError(start));
        }
        let raw_name = match read_bstring0(buffer, start + 4) {
            Ok(v) => v,
            Err(e) => {
                return Err(DeviceTreeError::SliceReadError(e));
            },
        };
        proof {
            lemma_first_of(buffer@, 0u8, start + 4);
        }
        let props_start = match align4(start + 4 + raw_name.len() + 1) {
            Some(v) => v,
            None => {
                return Err(DeviceTreeError::SliceReadError(SliceReadError::UnexpectedEndOfInput));
            },
        };
        let (props_end, props) = match load_props(buffer, props_start, off_dt_strings) {
            Ok(v) => v,
            Err(e) => {
                return Err(e);
            },
        };
        proof {
            lemma_parse_props_advances(buffer@, props_start as int, off_dt_strings as int);
        }
        let (end, children) = match Node::load_children(buffer, props_end, off_dt_strings) {
            Ok(v) => v,
            Err(e) => {
                return Err(e);
            },
        };
        let closing = match read_be_u32(buffer, end) {
            Ok(v) => v,
            Err(e) => {
                return Err(DeviceTreeError::SliceReadError(e));
            },
        };
        if closing != OF_DT_END_NODE {
            return Err(DeviceTreeError::ParseError(end));
        }
        let name = match decode_name(raw_name) {
            Ok(v) => v,
            Err(e) => {
                return Err(e);
            },
        };
        let node = Node { name, props, children };
        proof {
            lemma_node_view(node);
        }
        Ok((end + 4, node))
    }

    /// Reads the node records that follow each other from `pos` on.
    fn load_children(buffer: &[u8], pos: usize, off_dt_strings: usize) -> (r: Result<
        (usize, Vec<Node>),
        DeviceTreeError,
    >)
        ensures
            match r {
                Ok((end, nodes)) => parse_children(buffer@, pos as int, off_dt_strings as int)
                    == Ok::<(int, Seq<NodeModel>), DeviceTreeError>(
                    (end as int, nodes_view(nodes@)),
                ),
                Err(e) => parse_children(buffer@, pos as int, off_dt_strings as int) == Err::<
                    (int, Seq<NodeModel>),
                    DeviceTreeError,
                >(e),
            },
        decreases room(buffer@, pos as int), 1int,
    {
        let mut children: Vec<Node> = Vec::new();
        let mut cur = pos;
        proof {
            lemma_len_fits(buffer);
        }
        assert(nodes_view(children@) + Seq::<NodeModel>::empty() =~= nodes_view(children@));
        loop
            invariant
                pos <= cur,
                buffer@.len() <= usize::MAX,
                parse_children(buffer@, pos as int, off_dt_strings as int) == after_nodes(
                    nodes_view(children@),
                    parse_children(buffer@, cur as int, off_dt_strings as int),
                ),
            decreases room(buffer@, cur as int),
        {
            let token = match read_be_u32(buffer, cur) {
                Ok(v) => v,
                Err(e) => {
                    return Err(DeviceTreeError::SliceReadError(e));
                },
            };
            if token != OF_DT_BEGIN_NODE {
                assert(nodes_view(children@) + Seq::<NodeModel>::empty() =~= nodes_view(
                    children@,
                ));
                return Ok((cur, children));
            }
            let (next, child) = match Node::load(buffer, cur, off_dt_strings) {
                Ok(v) => v,
                Err(e) => {
                    return Err(e);
                },
            };
            let ghost before = nodes_view(children@);
            let ghost model = child@;
            children.push(child);
            proof {
                lemma_parse_node_advances(buffer@, cur as int, off_dt_strings as int);
                assert(nodes_view(children@) =~= before.push(model));
                let rest = parse_children(buffer@, next as int, off_dt_strings as int);
                if let Ok((end, more)) = rest {
                    assert(before + (seq![model] + more) =~= before.push(model) + more);
                }
            }
            cur = next;
        }
    }
}

/// Reads the reserved memory regions that are listed from `pos` on.
fn load_reserved(buffer: &[u8], pos: usize) -> (r: Result<Vec<(u64, u64)>, DeviceTreeError>)
    ensures
        match r {
            Ok(regions) => parse_reserved(buffer@, pos as int) == Ok::<
                Seq<(u64, u64)>,
                DeviceTreeError,
            >(regions@),
            Err(e) => parse_reserved(buffer@, pos as int) == Err::<
                Seq<(u64, u64)>,
                DeviceTreeError,
            >(e),
        },
{
    let mut reserved: Vec<(u64, u64)> = Vec::new();
    let mut cur = pos;
    proof {
        lemma_len_fits(buffer);
    }
    assert(reserved@ + Seq::<(u64, u64)>::empty() =~= reserved@);
    loop
        invariant
            buffer@.len() <= usize::MAX,
            parse_reserved(buffer@, pos as int) == after_regions(
                reserved@,
                parse_reserved(buffer@, cur as int),
            ),
        decreases room(buffer@, cur as int),
    {
        let address = match read_be_u64(buffer, cur) {
            Ok(v) => v,
            Err(e) => {
                return Err(DeviceTreeError::SliceReadError(e));
            },
        };
        let size = match read_be_u64(buffer, cur + 8) {
            Ok(v) => v,
            Err(e) => {
                return Err(DeviceTreeError::SliceReadError(e));
            },
        };
        if size == 0 {
            assert(reserved@ + Seq::<(u64, u64)>::empty() =~= reserved@);
            return Ok(reserved);
        }
        let ghost before = reserved@;
        reserved.push((address, size));
        proof {
            let rest = parse_reserved(buffer@, cur + 16);
            if let Ok(more) = rest {
                assert(before + (seq![(address, size)] + more) =~= before.push((address, size))
                    + more);
            }
        }
        cur = cur + 16;
    }
}

impl DeviceTree {
    /// Loads a device tree from the image `buffer`.
    ///
    /// The image must start with the magic number, give its own length as
    /// its size, and be of the supported version. The reserved memory
    /// regions are read up to the first whose size is zero; the root node
    /// is read from the structure block. The result owns all it holds.
    pub fn load(buffer: &[u8]) -> (r: Result<DeviceTree, DeviceTreeError>)
        ensures
            match r {
                Ok(tree) => parse_image(buffer@) == Ok::<DeviceTreeModel, DeviceTreeError>(tree@),
                Err(e) => parse_image(buffer@) == Err::<DeviceTreeModel, DeviceTreeError>(e),
            },
            buffer@.len() >= 4 && be_u32(buffer@, 0) != MAGIC_NUMBER ==> r matches Err(
                DeviceTreeError::InvalidMagicNumber,
            ),
            buffer@.len() >= 8 && be_u32(buffer@, 0) == MAGIC_NUMBER && be_u32(buffer@, 4)
                != buffer@.len() ==> r matches Err(DeviceTreeError::SizeMismatch),
    {
        proof {
            lemma_be_range(buffer@, 0);
            lemma_be_range(buffer@, 4);
        }
        let magic = match read_be_u32(buffer, 0) {
            Ok(v) => v,
            Err(e) => {
                return Err(DeviceTreeError::SliceReadError(e));
            },
        };
        if magic != MAGIC_NUMBER {
            return Err(DeviceTreeError::InvalidMagicNumber);
        }
        let size = match read_be_u32(buffer, 4) {
            Ok(v) => v,
            Err(e) => {
                return Err(DeviceTreeError::SliceReadError(e));
            },
        };
        if size as usize != buffer.len() {
            return Err(DeviceTreeError::SizeMismatch);
        }
        let version = match read_be_u32(buffer, 20) {
            Ok(v) => v,
            Err(e) => {
                return Err(DeviceTreeError::SliceReadError(e));
            },
        };
        if version != SUPPORTED_VERSION {
            return Err(DeviceTreeError::VersionNotSupported);
        }
        let off_dt_struct = match read_be_u32(buffer, 8) {
            Ok(v) => v as usize,
            Err(e) => {
                return Err(DeviceTreeError::SliceReadError(e));
            },
        };
        let off_dt_strings = match read_be_u32(buffer, 12) {
            Ok(v) => v as usize,
            Err(e) => {
                return Err(DeviceTreeError::SliceReadError(e));
            },
        };
        let off_mem_rsvmap = match read_be_u32(buffer, 16) {
            Ok(v) => v as usize,
            Err(e) => {
                return Err(DeviceTreeError::SliceReadError(e));
            },
        };
        let boot_cpuid_phys = match read_be_u32(buffer, 28) {
            Ok(v) => v,
            Err(e) => {
                return Err(DeviceTreeError::SliceReadError(e));
            },
        };
        let reserved = match load_reserved(buffer, off_mem_rsvmap) {
            Ok(v) => v,
            Err(e) => {
                return Err(e);
            },
        };
        let root = match Node::load(buffer, off_dt_struct, off_dt_strings) {
            Ok((_, node)) => node,
            Err(e) => {
                return Err(e);
            },
        };
        Ok(DeviceTree { version, boot_cpuid_phys, reserved, root })
    }
}

} // verus!
