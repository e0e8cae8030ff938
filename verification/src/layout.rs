//! The container format, written: the bytes that a tree is laid out as.
//!
//! Every piece is described by the bytes it adds to an image that is `at`
//! bytes long so far: tokens stand at multiples of four, so what a piece
//! adds starts with the zero bytes that lead up to the next one. The names
//! of the properties go to a table, which is carried along, and the
//! property records hold the offsets that the table gives.
//!
//! A length or an offset that does not fit the 32-bit fields of the format
//! cannot be written; a tree that holds one has no image.

use vstd::prelude::*;
use vstd::utf8::*;

use crate::format::{
    COMPAT_VERSION, MAGIC_NUMBER, OF_DT_BEGIN_NODE, OF_DT_END, OF_DT_END_NODE, OF_DT_PROP,
    SUPPORTED_VERSION,
};
use crate::model::{DeviceTreeModel, NodeModel};
use crate::stringtable::{empty_table, table_add, TableModel};
use crate::util::{spec_align, u32_bytes, u64_bytes, zeros};

verus! {

/// The length of the header.
pub const HEADER_SIZE: usize = 40;

/// The zero bytes that lead from `at` to the next multiple of `n`.
pub open spec fn gap(at: int, n: int) -> Seq<u8> {
    zeros(spec_align(at, n) - at)
}

/// The bytes of a property record written at `at`, and the table after it:
/// the token, the length of the value, the offset of the name, the value.
pub open spec fn prop_bytes(at: int, table: TableModel, prop: (Seq<char>, Seq<u8>)) -> Option<
    (Seq<u8>, TableModel),
> {
    if prop.1.len() > u32::MAX || table.buffer.len() > u32::MAX {
        None
    } else {
        Some(
            (
                gap(at, 4) + u32_bytes(OF_DT_PROP as int) + u32_bytes(prop.1.len() as int)
                    + u32_bytes(table_add(table, prop.0).1 as int) + prop.1,
                table_add(table, prop.0).0,
            ),
        )
    }
}

/// The bytes of the records of `props`, written one after the other from
/// `at` on, and the table after them.
pub open spec fn props_bytes(
    at: int,
    table: TableModel,
    props: Seq<(Seq<char>, Seq<u8>)>,
) -> Option<(Seq<u8>, TableModel)>
    decreases props.len(),
{
    if props.len() == 0 {
        Some((Seq::empty(), table))
    } else {
        match prop_bytes(at, table, props[0]) {
            None => None,
            Some((first, t)) => match props_bytes(at + first.len(), t, props.drop_first()) {
                None => None,
                Some((rest, t2)) => Some((first + rest, t2)),
            },
        }
    }
}

/// The bytes of the record of `node` written at `at`, and the table after
/// it: the opening token, the name and a zero byte, the properties, the
/// children, the closing token.
pub open spec fn node_bytes(at: int, table: TableModel, node: NodeModel) -> Option<
    (Seq<u8>, TableModel),
>
    decreases node, 1int,
{
    let head = gap(at, 4) + u32_bytes(OF_DT_BEGIN_NODE as int) + encode_utf8(node.name)
        + seq![0u8];
    match props_bytes(at + head.len(), table, node.props) {
        None => None,
        Some((props, t)) => match nodes_bytes(
            at + head.len() + props.len(),
            t,
            node.children,
        ) {
            None => None,
            Some((children, t2)) => Some(
                (
                    head + props + children + gap(
                        at + head.len() + props.len() + children.len(),
                        4,
                    ) + u32_bytes(OF_DT_END_NODE as int),
                    t2,
                ),
            ),
        },
    }
}

/// The bytes of the records of `nodes`, written one after the other from
/// `at` on, and the table after them.
pub open spec fn nodes_bytes(at: int, table: TableModel, nodes: Seq<NodeModel>) -> Option<
    (Seq<u8>, TableModel),
>
    decreases nodes, 0int,
{
    if nodes.len() == 0 {
        Some((Seq::empty(), table))
    } else {
        match node_bytes(at, table, nodes[0]) {
            None => None,
            Some((first, t)) => match nodes_bytes(at + first.len(), t, nodes.drop_first()) {
                None => None,
                Some((rest, t2)) => Some((first + rest, t2)),
            },
        }
    }
}

/// The reserved memory block: address and size of each region, and a last
/// pair of zeros.
pub open spec fn reserved_bytes(reserved: Seq<(u64, u64)>) -> Seq<u8>
    decreases reserved.len(),
{
    if reserved.len() == 0 {
        u64_bytes(0) + u64_bytes(0)
    } else {
        u64_bytes(reserved[0].0 as int) + u64_bytes(reserved[0].1 as int) + reserved_bytes(
            reserved.drop_first(),
        )
    }
}

/// The fields of a header after the magic number, in their order.
pub struct HeaderModel {
    pub total_size: int,
    pub off_dt_struct: int,
    pub off_dt_strings: int,
    pub off_mem_rsvmap: int,
    pub version: int,
    pub last_comp_version: int,
    pub boot_cpuid_phys: int,
    pub size_dt_strings: int,
    pub size_dt_struct: int,
}

/// The ten words of a header: the magic number and the nine fields.
pub open spec fn header_bytes(h: HeaderModel) -> Seq<u8> {
    u32_bytes(MAGIC_NUMBER as int) + u32_bytes(h.total_size) + u32_bytes(h.off_dt_struct)
        + u32_bytes(h.off_dt_strings) + u32_bytes(h.off_mem_rsvmap) + u32_bytes(h.version)
        + u32_bytes(h.last_comp_version) + u32_bytes(h.boot_cpuid_phys) + u32_bytes(
        h.size_dt_strings,
    ) + u32_bytes(h.size_dt_struct)
}

/// The image of `tree`: the header, the reserved memory block, the
/// structure block, which is the root node and the token that ends the
/// block, and the strings block, in this order and without a byte between
/// them. The strings block is built by a table that writes each name once
/// (`dedup`) or by one that writes each name as often as it comes. A tree
/// whose image would be longer than 32 bits can say has none.
pub open spec fn image(tree: DeviceTreeModel, dedup: bool) -> Option<Seq<u8>> {
    let reserved = reserved_bytes(tree.reserved);
    let off_dt_struct = HEADER_SIZE + reserved.len();
    match node_bytes(off_dt_struct, empty_table(dedup), tree.root) {
        None => None,
        Some((root, table)) => {
            let structure = root + u32_bytes(OF_DT_END as int);
            let off_dt_strings = off_dt_struct + structure.len();
            let total_size = off_dt_strings + table.buffer.len();
            if total_size > u32::MAX {
                None
            } else {
                Some(
                    header_bytes(
                        HeaderModel {
                            total_size,
                            off_dt_struct,
                            off_dt_strings,
                            off_mem_rsvmap: HEADER_SIZE as int,
                            version: SUPPORTED_VERSION as int,
                            last_comp_version: COMPAT_VERSION as int,
                            boot_cpuid_phys: tree.boot_cpuid_phys as int,
                            size_dt_strings: table.buffer.len() as int,
                            size_dt_struct: structure.len() as int,
                        },
                    ) + reserved + structure + table.buffer,
                )
            }
        },
    }
}

} // verus!
