//! The serializer: from a tree to its image.
//!
//! The header is written first, with zeros in the fields that are not yet
//! known; the blocks follow, and each field is written over its zeros as
//! soon as the block it speaks of is laid out.

use vstd::prelude::*;
use vstd::utf8::*;

use crate::advancedstringtable;
use crate::error::DeviceTreeError;
use crate::format::{
    COMPAT_VERSION, MAGIC_NUMBER, OF_DT_BEGIN_NODE, OF_DT_END, OF_DT_END_NODE, OF_DT_PROP,
    SUPPORTED_VERSION,
};
use crate::layout::{
    gap, header_bytes, image, node_bytes, nodes_bytes, prop_bytes, props_bytes, reserved_bytes,
    HeaderModel, HEADER_SIZE,
};
use crate::model::NodeModel;
use crate::stringtable;
use crate::stringtable::{empty_table, NameTable, TableModel};
use crate::tree::{lemma_node_view, nodes_view, props_view, DeviceTree, Node};
use crate::util::{
    extend_from_slice, lemma_align, lemma_u32_len, pad, patched, u32_bytes, u64_bytes,
    write_be_u32, write_be_u64, write_bstring0,
};

verus! {

/// A piece put behind what was written before it.
pub open spec fn appended(before: Seq<u8>, piece: Option<(Seq<u8>, TableModel)>) -> Option<
    (Seq<u8>, TableModel),
> {
    match piece {
        Some((bytes, table)) => Some((before + bytes, table)),
        None => None,
    }
}

/// Whether a step of the serializer that returned `r` has done what it
/// owed: where there is something to write, it has succeeded and left the
/// buffer and the table as `wanted`; where there is not, it has reported
/// that a size does not fit.
pub open spec fn wrote(
    r: Result<(), DeviceTreeError>,
    buffer: Seq<u8>,
    table: TableModel,
    wanted: Option<(Seq<u8>, TableModel)>,
) -> bool {
    match wanted {
        Some((bytes, t)) => r is Ok && buffer == bytes && table == t,
        None => r == Err::<(), DeviceTreeError>(DeviceTreeError::SizeMismatch),
    }
}

/// Pads to a multiple of four and appends the word `v`.
fn append_word(buffer: &mut Vec<u8>, v: u32) -> (r: Result<(), DeviceTreeError>)
    ensures
        r is Ok,
        final(buffer)@ == old(buffer)@ + gap(old(buffer)@.len() as int, 4) + u32_bytes(v as int),
{
    proof {
        lemma_align(buffer@.len() as int, 4);
    }
    match pad(buffer, 4) {
        Ok(()) => {},
        Err(e) => {
            return Err(DeviceTreeError::VecWriteError(e));
        },
    }
    let len = buffer.len();
    match write_be_u32(buffer, len, v) {
        Ok(()) => Ok(()),
        Err(e) => Err(DeviceTreeError::VecWriteError(e)),
    }
}

/// Writes the record of a property.
fn store_prop<T: NameTable>(
    name: &str,
    value: &[u8],
    structure: &mut Vec<u8>,
    strings: &mut T,
) -> (r: Result<(), DeviceTreeError>)
    ensures
        wrote(
            r,
            final(structure)@,
            final(strings)@,
            appended(
                old(structure)@,
                prop_bytes(old(structure)@.len() as int, old(strings)@, (name@, value@)),
            ),
        ),
{
    if value.len() > u32::MAX as usize || strings.size() > u32::MAX as usize {
        return Err(DeviceTreeError::SizeMismatch);
    }
    match append_word(structure, OF_DT_PROP) {
        Ok(()) => {},
        Err(e) => {
            return Err(e);
        },
    }
    let ghost tokened = structure@;
    proof {
        lemma_align(old(structure)@.len() as int, 4);
        lemma_u32_len(OF_DT_PROP as int);
        lemma_u32_len(value@.len() as int);
    }
    // Write property value length
    match append_word(structure, value.len() as u32) {
        Ok(()) => {},
        Err(e) => {
            return Err(e);
        },
    }
    // Write name offset
    let offset = strings.add_string(name);
    match append_word(structure, offset) {
        Ok(()) => {},
        Err(e) => {
            return Err(e);
        },
    }
    // Store the property value
    extend_from_slice(structure, value);
    proof {
        assert(gap(tokened.len() as int, 4) =~= Seq::<u8>::empty());
        assert(gap((tokened.len() + 4) as int, 4) =~= Seq::<u8>::empty());
        assert(structure@ =~= old(structure)@ + (gap(old(structure)@.len() as int, 4) + u32_bytes(
            OF_DT_PROP as int,
        ) + u32_bytes(value@.len() as int) + u32_bytes(offset as int) + value@));
    }
    Ok(())
}

/// Writes the records of the properties `props`, one after the other.
fn store_props<T: NameTable>(
    props: &Vec<(String, Vec<u8>)>,
    structure: &mut Vec<u8>,
    strings: &mut T,
) -> (r: Result<(), DeviceTreeError>)
    ensures
        wrote(
            r,
            final(structure)@,
            final(strings)@,
            appended(
                old(structure)@,
                props_bytes(old(structure)@.len() as int, old(strings)@, props_view(props@)),
            ),
        ),
{
    let ghost all = props_view(props@);
    let mut i: usize = 0;
    assert(all.skip(0) =~= all);
    while i < props.len()
        invariant
            i <= props@.len(),
            all == props_view(props@),
            appended(
                old(structure)@,
                props_bytes(old(structure)@.len() as int, old(strings)@, all),
            ) == appended(
                structure@,
                props_bytes(structure@.len() as int, strings@, all.skip(i as int)),
            ),
        decreases props@.len() - i,
    {
        let ghost before = structure@;
        let ghost table = strings@;
        assert(all.skip(i as int)[0] == (props@[i as int].0@, props@[i as int].1@));
        assert(all.skip(i as int).drop_first() =~= all.skip(i + 1));
        match store_prop(props[i].0.as_str(), props[i].1.as_slice(), structure, strings) {
            Ok(()) => {},
            Err(e) => {
                return Err(e);
            },
        }
        proof {
            let first = prop_bytes(before.len() as int, table, all[i as int])->Some_0.0;
            if let Some((rest, _)) = props_bytes(
                (before.len() + first.len()) as int,
                strings@,
                all.skip(i + 1),
            ) {
                assert(before + (first + rest) =~= (before + first) + rest);
            }
        }
        i += 1;
    }
    assert(structure@ + Seq::<u8>::empty() =~= structure@);
    Ok(())
}

/// Writes the records of the nodes `nodes`, one after the other.
fn store_nodes<T: NameTable>(nodes: &Vec<Node>, structure: &mut Vec<u8>, strings: &mut T) -> (r:
    Result<(), DeviceTreeError>)
    ensures
        wrote(
            r,
            final(structure)@,
            final(strings)@,
            appended(
                old(structure)@,
                nodes_bytes(old(structure)@.len() as int, old(strings)@, nodes_view(nodes@)),
            ),
        ),
    decreases nodes,
{
    let ghost all = nodes_view(nodes@);
    let mut i: usize = 0;
    assert(all.skip(0) =~= all);
    while i < nodes.len()
        invariant
            i <= nodes@.len(),
            all == nodes_view(nodes@),
            appended(
                old(structure)@,
                nodes_bytes(old(structure)@.len() as int, old(strings)@, all),
            ) == appended(
                structure@,
                nodes_bytes(structure@.len() as int, strings@, all.skip(i as int)),
            ),
        decreases nodes@.len() - i,
    {
        let ghost before = structure@;
        let ghost table = strings@;
        assert(all.skip(i as int)[0] == nodes@[i as int]@);
        assert(all.skip(i as int).drop_first() =~= all.skip(i + 1));
        match nodes[i].store(structure, strings) {
            Ok(()) => {},
            Err(e) => {
                return Err(e);
            },
        }
        proof {
            let first = node_bytes(before.len() as int, table, all[i as int])->Some_0.0;
            if let Some((rest, _)) = nodes_bytes(
                (before.len() + first.len()) as int,
                strings@,
                all.skip(i + 1),
            ) {
                assert(before + (first + rest) =~= (before + first) + rest);
            }
        }
        i += 1;
    }
    assert(structure@ + Seq::<u8>::empty() =~= structure@);
    Ok(())
}

impl Node {
    /// Appends the record of this node to `structure`: the opening token,
    /// the name, the properties, the children and the closing token, each
    /// token at a multiple of four. The names of the properties go to
    /// `strings`.
    ///
    /// Fails with `SizeMismatch`, and leaves both buffers with whatever was
    /// written up to there, where the length of a value or the offset of a
    /// name does not fit 32 bits.
    pub fn store<T: NameTable>(&self, structure: &mut Vec<u8>, strings: &mut T) -> (r: Result<
        (),
        DeviceTreeError,
    >)
        ensures
            match node_bytes(old(structure)@.len() as int, old(strings)@, self@) {
                Some((bytes, table)) => r is Ok && final(structure)@ == old(structure)@ + bytes
                    && final(strings)@ == table,
                None => r == Err::<(), DeviceTreeError>(DeviceTreeError::SizeMismatch),
            },
        decreases self,
    {
        proof {
            lemma_node_view(*self);
        }
        match append_word(structure, OF_DT_BEGIN_NODE) {
            Ok(()) => {},
            Err(e) => {
                return Err(e);
            },
        }
        match write_bstring0(structure, self.name.as_str()) {
            Ok(()) => {},
            Err(e) => {
                return Err(DeviceTreeError::VecWriteError(e));
            },
        }
        let ghost head = gap(old(structure)@.len() as int, 4) + u32_bytes(OF_DT_BEGIN_NODE as int)
            + encode_utf8(self.name@) + seq![0u8];
        assert(structure@ =~= old(structure)@ + head);
        match store_props(&self.props, structure, strings) {
            Ok(()) => {},
            Err(e) => {
                return Err(e);
            },
        }
        let ghost props = props_bytes(
            (old(structure)@.len() + head.len()) as int,
            old(strings)@,
            self@.props,
        )->Some_0.0;
        // Recurse on children
        match store_nodes(&self.children, structure, strings) {
            Ok(()) => {},
            Err(e) => {
                return Err(e);
            },
        }
        let ghost children = nodes_bytes(
            (old(structure)@.len() + head.len() + props.len()) as int,
            strings@,
            self@.children,
        );
        let ghost bodied = structure@;
        match append_word(structure, OF_DT_END_NODE) {
            Ok(()) => {},
            Err(e) => {
                return Err(e);
            },
        }
        proof {
            let bytes = node_bytes(old(structure)@.len() as int, old(strings)@, self@)->Some_0.0;
            assert(structure@ =~= old(structure)@ + bytes);
        }
        Ok(())
    }
}

/// Each region takes sixteen bytes of the reserved memory block, and so does its end.
pub proof fn lemma_reserved_len(reserved: Seq<(u64, u64)>)
    ensures
        reserved_bytes(reserved).len() == 16 * (reserved.len() + 1),
    decreases reserved.len(),
{
    lemma_u32_len(0);
    if reserved.len() > 0 {
        let (address, size) = reserved[0];
        lemma_u32_len(address as int / 0x1_0000_0000);
        lemma_u32_len(address as int % 0x1_0000_0000);
        lemma_u32_len(size as int / 0x1_0000_0000);
        lemma_u32_len(size as int % 0x1_0000_0000);
        lemma_reserved_len(reserved.drop_first());
    }
}

/// A header is forty bytes long. A word written over one of its fields
/// gives the header with that field changed, and leaves what follows the
/// header as it is.
pub proof fn lemma_header_patch(h: HeaderModel, rest: Seq<u8>, v: int)
    ensures
        header_bytes(h).len() == HEADER_SIZE,
        patched(header_bytes(h) + rest, 4, u32_bytes(v)) == header_bytes(
            HeaderModel { total_size: v, ..h },
        ) + rest,
        patched(header_bytes(h) + rest, 8, u32_bytes(v)) == header_bytes(
            HeaderModel { off_dt_struct: v, ..h },
        ) + rest,
        patched(header_bytes(h) + rest, 12, u32_bytes(v)) == header_bytes(
            HeaderModel { off_dt_strings: v, ..h },
        ) + rest,
        patched(header_bytes(h) + rest, 16, u32_bytes(v)) == header_bytes(
            HeaderModel { off_mem_rsvmap: v, ..h },
        ) + rest,
        patched(header_bytes(h) + rest, 32, u32_bytes(v)) == header_bytes(
            HeaderModel { size_dt_strings: v, ..h },
        ) + rest,
        patched(header_bytes(h) + rest, 36, u32_bytes(v)) == header_bytes(
            HeaderModel { size_dt_struct: v, ..h },
        ) + rest,
{
    lemma_u32_len(MAGIC_NUMBER as int);
    lemma_u32_len(h.total_size);
    lemma_u32_len(h.off_dt_struct);
    lemma_u32_len(h.off_dt_strings);
    lemma_u32_len(h.off_mem_rsvmap);
    lemma_u32_len(h.version);
    lemma_u32_len(h.last_comp_version);
    lemma_u32_len(h.boot_cpuid_phys);
    lemma_u32_len(h.size_dt_strings);
    lemma_u32_len(h.size_dt_struct);
    lemma_u32_len(v);
    let all = header_bytes(h) + rest;
    assert(patched(all, 4, u32_bytes(v)) =~= header_bytes(HeaderModel { total_size: v, ..h })
        + rest);
    assert(patched(all, 8, u32_bytes(v)) =~= header_bytes(HeaderModel { off_dt_struct: v, ..h })
        + rest);
    assert(patched(all, 12, u32_bytes(v)) =~= header_bytes(
        HeaderModel { off_dt_strings: v, ..h },
    ) + rest);
    assert(patched(all, 16, u32_bytes(v)) =~= header_bytes(
        HeaderModel { off_mem_rsvmap: v, ..h },
    ) + rest);
    assert(patched(all, 32, u32_bytes(v)) =~= header_bytes(
        HeaderModel { size_dt_strings: v, ..h },
    ) + rest);
    assert(patched(all, 36, u32_bytes(v)) =~= header_bytes(
        HeaderModel { size_dt_struct: v, ..h },
    ) + rest);
}

/// Writes the size or offset `v` over the word at `pos` of the header.
fn patch(dtb: &mut Vec<u8>, pos: usize, v: usize) -> (r: Result<(), DeviceTreeError>)
    requires
        pos % 4 == 0,
        pos + 4 <= old(dtb)@.len(),
    ensures
        v <= u32::MAX ==> r is Ok && final(dtb)@ == patched(
            old(dtb)@,
            pos as int,
            u32_bytes(v as int),
        ),
        v > u32::MAX ==> r == Err::<(), DeviceTreeError>(DeviceTreeError::SizeMismatch),
{
    if v > u32::MAX as usize {
        return Err(DeviceTreeError::SizeMismatch);
    }
    match write_be_u32(dtb, pos, v as u32) {
        Ok(()) => Ok(()),
        Err(e) => Err(DeviceTreeError::VecWriteError(e)),
    }
}

/// Appends the reserved memory block.
fn store_reserved(reserved: &Vec<(u64, u64)>, dtb: &mut Vec<u8>) -> (r: Result<
    (),
    DeviceTreeError,
>)
    requires
        old(dtb)@.len() % 8 == 0,
    ensures
        r is Ok,
        final(dtb)@ == old(dtb)@ + reserved_bytes(reserved@),
{
    let mut i: usize = 0;
    assert(reserved@.skip(0) =~= reserved@);
    while i < reserved.len()
        invariant
            i <= reserved@.len(),
            dtb@.len() % 8 == 0,
            old(dtb)@ + reserved_bytes(reserved@) == dtb@ + reserved_bytes(
                reserved@.skip(i as int),
            ),
        decreases reserved@.len() - i,
    {
        let ghost before = dtb@;
        let ghost rest = reserved@.skip(i as int);
        assert(rest.drop_first() =~= reserved@.skip(i + 1));
        proof {
            lemma_u32_len(reserved@[i as int].0 as int / 0x1_0000_0000);
            lemma_u32_len(reserved@[i as int].0 as int % 0x1_0000_0000);
            lemma_u32_len(reserved@[i as int].1 as int / 0x1_0000_0000);
            lemma_u32_len(reserved@[i as int].1 as int % 0x1_0000_0000);
        }
        // address
        let len = dtb.len();
        match write_be_u64(dtb, len, reserved[i].0) {
            Ok(()) => {},
            Err(e) => {
                return Err(DeviceTreeError::VecWriteError(e));
            },
        }
        // size
        let len = dtb.len();
        match write_be_u64(dtb, len, reserved[i].1) {
            Ok(()) => {},
            Err(e) => {
                return Err(DeviceTreeError::VecWriteError(e));
            },
        }
        assert(before + (u64_bytes(rest[0].0 as int) + u64_bytes(rest[0].1 as int)
            + reserved_bytes(rest.drop_first())) =~= dtb@ + reserved_bytes(rest.drop_first()));
        i += 1;
    }
    proof {
        lemma_u32_len(0);
    }
    let len = dtb.len();
    match write_be_u64(dtb, len, 0) {
        Ok(()) => {},
        Err(e) => {
            return Err(DeviceTreeError::VecWriteError(e));
        },
    }
    let len = dtb.len();
    match write_be_u64(dtb, len, 0) {
        Ok(()) => {},
        Err(e) => {
            return Err(DeviceTreeError::VecWriteError(e));
        },
    }
    assert(dtb@ =~= old(dtb)@ + reserved_bytes(reserved@));
    Ok(())
}

/// The header as it is first written: zeros where a size or an offset will stand.
pub open spec fn blank_header(boot_cpuid_phys: u32) -> HeaderModel {
    HeaderModel {
        total_size: 0,
        off_dt_struct: 0,
        off_dt_strings: 0,
        off_mem_rsvmap: 0,
        version: SUPPORTED_VERSION as int,
        last_comp_version: COMPAT_VERSION as int,
        boot_cpuid_phys: boot_cpuid_phys as int,
        size_dt_strings: 0,
        size_dt_struct: 0,
    }
}

/// Appends the word `v`, where the buffer ends at a multiple of four.
fn push_word(dtb: &mut Vec<u8>, v: u32) -> (r: Result<(), DeviceTreeError>)
    requires
        old(dtb)@.len() % 4 == 0,
    ensures
        r is Ok,
        final(dtb)@ == old(dtb)@ + u32_bytes(v as int),
{
    let len = dtb.len();
    match write_be_u32(dtb, len, v) {
        Ok(()) => Ok(()),
        Err(e) => Err(DeviceTreeError::VecWriteError(e)),
    }
}

/// Writes the header with zeros in the fields that are filled in later.
fn store_blank_header(dtb: &mut Vec<u8>, boot_cpuid_phys: u32) -> (r: Result<
    (),
    DeviceTreeError,
>)
    requires
        old(dtb)@.len() == 0,
    ensures
        r is Ok,
        final(dtb)@ == header_bytes(blank_header(boot_cpuid_phys)),
{
    proof {
        lemma_u32_len(MAGIC_NUMBER as int);
        lemma_u32_len(0);
        lemma_u32_len(SUPPORTED_VERSION as int);
        lemma_u32_len(COMPAT_VERSION as int);
        lemma_u32_len(boot_cpuid_phys as int);
    }
    // Magic
    push_word(dtb, MAGIC_NUMBER)?;
    push_word(dtb, 0)?;  // Fill in size later
    push_word(dtb, 0)?;  // Fill in off_dt_struct later
    push_word(dtb, 0)?;  // Fill in off_dt_strings later
    push_word(dtb, 0)?;  // Fill in off_mem_rsvmap later
    // Version
    push_word(dtb, SUPPORTED_VERSION)?;
    // Last comp version
    push_word(dtb, COMPAT_VERSION)?;
    // boot_cpuid_phys
    push_word(dtb, boot_cpuid_phys)?;
    push_word(dtb, 0)?;  // Fill in size_dt_strings later
    push_word(dtb, 0)?;  // Fill in size_dt_struct later
    assert(dtb@ =~= header_bytes(blank_header(boot_cpuid_phys)));
    Ok(())
}

impl DeviceTree {
    /// The image of this tree, with every property name written to the
    /// strings block as often as it comes.
    ///
    /// Fails with `SizeMismatch` where the image would be longer than its
    /// 32-bit size field can say.
    pub fn store(&self) -> (r: Result<Vec<u8>, DeviceTreeError>)
        ensures
            match image(self@, false) {
                Some(bytes) => r matches Ok(dtb) && dtb@ == bytes,
                None => r matches Err(DeviceTreeError::SizeMismatch),
            },
    {
        let mut strings = stringtable::StringTable::new();
        self.store_with(&mut strings)
    }

    /// The image of this tree, with every property name written to the
    /// strings block once.
    ///
    /// Fails with `SizeMismatch` where the image would be longer than its
    /// 32-bit size field can say.
    pub fn store_dedup(&self) -> (r: Result<Vec<u8>, DeviceTreeError>)
        ensures
            match image(self@, true) {
                Some(bytes) => r matches Ok(dtb) && dtb@ == bytes,
                None => r matches Err(DeviceTreeError::SizeMismatch),
            },
    {
        let mut strings = advancedstringtable::StringTable::new();
        self.store_with(&mut strings)
    }

    /// The image of this tree, with the strings block built by `strings`.
    fn store_with<T: NameTable>(&self, strings: &mut T) -> (r: Result<Vec<u8>, DeviceTreeError>)
        requires
            old(strings)@ == empty_table(old(strings)@.dedup),
        ensures
            match image(self@, old(strings)@.dedup) {
                Some(bytes) => r matches Ok(dtb) && dtb@ == bytes,
                None => r matches Err(DeviceTreeError::SizeMismatch),
            },
    {
        let ghost reserved = reserved_bytes(self.reserved@);
        let ghost front = HeaderModel {
            off_mem_rsvmap: HEADER_SIZE as int,
            ..blank_header(self.boot_cpuid_phys)
        };
        proof {
            lemma_reserved_len(self.reserved@);
            lemma_header_patch(front, Seq::empty(), 0);
        }
        let mut dtb = match store_front(&self.reserved, self.boot_cpuid_phys) {
            Ok(dtb) => dtb,
            Err(e) => {
                return Err(e);
            },
        };
        match store_structure(&self.root, &mut dtb, strings, Ghost(front), Ghost(reserved)) {
            Ok(()) => {},
            Err(e) => {
                return Err(e);
            },
        }
        let ghost root = node_bytes(
            HEADER_SIZE + reserved.len(),
            old(strings)@,
            self@.root,
        )->Some_0.0;
        let ghost structure = root + u32_bytes(OF_DT_END as int);
        let ghost middle = HeaderModel {
            off_dt_struct: HEADER_SIZE + reserved.len(),
            size_dt_struct: structure.len() as int,
            ..front
        };
        proof {
            lemma_node_end(HEADER_SIZE + reserved.len(), old(strings)@, self@.root);
            lemma_u32_len(OF_DT_END as int);
            lemma_header_patch(middle, Seq::empty(), 0);
        }
        match store_strings(&mut dtb, strings.bytes(), Ghost(middle), Ghost(reserved + structure)) {
            Ok(()) => {},
            Err(e) => {
                return Err(e);
            },
        }
        assert(dtb@ =~= image(self@, old(strings)@.dedup)->Some_0);
        Ok(dtb)
    }
}

/// Starts an image: the header, with the offset of the reserved memory
/// block filled in, and that block.
fn store_front(reserved: &Vec<(u64, u64)>, boot_cpuid_phys: u32) -> (r: Result<
    Vec<u8>,
    DeviceTreeError,
>)
    ensures
        r matches Ok(dtb) && dtb@ == header_bytes(
            HeaderModel { off_mem_rsvmap: HEADER_SIZE as int, ..blank_header(boot_cpuid_phys) },
        ) + reserved_bytes(reserved@),
{
    let mut dtb = Vec::new();
    let ghost blank = blank_header(boot_cpuid_phys);
    proof {
        lemma_header_patch(blank, Seq::empty(), HEADER_SIZE as int);
    }
    store_blank_header(&mut dtb, boot_cpuid_phys)?;
    // Memory Reservation Block
    pad(&mut dtb, 8)?;
    assert(dtb@ =~= header_bytes(blank) + Seq::<u8>::empty());
    let len = dtb.len();
    patch(&mut dtb, 16, len)?;
    let ghost front = HeaderModel { off_mem_rsvmap: HEADER_SIZE as int, ..blank };
    proof {
        lemma_header_patch(front, Seq::empty(), 0);
        assert(dtb@ =~= header_bytes(front));
    }
    store_reserved(reserved, &mut dtb)?;
    Ok(dtb)
}

/// Appends the structure block, the root node and the token that ends the
/// block, and fills in its offset and its size in the header `h`.
fn store_structure<T: NameTable>(
    root: &Node,
    dtb: &mut Vec<u8>,
    strings: &mut T,
    Ghost(h): Ghost<HeaderModel>,
    Ghost(rest): Ghost<Seq<u8>>,
) -> (r: Result<(), DeviceTreeError>)
    requires
        old(dtb)@ == header_bytes(h) + rest,
        old(dtb)@.len() % 4 == 0,
    ensures
        match node_bytes(old(dtb)@.len() as int, old(strings)@, root@) {
            Some((bytes, table)) => {
                if old(dtb)@.len() > u32::MAX || bytes.len() + 4 > u32::MAX {
                    r == Err::<(), DeviceTreeError>(DeviceTreeError::SizeMismatch)
                } else {
                    &&& r is Ok
                    &&& final(strings)@ == table
                    &&& final(dtb)@ == header_bytes(
                        HeaderModel {
                            off_dt_struct: old(dtb)@.len() as int,
                            size_dt_struct: (bytes.len() + 4) as int,
                            ..h
                        },
                    ) + (rest + (bytes + u32_bytes(OF_DT_END as int)))
                }
            },
            None => r == Err::<(), DeviceTreeError>(DeviceTreeError::SizeMismatch),
        },
{
    proof {
        lemma_header_patch(h, rest, 0);
        lemma_align(dtb@.len() as int, 4);
    }
    // Structure Block
    pad(dtb, 4)?;
    let structure_start = dtb.len();
    match patch(dtb, 8, structure_start) {
        Ok(()) => {},
        Err(e) => {
            return Err(e);
        },
    }
    let ghost h2 = HeaderModel { off_dt_struct: structure_start as int, ..h };
    proof {
        lemma_header_patch(h, rest, structure_start as int);
        lemma_header_patch(h2, rest, 0);
    }
    match root.store(dtb, strings) {
        Ok(()) => {},
        Err(e) => {
            return Err(e);
        },
    }
    let ghost bytes = node_bytes(structure_start as int, old(strings)@, root@)->Some_0.0;
    proof {
        lemma_node_end(structure_start as int, old(strings)@, root@);
        lemma_u32_len(OF_DT_END as int);
        lemma_align(dtb@.len() as int, 4);
    }
    pad(dtb, 4)?;
    push_word(dtb, OF_DT_END)?;
    let ghost structure = bytes + u32_bytes(OF_DT_END as int);
    assert(dtb@ =~= header_bytes(h2) + (rest + structure));
    let len = dtb.len();
    proof {
        lemma_header_patch(h2, rest + structure, structure.len() as int);
    }
    patch(dtb, 36, len - structure_start)
}

/// Appends the strings block, and fills in its size, its offset and the
/// size of the whole image in the header `h`.
fn store_strings(
    dtb: &mut Vec<u8>,
    strings: &[u8],
    Ghost(h): Ghost<HeaderModel>,
    Ghost(rest): Ghost<Seq<u8>>,
) -> (r: Result<(), DeviceTreeError>)
    requires
        old(dtb)@ == header_bytes(h) + rest,
        old(dtb)@.len() % 4 == 0,
    ensures
        if old(dtb)@.len() + strings@.len() > u32::MAX {
            r == Err::<(), DeviceTreeError>(DeviceTreeError::SizeMismatch)
        } else {
            &&& r is Ok
            &&& final(dtb)@ == header_bytes(
                HeaderModel {
                    total_size: (old(dtb)@.len() + strings@.len()) as int,
                    off_dt_strings: old(dtb)@.len() as int,
                    size_dt_strings: strings@.len() as int,
                    ..h
                },
            ) + (rest + strings@)
        },
{
    proof {
        lemma_header_patch(h, rest, strings@.len() as int);
        lemma_align(dtb@.len() as int, 4);
    }
    match patch(dtb, 32, strings.len()) {
        Ok(()) => {},
        Err(e) => {
            return Err(e);
        },
    }
    let ghost h2 = HeaderModel { size_dt_strings: strings@.len() as int, ..h };
    // Strings Block
    pad(dtb, 4)?;
    let len = dtb.len();
    proof {
        lemma_header_patch(h2, rest, len as int);
    }
    match patch(dtb, 12, len) {
        Ok(()) => {},
        Err(e) => {
            return Err(e);
        },
    }
    let ghost h3 = HeaderModel { off_dt_strings: len as int, ..h2 };
    extend_from_slice(dtb, strings);
    assert(dtb@ =~= header_bytes(h3) + (rest + strings@));
    let len = dtb.len();
    proof {
        lemma_header_patch(h3, rest + strings@, 0);
        lemma_header_patch(h3, rest + strings@, len as int);
    }
    patch(dtb, 4, len)
}

/// The record of a node ends at a multiple of four.
pub proof fn lemma_node_end(at: int, table: TableModel, node: NodeModel)
    requires
        0 <= at,
    ensures
        node_bytes(at, table, node) matches Some((bytes, _)) ==> (at + bytes.len()) % 4 == 0,
{
    if let Some((bytes, _)) = node_bytes(at, table, node) {
        let head = gap(at, 4) + u32_bytes(OF_DT_BEGIN_NODE as int) + encode_utf8(node.name)
            + seq![0u8];
        let props = props_bytes(at + head.len(), table, node.props)->Some_0;
        let children = nodes_bytes(at + head.len() + props.0.len(), props.1, node.children)->Some_0;
        let body = at + head.len() + props.0.len() + children.0.len();
        lemma_align(body, 4);
        lemma_u32_len(OF_DT_END_NODE as int);
    }
}

} // verus!
