//! What holds between the two directions of the codec: an image that was
//! written reads back as the tree it was written from.

use vstd::prelude::*;
use vstd::utf8::*;

use crate::error::{DeviceTreeError, SliceReadError};
use crate::format::{
    dword_at, lemma_parse_props_advances, name_at, parse_children, parse_image, parse_node,
    parse_prop, parse_props, parse_reserved, room, word_at, COMPAT_VERSION, MAGIC_NUMBER, OF_DT_BEGIN_NODE, OF_DT_END,
    OF_DT_END_NODE, OF_DT_PROP, SUPPORTED_VERSION,
};
use crate::layout::{
    gap, header_bytes, image, node_bytes, nodes_bytes, prop_bytes, props_bytes, reserved_bytes,
    HeaderModel, HEADER_SIZE,
};
use crate::model::{DeviceTreeModel, NodeModel};
use crate::serializer::{lemma_header_patch, lemma_reserved_len};
use crate::stringtable::{empty_table, table_add, TableModel};
use crate::text::{lacks, lemma_encode_split, lemma_encode_without};
use crate::util::{
    first_of, lemma_align, lemma_be_u32_at, lemma_be_u64_at, lemma_first_of,
    lemma_first_of_is, lemma_u32_len, spec_align, spec_read_bstring0, u32_bytes, u64_bytes,
    zero_from,
};

verus! {

/// Whether the bytes `piece` stand in `b` at `at`.
pub open spec fn holds(b: Seq<u8>, at: int, piece: Seq<u8>) -> bool {
    &&& 0 <= at
    &&& at + piece.len() <= b.len()
    &&& b.subrange(at, at + piece.len()) == piece
}

/// Where two pieces stand one after the other, each of them stands.
pub proof fn lemma_holds_split(b: Seq<u8>, at: int, x: Seq<u8>, y: Seq<u8>)
    requires
        holds(b, at, x + y),
    ensures
        holds(b, at, x),
        holds(b, at + x.len(), y),
{
    let whole = b.subrange(at, at + (x + y).len());
    assert(b.subrange(at, at + x.len()) =~= whole.subrange(0, x.len() as int));
    assert(whole.subrange(0, x.len() as int) =~= x);
    assert(b.subrange(at + x.len(), at + x.len() + y.len()) =~= whole.subrange(
        x.len() as int,
        (x + y).len() as int,
    ));
    assert(whole.subrange(x.len() as int, (x + y).len() as int) =~= y);
}

/// Where the bytes of a word stand, the word is read.
pub proof fn lemma_word_at(b: Seq<u8>, at: int, v: int)
    requires
        0 <= v <= u32::MAX,
        holds(b, at, u32_bytes(v)),
    ensures
        word_at(b, at) == Ok::<u32, DeviceTreeError>(v as u32),
{
    lemma_u32_len(v);
    lemma_be_u32_at(b, at, v);
}

/// Whether no name in the tree under `node` holds the character zero.
pub open spec fn names_clean(node: NodeModel) -> bool
    decreases node,
{
    &&& lacks(node.name, '\0')
    &&& forall|i: int| 0 <= i < node.props.len() ==> lacks(#[trigger] node.props[i].0, '\0')
    &&& forall|i: int|
        0 <= i < node.children.len() ==> names_clean(#[trigger] node.children[i])
}

/// Whether a table is in order: the offset it remembers for a name is
/// one at which the name stands in its buffer, with a zero byte behind it.
pub open spec fn table_wf(t: TableModel) -> bool {
    forall|name: Seq<char>| #[trigger]
        t.index.contains_key(name) ==> holds(
            t.buffer,
            t.index[name] as int,
            encode_utf8(name) + seq![0u8],
        )
}

/// Whether the buffer of `later` starts with the buffer of `earlier`.
pub open spec fn extends(later: TableModel, earlier: TableModel) -> bool {
    holds(later.buffer, 0, earlier.buffer)
}

/// A table in order stays in order when a name is added, keeps what it
/// held, and holds the name at the offset it gives.
pub proof fn lemma_table_add(t: TableModel, s: Seq<char>)
    requires
        table_wf(t),
        t.buffer.len() <= u32::MAX,
    ensures
        table_wf(table_add(t, s).0),
        extends(table_add(t, s).0, t),
        table_add(t, s).0.dedup == t.dedup,
        holds(table_add(t, s).0.buffer, table_add(t, s).1 as int, encode_utf8(s) + seq![0u8]),
{
    let (t2, off) = table_add(t, s);
    let piece = encode_utf8(s) + seq![0u8];
    if t.dedup && t.index.contains_key(s) {
        assert(t.buffer.subrange(0, t.buffer.len() as int) =~= t.buffer);
    } else {
        assert(t2.buffer =~= t.buffer + piece);
        assert(t2.buffer.subrange(0, t.buffer.len() as int) =~= t.buffer);
        assert(t2.buffer.subrange(off as int, off + piece.len()) =~= piece);
        assert forall|name: Seq<char>| #[trigger]
            t2.index.contains_key(name) implies holds(
            t2.buffer,
            t2.index[name] as int,
            encode_utf8(name) + seq![0u8],
        ) by {
            if name != s || !t.dedup {
                let p = encode_utf8(name) + seq![0u8];
                let o = t.index[name] as int;
                assert(t2.buffer.subrange(o, o + p.len()) =~= t.buffer.subrange(o, o + p.len()));
            }
        }
    }
}

/// What a later table holds at the start of its buffer, an earlier one
/// held there too.
pub proof fn lemma_extends(c: TableModel, b: TableModel, a: TableModel)
    requires
        extends(c, b),
        extends(b, a),
    ensures
        extends(c, a),
{
    assert(c.buffer.subrange(0, a.buffer.len() as int) =~= b.buffer.subrange(
        0,
        a.buffer.len() as int,
    ));
}

/// Where a name without the character zero stands with a zero byte
/// behind it, the name is read.
pub proof fn lemma_name_at(b: Seq<u8>, at: int, name: Seq<char>)
    requires
        lacks(name, '\0'),
        holds(b, at, encode_utf8(name) + seq![0u8]),
    ensures
        name_at(b, at) == Ok::<Seq<char>, DeviceTreeError>(name),
        zero_from(b, at) == at + encode_utf8(name).len(),
{
    let raw = encode_utf8(name);
    lemma_encode_without(name, '\0', 0u8);
    lemma_holds_split(b, at, raw, seq![0u8]);
    let end = at + raw.len();
    assert(b[end] == b.subrange(end, end + 1)[0]);
    assert forall|i: int| at <= i < end implies b[i] != 0u8 by {
        assert(b[i] == b.subrange(at, end)[i - at]);
    }
    lemma_first_of_is(b, 0u8, at, end);
    encode_utf8_valid_utf8(name);
    encode_utf8_decode_utf8(name);
}

/// What stands in a piece stands in whatever the piece stands in.
pub proof fn lemma_holds_in(b: Seq<u8>, at: int, whole: Seq<u8>, off: int, piece: Seq<u8>)
    requires
        holds(b, at, whole),
        holds(whole, off, piece),
    ensures
        holds(b, at + off, piece),
{
    assert(b.subrange(at + off, at + off + piece.len()) =~= b.subrange(
        at,
        at + whole.len(),
    ).subrange(off, off + piece.len()));
}

/// The record of a property reads back as the property.
pub proof fn lemma_read_prop(
    b: Seq<u8>,
    strings: int,
    at: int,
    table: TableModel,
    prop: (Seq<char>, Seq<u8>),
    last: TableModel,
)
    requires
        0 <= at,
        prop_bytes(at, table, prop) is Some,
        holds(b, at, prop_bytes(at, table, prop)->Some_0.0),
        extends(last, prop_bytes(at, table, prop)->Some_0.1),
        holds(b, strings, last.buffer),
        table_wf(table),
        lacks(prop.0, '\0'),
    ensures
        word_at(b, spec_align(at, 4)) == Ok::<u32, DeviceTreeError>(OF_DT_PROP),
        parse_prop(b, spec_align(at, 4), strings) == Ok::<
            (int, (Seq<char>, Seq<u8>)),
            DeviceTreeError,
        >((spec_align(at + prop_bytes(at, table, prop)->Some_0.0.len(), 4), prop)),
        table_wf(prop_bytes(at, table, prop)->Some_0.1),
        extends(prop_bytes(at, table, prop)->Some_0.1, table),
        prop_bytes(at, table, prop)->Some_0.1.dedup == table.dedup,
{
    let (bytes, t2) = prop_bytes(at, table, prop)->Some_0;
    let off = table_add(table, prop.0).1;
    let pos = spec_align(at, 4);
    lemma_align(at, 4);
    lemma_table_add(table, prop.0);
    lemma_u32_len(OF_DT_PROP as int);
    lemma_u32_len(prop.1.len() as int);
    lemma_u32_len(off as int);
    let token = u32_bytes(OF_DT_PROP as int);
    let size = u32_bytes(prop.1.len() as int);
    let name = u32_bytes(off as int);
    assert(bytes == gap(at, 4) + token + size + name + prop.1);
    lemma_holds_split(b, at, gap(at, 4) + token + size + name, prop.1);
    lemma_holds_split(b, at, gap(at, 4) + token + size, name);
    lemma_holds_split(b, at, gap(at, 4) + token, size);
    lemma_holds_split(b, at, gap(at, 4), token);
    lemma_word_at(b, pos, OF_DT_PROP as int);
    lemma_word_at(b, pos + 4, prop.1.len() as int);
    lemma_word_at(b, pos + 8, off as int);
    let piece = encode_utf8(prop.0) + seq![0u8];
    lemma_holds_in(last.buffer, 0, t2.buffer, off as int, piece);
    lemma_holds_in(b, strings, last.buffer, off as int, piece);
    lemma_name_at(b, strings + off, prop.0);
}

/// Writing properties keeps a table in order and keeps what it held.
pub proof fn lemma_props_table(at: int, table: TableModel, props: Seq<(Seq<char>, Seq<u8>)>)
    requires
        table_wf(table),
        props_bytes(at, table, props) is Some,
    ensures
        table_wf(props_bytes(at, table, props)->Some_0.1),
        extends(props_bytes(at, table, props)->Some_0.1, table),
        props_bytes(at, table, props)->Some_0.1.dedup == table.dedup,
    decreases props.len(),
{
    if props.len() == 0 {
        assert(table.buffer.subrange(0, table.buffer.len() as int) =~= table.buffer);
    } else {
        let (first, t1) = prop_bytes(at, table, props[0])->Some_0;
        lemma_table_add(table, props[0].0);
        lemma_props_table(at + first.len(), t1, props.drop_first());
        let t2 = props_bytes(at + first.len(), t1, props.drop_first())->Some_0.1;
        lemma_extends(t2, t1, table);
    }
}

/// Writing a node keeps a table in order and keeps what it held.
pub proof fn lemma_node_table(at: int, table: TableModel, node: NodeModel)
    requires
        table_wf(table),
        node_bytes(at, table, node) is Some,
    ensures
        table_wf(node_bytes(at, table, node)->Some_0.1),
        extends(node_bytes(at, table, node)->Some_0.1, table),
        node_bytes(at, table, node)->Some_0.1.dedup == table.dedup,
    decreases node, 1int,
{
    let head = gap(at, 4) + u32_bytes(OF_DT_BEGIN_NODE as int) + encode_utf8(node.name)
        + seq![0u8];
    let (props, t1) = props_bytes(at + head.len(), table, node.props)->Some_0;
    lemma_props_table(at + head.len(), table, node.props);
    lemma_nodes_table(at + head.len() + props.len(), t1, node.children);
    let t2 = nodes_bytes(at + head.len() + props.len(), t1, node.children)->Some_0.1;
    lemma_extends(t2, t1, table);
}

/// Writing nodes keeps a table in order and keeps what it held.
pub proof fn lemma_nodes_table(at: int, table: TableModel, nodes: Seq<NodeModel>)
    requires
        table_wf(table),
        nodes_bytes(at, table, nodes) is Some,
    ensures
        table_wf(nodes_bytes(at, table, nodes)->Some_0.1),
        extends(nodes_bytes(at, table, nodes)->Some_0.1, table),
        nodes_bytes(at, table, nodes)->Some_0.1.dedup == table.dedup,
    decreases nodes, 0int,
{
    if nodes.len() == 0 {
        assert(table.buffer.subrange(0, table.buffer.len() as int) =~= table.buffer);
    } else {
        let (first, t1) = node_bytes(at, table, nodes[0])->Some_0;
        lemma_node_table(at, table, nodes[0]);
        lemma_nodes_table(at + first.len(), t1, nodes.drop_first());
        let t2 = nodes_bytes(at + first.len(), t1, nodes.drop_first())->Some_0.1;
        lemma_extends(t2, t1, table);
    }
}

/// The records of properties read back as the properties, where a word
/// that is not the token of a property follows them.
pub proof fn lemma_read_props(
    b: Seq<u8>,
    strings: int,
    at: int,
    table: TableModel,
    props: Seq<(Seq<char>, Seq<u8>)>,
    last: TableModel,
)
    requires
        0 <= at,
        props_bytes(at, table, props) is Some,
        holds(b, at, props_bytes(at, table, props)->Some_0.0),
        extends(last, props_bytes(at, table, props)->Some_0.1),
        holds(b, strings, last.buffer),
        table_wf(table),
        forall|i: int| 0 <= i < props.len() ==> lacks(#[trigger] props[i].0, '\0'),
        word_at(b, spec_align(at + props_bytes(at, table, props)->Some_0.0.len(), 4)) is Ok,
        word_at(b, spec_align(at + props_bytes(at, table, props)->Some_0.0.len(), 4))
            != Ok::<u32, DeviceTreeError>(OF_DT_PROP),
    ensures
        parse_props(b, spec_align(at, 4), strings) == Ok::<
            (int, Seq<(Seq<char>, Seq<u8>)>),
            DeviceTreeError,
        >((spec_align(at + props_bytes(at, table, props)->Some_0.0.len(), 4), props)),
    decreases props.len(),
{
    if props.len() == 0 {
        assert(props =~= Seq::empty());
    } else {
        let (first, t1) = prop_bytes(at, table, props[0])->Some_0;
        let tail = props.drop_first();
        let (rest, t2) = props_bytes(at + first.len(), t1, tail)->Some_0;
        lemma_table_add(table, props[0].0);
        lemma_props_table(at + first.len(), t1, tail);
        lemma_extends(last, t2, t1);
        lemma_holds_split(b, at, first, rest);
        lemma_read_prop(b, strings, at, table, props[0], last);
        assert forall|i: int| 0 <= i < tail.len() implies lacks(#[trigger] tail[i].0, '\0') by {
            assert(tail[i] == props[i + 1]);
        }
        lemma_read_props(b, strings, at + first.len(), t1, tail, last);
        assert(seq![props[0]] + tail =~= props);
    }
}

/// The record of a node starts with the token that opens a node, at the
/// next multiple of four.
pub proof fn lemma_first_token(b: Seq<u8>, at: int, table: TableModel, node: NodeModel)
    requires
        0 <= at,
        node_bytes(at, table, node) is Some,
        holds(b, at, node_bytes(at, table, node)->Some_0.0),
    ensures
        word_at(b, spec_align(at, 4)) == Ok::<u32, DeviceTreeError>(OF_DT_BEGIN_NODE),
{
    let bytes = node_bytes(at, table, node)->Some_0.0;
    let token = u32_bytes(OF_DT_BEGIN_NODE as int);
    lemma_align(at, 4);
    lemma_u32_len(OF_DT_BEGIN_NODE as int);
    let after = bytes.subrange((gap(at, 4) + token).len() as int, bytes.len() as int);
    assert(bytes =~= gap(at, 4) + token + after);
    lemma_holds_split(b, at, gap(at, 4) + token, after);
    lemma_holds_split(b, at, gap(at, 4), token);
    lemma_word_at(b, spec_align(at, 4), OF_DT_BEGIN_NODE as int);
}

/// The record of a node reads back as the node.
pub proof fn lemma_read_node(
    b: Seq<u8>,
    strings: int,
    at: int,
    table: TableModel,
    node: NodeModel,
    last: TableModel,
)
    requires
        0 <= at,
        node_bytes(at, table, node) is Some,
        holds(b, at, node_bytes(at, table, node)->Some_0.0),
        extends(last, node_bytes(at, table, node)->Some_0.1),
        holds(b, strings, last.buffer),
        table_wf(table),
        names_clean(node),
    ensures
        parse_node(b, spec_align(at, 4), strings) == Ok::<(int, NodeModel), DeviceTreeError>(
            (at + node_bytes(at, table, node)->Some_0.0.len(), node),
        ),
        (at + node_bytes(at, table, node)->Some_0.0.len()) % 4 == 0,
    decreases node, 1int,
{
    let (bytes, t2) = node_bytes(at, table, node)->Some_0;
    let token = u32_bytes(OF_DT_BEGIN_NODE as int);
    let name = encode_utf8(node.name) + seq![0u8];
    let head = gap(at, 4) + token + encode_utf8(node.name) + seq![0u8];
    let (props, t1) = props_bytes(at + head.len(), table, node.props)->Some_0;
    let body = at + head.len() + props.len();
    let (children, t_children) = nodes_bytes(body, t1, node.children)->Some_0;
    let closing = u32_bytes(OF_DT_END_NODE as int);
    let end = spec_align(body + children.len(), 4);
    let start = spec_align(at, 4);
    lemma_align(at, 4);
    lemma_align(at + head.len(), 4);
    lemma_align(body, 4);
    lemma_align(body + children.len(), 4);
    lemma_u32_len(OF_DT_BEGIN_NODE as int);
    lemma_u32_len(OF_DT_END_NODE as int);
    lemma_props_table(at + head.len(), table, node.props);
    lemma_nodes_table(body, t1, node.children);
    lemma_extends(last, t2, t1);

    // the pieces of the record, each where it stands
    let tail = gap(body + children.len(), 4) + closing;
    assert(bytes == head + props + children + gap(body + children.len(), 4) + closing);
    assert(bytes =~= head + props + children + tail);
    assert(head =~= gap(at, 4) + token + name);
    lemma_holds_split(b, at, head + props + children, tail);
    lemma_holds_split(b, at, head + props, children);
    lemma_holds_split(b, at, head, props);
    lemma_holds_split(b, at, gap(at, 4) + token, name);
    lemma_holds_split(b, at, gap(at, 4), token);
    lemma_holds_split(b, body + children.len(), gap(body + children.len(), 4), closing);

    // the opening token and the name
    lemma_word_at(b, start, OF_DT_BEGIN_NODE as int);
    lemma_name_at(b, start + 4, node.name);
    lemma_word_at(b, end, OF_DT_END_NODE as int);

    // the properties, and the word that follows them
    if node.children.len() > 0 {
        let first = node_bytes(body, t1, node.children[0])->Some_0.0;
        let rest = nodes_bytes(
            body + first.len(),
            node_bytes(body, t1, node.children[0])->Some_0.1,
            node.children.drop_first(),
        )->Some_0.0;
        lemma_holds_split(b, body, first, rest);
        lemma_first_token(b, body, t1, node.children[0]);
    }
    lemma_read_props(b, strings, at + head.len(), table, node.props, last);

    // the children
    lemma_read_nodes(b, strings, body, t1, node.children, last);
}

/// The records of nodes read back as the nodes, where a word that is not
/// the token that opens a node follows them.
pub proof fn lemma_read_nodes(
    b: Seq<u8>,
    strings: int,
    at: int,
    table: TableModel,
    nodes: Seq<NodeModel>,
    last: TableModel,
)
    requires
        0 <= at,
        nodes_bytes(at, table, nodes) is Some,
        holds(b, at, nodes_bytes(at, table, nodes)->Some_0.0),
        extends(last, nodes_bytes(at, table, nodes)->Some_0.1),
        holds(b, strings, last.buffer),
        table_wf(table),
        forall|i: int| 0 <= i < nodes.len() ==> names_clean(#[trigger] nodes[i]),
        word_at(b, spec_align(at + nodes_bytes(at, table, nodes)->Some_0.0.len(), 4)) is Ok,
        word_at(b, spec_align(at + nodes_bytes(at, table, nodes)->Some_0.0.len(), 4))
            != Ok::<u32, DeviceTreeError>(OF_DT_BEGIN_NODE),
    ensures
        parse_children(b, spec_align(at, 4), strings) == Ok::<
            (int, Seq<NodeModel>),
            DeviceTreeError,
        >((spec_align(at + nodes_bytes(at, table, nodes)->Some_0.0.len(), 4), nodes)),
    decreases nodes, 0int,
{
    if nodes.len() == 0 {
        assert(nodes =~= Seq::empty());
    } else {
        let (first, t1) = node_bytes(at, table, nodes[0])->Some_0;
        let tail = nodes.drop_first();
        let (rest, t2) = nodes_bytes(at + first.len(), t1, tail)->Some_0;
        lemma_node_table(at, table, nodes[0]);
        lemma_nodes_table(at + first.len(), t1, tail);
        lemma_extends(last, t2, t1);
        lemma_holds_split(b, at, first, rest);
        lemma_first_token(b, at, table, nodes[0]);
        lemma_read_node(b, strings, at, table, nodes[0], last);
        lemma_align(at, 4);
        lemma_align(at + first.len(), 4);
        assert forall|i: int| 0 <= i < tail.len() implies names_clean(#[trigger] tail[i]) by {
            assert(tail[i] == nodes[i + 1]);
        }
        lemma_read_nodes(b, strings, at + first.len(), t1, tail, last);
        assert(seq![nodes[0]] + tail =~= nodes);
    }
}

/// Whether every field of a header fits its word.
pub open spec fn header_fits(h: HeaderModel) -> bool {
    &&& 0 <= h.total_size <= u32::MAX
    &&& 0 <= h.off_dt_struct <= u32::MAX
    &&& 0 <= h.off_dt_strings <= u32::MAX
    &&& 0 <= h.off_mem_rsvmap <= u32::MAX
    &&& 0 <= h.version <= u32::MAX
    &&& 0 <= h.last_comp_version <= u32::MAX
    &&& 0 <= h.boot_cpuid_phys <= u32::MAX
    &&& 0 <= h.size_dt_strings <= u32::MAX
    &&& 0 <= h.size_dt_struct <= u32::MAX
}

/// The words of a header read back as its fields.
pub proof fn lemma_read_header(b: Seq<u8>, h: HeaderModel)
    requires
        header_fits(h),
        holds(b, 0, header_bytes(h)),
    ensures
        word_at(b, 0) == Ok::<u32, DeviceTreeError>(MAGIC_NUMBER),
        word_at(b, 4) == Ok::<u32, DeviceTreeError>(h.total_size as u32),
        word_at(b, 8) == Ok::<u32, DeviceTreeError>(h.off_dt_struct as u32),
        word_at(b, 12) == Ok::<u32, DeviceTreeError>(h.off_dt_strings as u32),
        word_at(b, 16) == Ok::<u32, DeviceTreeError>(h.off_mem_rsvmap as u32),
        word_at(b, 20) == Ok::<u32, DeviceTreeError>(h.version as u32),
        word_at(b, 24) == Ok::<u32, DeviceTreeError>(h.last_comp_version as u32),
        word_at(b, 28) == Ok::<u32, DeviceTreeError>(h.boot_cpuid_phys as u32),
        word_at(b, 32) == Ok::<u32, DeviceTreeError>(h.size_dt_strings as u32),
        word_at(b, 36) == Ok::<u32, DeviceTreeError>(h.size_dt_struct as u32),
{
    let w0 = u32_bytes(MAGIC_NUMBER as int);
    let w1 = u32_bytes(h.total_size);
    let w2 = u32_bytes(h.off_dt_struct);
    let w3 = u32_bytes(h.off_dt_strings);
    let w4 = u32_bytes(h.off_mem_rsvmap);
    let w5 = u32_bytes(h.version);
    let w6 = u32_bytes(h.last_comp_version);
    let w7 = u32_bytes(h.boot_cpuid_phys);
    let w8 = u32_bytes(h.size_dt_strings);
    let w9 = u32_bytes(h.size_dt_struct);
    lemma_u32_len(MAGIC_NUMBER as int);
    lemma_u32_len(h.total_size);
    lemma_u32_len(h.off_dt_struct);
    lemma_u32_len(h.off_dt_strings);
    lemma_u32_len(h.off_mem_rsvmap);
    lemma_u32_len(h.version);
    lemma_u32_len(h.last_comp_version);
    lemma_u32_len(h.boot_cpuid_phys);
    lemma_u32_len(h.size_dt_strings);
    lemma_u32_len(h.size_dt_struct);
    lemma_holds_split(b, 0, w0 + w1 + w2 + w3 + w4 + w5 + w6 + w7 + w8, w9);
    lemma_holds_split(b, 0, w0 + w1 + w2 + w3 + w4 + w5 + w6 + w7, w8);
    lemma_holds_split(b, 0, w0 + w1 + w2 + w3 + w4 + w5 + w6, w7);
    lemma_holds_split(b, 0, w0 + w1 + w2 + w3 + w4 + w5, w6);
    lemma_holds_split(b, 0, w0 + w1 + w2 + w3 + w4, w5);
    lemma_holds_split(b, 0, w0 + w1 + w2 + w3, w4);
    lemma_holds_split(b, 0, w0 + w1 + w2, w3);
    lemma_holds_split(b, 0, w0 + w1, w2);
    lemma_holds_split(b, 0, w0, w1);
    lemma_word_at(b, 0, MAGIC_NUMBER as int);
    lemma_word_at(b, 4, h.total_size);
    lemma_word_at(b, 8, h.off_dt_struct);
    lemma_word_at(b, 12, h.off_dt_strings);
    lemma_word_at(b, 16, h.off_mem_rsvmap);
    lemma_word_at(b, 20, h.version);
    lemma_word_at(b, 24, h.last_comp_version);
    lemma_word_at(b, 28, h.boot_cpuid_phys);
    lemma_word_at(b, 32, h.size_dt_strings);
    lemma_word_at(b, 36, h.size_dt_struct);
}

/// Where the bytes of a double word stand, the double word is read.
pub proof fn lemma_dword_at(b: Seq<u8>, at: int, v: int)
    requires
        0 <= v <= u64::MAX,
        holds(b, at, u64_bytes(v)),
    ensures
        dword_at(b, at) == Ok::<u64, DeviceTreeError>(v as u64),
{
    lemma_u32_len(v / 0x1_0000_0000);
    lemma_u32_len(v % 0x1_0000_0000);
    lemma_be_u64_at(b, at, v);
}

/// Whether no region of the list has the size zero.
pub open spec fn sizes_nonzero(reserved: Seq<(u64, u64)>) -> bool {
    forall|i: int| 0 <= i < reserved.len() ==> (#[trigger] reserved[i]).1 != 0
}

/// The reserved memory block reads back as the list of regions, where
/// no region has the size zero.
pub proof fn lemma_read_reserved(b: Seq<u8>, at: int, reserved: Seq<(u64, u64)>)
    requires
        holds(b, at, reserved_bytes(reserved)),
        sizes_nonzero(reserved),
    ensures
        parse_reserved(b, at) == Ok::<Seq<(u64, u64)>, DeviceTreeError>(reserved),
    decreases reserved.len(),
{
    lemma_u32_len(0);
    if reserved.len() == 0 {
        lemma_holds_split(b, at, u64_bytes(0), u64_bytes(0));
        lemma_dword_at(b, at, 0);
        lemma_dword_at(b, at + 8, 0);
        assert(reserved =~= Seq::empty());
    } else {
        let (address, size) = reserved[0];
        let tail = reserved.drop_first();
        lemma_u32_len(address as int / 0x1_0000_0000);
        lemma_u32_len(address as int % 0x1_0000_0000);
        lemma_u32_len(size as int / 0x1_0000_0000);
        lemma_u32_len(size as int % 0x1_0000_0000);
        lemma_holds_split(
            b,
            at,
            u64_bytes(address as int) + u64_bytes(size as int),
            reserved_bytes(tail),
        );
        lemma_holds_split(b, at, u64_bytes(address as int), u64_bytes(size as int));
        lemma_dword_at(b, at, address as int);
        lemma_dword_at(b, at + 8, size as int);
        assert forall|i: int| 0 <= i < tail.len() implies (#[trigger] tail[i]).1 != 0 by {
            assert(tail[i] == reserved[i + 1]);
        }
        lemma_read_reserved(b, at + 16, tail);
        assert(seq![(address, size)] + tail =~= reserved);
    }
}

/// The header of the image of `tree`.
pub open spec fn image_header(tree: DeviceTreeModel, dedup: bool) -> HeaderModel {
    let reserved = reserved_bytes(tree.reserved);
    let off_dt_struct = HEADER_SIZE + reserved.len();
    let (root, table) = node_bytes(off_dt_struct, empty_table(dedup), tree.root)->Some_0;
    let off_dt_strings = off_dt_struct + root.len() + 4;
    HeaderModel {
        total_size: off_dt_strings + table.buffer.len(),
        off_dt_struct,
        off_dt_strings,
        off_mem_rsvmap: HEADER_SIZE as int,
        version: SUPPORTED_VERSION as int,
        last_comp_version: COMPAT_VERSION as int,
        boot_cpuid_phys: tree.boot_cpuid_phys as int,
        size_dt_strings: table.buffer.len() as int,
        size_dt_struct: (root.len() + 4) as int,
    }
}

/// Whether `b` is laid out as the image of `tree`: whether the header,
/// the reserved memory block, the record of the root and the strings
/// block stand in it where the header says.
pub open spec fn laid_out(b: Seq<u8>, tree: DeviceTreeModel, dedup: bool) -> bool {
    let h = image_header(tree, dedup);
    let piece = node_bytes(h.off_dt_struct, empty_table(dedup), tree.root);
    &&& piece is Some
    &&& header_fits(h)
    &&& b.len() == h.total_size
    &&& h.off_dt_struct % 4 == 0
    &&& holds(b, 0, header_bytes(h))
    &&& holds(b, HEADER_SIZE as int, reserved_bytes(tree.reserved))
    &&& holds(b, h.off_dt_struct, piece->Some_0.0)
    &&& holds(b, h.off_dt_strings, piece->Some_0.1.buffer)
}

/// The image of a tree is laid out as its image.
pub proof fn lemma_image_layout(tree: DeviceTreeModel, dedup: bool)
    requires
        image(tree, dedup) is Some,
    ensures
        laid_out(image(tree, dedup)->Some_0, tree, dedup),
{
    let b = image(tree, dedup)->Some_0;
    let h = image_header(tree, dedup);
    let reserved = reserved_bytes(tree.reserved);
    let (root, table) = node_bytes(h.off_dt_struct, empty_table(dedup), tree.root)->Some_0;
    let structure = root + u32_bytes(OF_DT_END as int);
    lemma_header_patch(h, Seq::empty(), 0);
    lemma_reserved_len(tree.reserved);
    lemma_u32_len(OF_DT_END as int);
    assert(b == header_bytes(h) + reserved + structure + table.buffer);
    assert(b.subrange(0, b.len() as int) =~= b);
    lemma_holds_split(b, 0, header_bytes(h) + reserved + structure, table.buffer);
    lemma_holds_split(b, 0, header_bytes(h) + reserved, structure);
    lemma_holds_split(b, 0, header_bytes(h), reserved);
    lemma_holds_split(b, h.off_dt_struct, root, u32_bytes(OF_DT_END as int));
}

/// An image whose header is in order, whose reserved memory block reads
/// as the regions of `tree` and whose structure block reads as its root,
/// reads as `tree`.
pub proof fn lemma_read_image(
    b: Seq<u8>,
    tree: DeviceTreeModel,
    off_dt_struct: u32,
    off_dt_strings: u32,
    off_mem_rsvmap: u32,
    end: int,
)
    requires
        word_at(b, 0) == Ok::<u32, DeviceTreeError>(MAGIC_NUMBER),
        word_at(b, 4) matches Ok(size) && size == b.len(),
        word_at(b, 8) == Ok::<u32, DeviceTreeError>(off_dt_struct),
        word_at(b, 12) == Ok::<u32, DeviceTreeError>(off_dt_strings),
        word_at(b, 16) == Ok::<u32, DeviceTreeError>(off_mem_rsvmap),
        word_at(b, 20) == Ok::<u32, DeviceTreeError>(tree.version),
        word_at(b, 28) == Ok::<u32, DeviceTreeError>(tree.boot_cpuid_phys),
        tree.version == SUPPORTED_VERSION,
        parse_reserved(b, off_mem_rsvmap as int) == Ok::<Seq<(u64, u64)>, DeviceTreeError>(
            tree.reserved,
        ),
        parse_node(b, off_dt_struct as int, off_dt_strings as int) == Ok::<
            (int, NodeModel),
            DeviceTreeError,
        >((end, tree.root)),
    ensures
        parse_image(b) == Ok::<DeviceTreeModel, DeviceTreeError>(tree),
{
}

/// What is laid out as the image of a tree reads as the tree, where an
/// image can spell the tree.
pub proof fn lemma_read_laid_out(b: Seq<u8>, tree: DeviceTreeModel, dedup: bool)
    requires
        laid_out(b, tree, dedup),
        tree.version == SUPPORTED_VERSION,
        sizes_nonzero(tree.reserved),
        names_clean(tree.root),
    ensures
        parse_image(b) == Ok::<DeviceTreeModel, DeviceTreeError>(tree),
{
    let h = image_header(tree, dedup);
    let (root, table) = node_bytes(h.off_dt_struct, empty_table(dedup), tree.root)->Some_0;
    lemma_read_header(b, h);
    lemma_read_reserved(b, HEADER_SIZE as int, tree.reserved);
    assert(extends(table, table)) by {
        assert(table.buffer.subrange(0, table.buffer.len() as int) =~= table.buffer);
    }
    assert(spec_align(h.off_dt_struct, 4) == h.off_dt_struct);
    lemma_read_node(b, h.off_dt_strings, h.off_dt_struct, empty_table(dedup), tree.root, table);
    lemma_read_image(
        b,
        tree,
        h.off_dt_struct as u32,
        h.off_dt_strings as u32,
        h.off_mem_rsvmap as u32,
        h.off_dt_struct + root.len(),
    );
}

/// An image that was written reads back as the tree it was written from.
///
/// This holds of every tree that has an image and that an image can
/// spell: its version is the supported one, no reserved region has the
/// size zero, which would end the list, and no name holds the character
/// zero, which would end the name. It holds with either table of names.
pub proof fn lemma_load_store(tree: DeviceTreeModel, dedup: bool)
    requires
        tree.version == SUPPORTED_VERSION,
        sizes_nonzero(tree.reserved),
        names_clean(tree.root),
        image(tree, dedup) is Some,
    ensures
        parse_image(image(tree, dedup)->Some_0) == Ok::<DeviceTreeModel, DeviceTreeError>(tree),
{
    lemma_image_layout(tree, dedup);
    lemma_read_laid_out(image(tree, dedup)->Some_0, tree, dedup);
}

/// A name that was read holds no character zero.
pub proof fn lemma_parsed_name(b: Seq<u8>, at: int, raw: Seq<u8>)
    requires
        spec_read_bstring0(b, at) == Ok::<Seq<u8>, SliceReadError>(raw),
        valid_utf8(raw),
    ensures
        lacks(decode_utf8(raw), '\0'),
{
    let name = decode_utf8(raw);
    lemma_first_of(b, 0u8, at);
    decode_utf8_encode_utf8(raw);
    lemma_encode_split(name, '\0', 0u8);
    lemma_first_of(name, '\0', 0);
    lemma_first_of(raw, 0u8, 0);
    let j = first_of(raw, 0u8, 0);
    if j < raw.len() {
        assert(raw[j] == b[at + j]);
    }
}

/// Properties that were read have names without the character zero.
pub proof fn lemma_parsed_props(b: Seq<u8>, pos: int, strings: int)
    ensures
        parse_props(b, pos, strings) matches Ok((_, props)) ==> forall|i: int|
            0 <= i < props.len() ==> lacks(#[trigger] props[i].0, '\0'),
    decreases room(b, pos),
{
    if let Ok((_, props)) = parse_props(b, pos, strings) {
        if word_at(b, pos) == Ok::<u32, DeviceTreeError>(OF_DT_PROP) {
            let (next, prop) = parse_prop(b, pos, strings)->Ok_0;
            let name_offset = word_at(b, pos + 8)->Ok_0;
            let raw = spec_read_bstring0(b, strings + name_offset)->Ok_0;
            lemma_parsed_name(b, strings + name_offset, raw);
            lemma_parsed_props(b, next, strings);
            let rest = parse_props(b, next, strings)->Ok_0.1;
            assert forall|i: int| 0 <= i < props.len() implies lacks(
                #[trigger] props[i].0,
                '\0',
            ) by {
                if i > 0 {
                    assert(props[i] == rest[i - 1]);
                }
            }
        }
    }
}

/// A node that was read has no name with the character zero in it.
pub proof fn lemma_parsed_node(b: Seq<u8>, start: int, strings: int)
    ensures
        parse_node(b, start, strings) matches Ok((_, node)) ==> names_clean(node),
    decreases room(b, start), 0int,
{
    if let Ok((_, node)) = parse_node(b, start, strings) {
        let raw_name = spec_read_bstring0(b, start + 4)->Ok_0;
        let props_start = spec_align(start + 4 + raw_name.len() + 1, 4);
        let props_end = parse_props(b, props_start, strings)->Ok_0.0;
        lemma_parsed_name(b, start + 4, raw_name);
        lemma_parsed_props(b, props_start, strings);
        lemma_parse_props_advances(b, props_start, strings);
        lemma_parsed_children(b, props_end, strings);
    }
}

/// Nodes that were read have no name with the character zero in them.
pub proof fn lemma_parsed_children(b: Seq<u8>, pos: int, strings: int)
    ensures
        parse_children(b, pos, strings) matches Ok((_, nodes)) ==> forall|i: int|
            0 <= i < nodes.len() ==> names_clean(#[trigger] nodes[i]),
    decreases room(b, pos), 1int,
{
    if let Ok((_, nodes)) = parse_children(b, pos, strings) {
        if word_at(b, pos) == Ok::<u32, DeviceTreeError>(OF_DT_BEGIN_NODE) {
            let (next, child) = parse_node(b, pos, strings)->Ok_0;
            lemma_parsed_node(b, pos, strings);
            lemma_parsed_children(b, next, strings);
            let rest = parse_children(b, next, strings)->Ok_0.1;
            assert forall|i: int| 0 <= i < nodes.len() implies names_clean(
                #[trigger] nodes[i],
            ) by {
                if i > 0 {
                    assert(nodes[i] == rest[i - 1]);
                }
            }
        }
    }
}

/// Regions that were read have sizes other than zero.
pub proof fn lemma_parsed_reserved(b: Seq<u8>, pos: int)
    ensures
        parse_reserved(b, pos) matches Ok(reserved) ==> sizes_nonzero(reserved),
    decreases room(b, pos),
{
    if let Ok(reserved) = parse_reserved(b, pos) {
        let size = dword_at(b, pos + 8)->Ok_0;
        if size != 0 {
            lemma_parsed_reserved(b, pos + 16);
            let rest = parse_reserved(b, pos + 16)->Ok_0;
            assert forall|i: int| 0 <= i < reserved.len() implies (#[trigger] reserved[i]).1
                != 0 by {
                if i > 0 {
                    assert(reserved[i] == rest[i - 1]);
                }
            }
        }
    }
}

/// A tree that was read from an image is one that an image can spell.
pub proof fn lemma_loaded_tree(b: Seq<u8>)
    ensures
        parse_image(b) matches Ok(tree) ==> {
            &&& tree.version == SUPPORTED_VERSION
            &&& sizes_nonzero(tree.reserved)
            &&& names_clean(tree.root)
        },
{
    if let Ok(tree) = parse_image(b) {
        let off_dt_struct = word_at(b, 8)->Ok_0;
        let off_dt_strings = word_at(b, 12)->Ok_0;
        let off_mem_rsvmap = word_at(b, 16)->Ok_0;
        lemma_parsed_reserved(b, off_mem_rsvmap as int);
        lemma_parsed_node(b, off_dt_struct as int, off_dt_strings as int);
    }
}

/// A tree that was read from an image and has an image itself reads
/// back from that image: reading and writing lead from trees that were
/// read to trees that can be read.
pub proof fn lemma_store_load(b: Seq<u8>, dedup: bool)
    requires
        parse_image(b) is Ok,
        image(parse_image(b)->Ok_0, dedup) is Some,
    ensures
        parse_image(image(parse_image(b)->Ok_0, dedup)->Some_0) == parse_image(b),
{
    lemma_loaded_tree(b);
    lemma_load_store(parse_image(b)->Ok_0, dedup);
}

/// The structure block of an image that was written starts at a
/// multiple of four.
pub proof fn lemma_stored_structure_start(tree: DeviceTreeModel, dedup: bool)
    requires
        image(tree, dedup) is Some,
    ensures
        word_at(image(tree, dedup)->Some_0, 8) matches Ok(start) && start % 4 == 0,
{
    lemma_image_layout(tree, dedup);
    lemma_read_header(image(tree, dedup)->Some_0, image_header(tree, dedup));
}

} // verus!
