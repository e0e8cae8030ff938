//! Where the tokens of a structure block stand: every one of them at a
//! multiple of four from the start of the block.

use vstd::prelude::*;

use crate::error::DeviceTreeError;
use crate::format::{
    lemma_parse_props_advances, parse_children, parse_image, parse_node, parse_prop,
    parse_props, room, word_at, OF_DT_BEGIN_NODE, OF_DT_END_NODE, OF_DT_PROP,
};
use crate::util::{lemma_align, spec_align, spec_read_bstring0};

verus! {

/// The offsets of the tokens of the property records that are read from
/// `pos` on.
pub open spec fn prop_tokens(b: Seq<u8>, pos: int, strings: int) -> Seq<int>
    decreases room(b, pos),
{
    if word_at(b, pos) == Ok::<u32, DeviceTreeError>(OF_DT_PROP) {
        match parse_prop(b, pos, strings) {
            Ok((next, _)) => seq![pos] + prop_tokens(b, next, strings),
            Err(_) => seq![pos],
        }
    } else {
        Seq::empty()
    }
}

/// The offsets of the tokens of the node that is read at `start`: of its
/// opening token, of the tokens of its properties and of its children,
/// and of its closing token. A record that does not read as a node has
/// none.
pub open spec fn node_tokens(b: Seq<u8>, start: int, strings: int) -> Seq<int>
    decreases room(b, start), 0int,
{
    match parse_node(b, start, strings) {
        Err(_) => Seq::empty(),
        Ok((end, _)) => {
            let raw_name = spec_read_bstring0(b, start + 4)->Ok_0;
            let props_start = spec_align(start + 4 + raw_name.len() + 1, 4);
            let props_end = parse_props(b, props_start, strings)->Ok_0.0;
            proof {
                lemma_parse_props_advances(b, props_start, strings);
            }
            seq![start] + prop_tokens(b, props_start, strings) + child_tokens(
                b,
                props_end,
                strings,
            ) + seq![end - 4]
        },
    }
}

/// The offsets of the tokens of the nodes that are read from `pos` on.
pub open spec fn child_tokens(b: Seq<u8>, pos: int, strings: int) -> Seq<int>
    decreases room(b, pos), 1int,
{
    if word_at(b, pos) == Ok::<u32, DeviceTreeError>(OF_DT_BEGIN_NODE) {
        match parse_node(b, pos, strings) {
            Ok((next, _)) => {
                if next > pos {
                    node_tokens(b, pos, strings) + child_tokens(b, next, strings)
                } else {
                    Seq::empty()
                }
            },
            Err(_) => Seq::empty(),
        }
    } else {
        Seq::empty()
    }
}

/// Whether a token stands at each of the offsets `tokens`, and each is
/// a multiple of four away from `start`.
pub open spec fn tokens_aligned(b: Seq<u8>, start: int, tokens: Seq<int>) -> bool {
    forall|i: int|
        0 <= i < tokens.len() ==> {
            &&& (#[trigger] tokens[i] - start) % 4 == 0
            &&& word_at(b, tokens[i]) matches Ok(token) && (token == OF_DT_BEGIN_NODE || token
                == OF_DT_PROP || token == OF_DT_END_NODE)
        }
}

/// Tokens that are aligned, one list after the other, are aligned.
pub proof fn lemma_tokens_concat(b: Seq<u8>, start: int, x: Seq<int>, y: Seq<int>)
    requires
        tokens_aligned(b, start, x),
        tokens_aligned(b, start, y),
    ensures
        tokens_aligned(b, start, x + y),
{
    assert forall|i: int| 0 <= i < (x + y).len() implies {
        &&& (#[trigger] (x + y)[i] - start) % 4 == 0
        &&& word_at(b, (x + y)[i]) matches Ok(token) && (token == OF_DT_BEGIN_NODE || token
            == OF_DT_PROP || token == OF_DT_END_NODE)
    } by {
        if i < x.len() {
            assert((x + y)[i] == x[i]);
        } else {
            assert((x + y)[i] == y[i - x.len()]);
        }
    }
}

/// The tokens of property records that are read from a multiple of four
/// on stand at multiples of four, and so does what follows the records.
pub proof fn lemma_prop_tokens(b: Seq<u8>, pos: int, strings: int, start: int)
    requires
        (pos - start) % 4 == 0,
        start % 4 == 0,
    ensures
        tokens_aligned(b, start, prop_tokens(b, pos, strings)),
        parse_props(b, pos, strings) matches Ok((end, _)) ==> (end - start) % 4 == 0,
    decreases room(b, pos),
{
    if word_at(b, pos) == Ok::<u32, DeviceTreeError>(OF_DT_PROP) {
        if let Ok((next, _)) = parse_prop(b, pos, strings) {
            let val_size = word_at(b, pos + 4)->Ok_0;
            lemma_align(pos + 12 + val_size, 4);
            lemma_prop_tokens(b, next, strings, start);
            lemma_tokens_concat(b, start, seq![pos], prop_tokens(b, next, strings));
        }
    }
}

/// The tokens of a node that is read at a multiple of four stand at
/// multiples of four, and so does what follows the node.
pub proof fn lemma_node_tokens(b: Seq<u8>, at: int, strings: int, start: int)
    requires
        (at - start) % 4 == 0,
        start % 4 == 0,
    ensures
        tokens_aligned(b, start, node_tokens(b, at, strings)),
        parse_node(b, at, strings) matches Ok((end, _)) ==> (end - start) % 4 == 0,
    decreases room(b, at), 0int,
{
    if let Ok((end, _)) = parse_node(b, at, strings) {
        let raw_name = spec_read_bstring0(b, at + 4)->Ok_0;
        let props_start = spec_align(at + 4 + raw_name.len() + 1, 4);
        let props_end = parse_props(b, props_start, strings)->Ok_0.0;
        lemma_align(at + 4 + raw_name.len() + 1, 4);
        lemma_parse_props_advances(b, props_start, strings);
        lemma_prop_tokens(b, props_start, strings, start);
        lemma_child_tokens(b, props_end, strings, start);
        let props = prop_tokens(b, props_start, strings);
        let children = child_tokens(b, props_end, strings);
        lemma_tokens_concat(b, start, seq![at], props);
        lemma_tokens_concat(b, start, seq![at] + props, children);
        lemma_tokens_concat(b, start, seq![at] + props + children, seq![end - 4]);
    }
}

/// The tokens of nodes that are read from a multiple of four on stand at
/// multiples of four, and so does what follows the nodes.
pub proof fn lemma_child_tokens(b: Seq<u8>, pos: int, strings: int, start: int)
    requires
        (pos - start) % 4 == 0,
        start % 4 == 0,
    ensures
        tokens_aligned(b, start, child_tokens(b, pos, strings)),
        parse_children(b, pos, strings) matches Ok((end, _)) ==> (end - start) % 4 == 0,
    decreases room(b, pos), 1int,
{
    if word_at(b, pos) == Ok::<u32, DeviceTreeError>(OF_DT_BEGIN_NODE) {
        if let Ok((next, _)) = parse_node(b, pos, strings) {
            lemma_node_tokens(b, pos, strings, start);
            if next > pos {
                lemma_child_tokens(b, next, strings, start);
                lemma_tokens_concat(
                    b,
                    start,
                    node_tokens(b, pos, strings),
                    child_tokens(b, next, strings),
                );
            }
        }
    }
}

/// The offsets of the tokens of the structure block of the image `b`.
pub open spec fn structure_tokens(b: Seq<u8>) -> Seq<int> {
    node_tokens(b, word_at(b, 8)->Ok_0 as int, word_at(b, 12)->Ok_0 as int)
}

/// In an image that reads as a tree and whose structure block starts at
/// a multiple of four, every token of the structure block stands at a
/// multiple of four from the start of the block.
pub proof fn lemma_structure_aligned(b: Seq<u8>)
    requires
        parse_image(b) is Ok,
        word_at(b, 8)->Ok_0 % 4 == 0,
    ensures
        tokens_aligned(b, word_at(b, 8)->Ok_0 as int, structure_tokens(b)),
{
    let start = word_at(b, 8)->Ok_0 as int;
    lemma_node_tokens(b, start, word_at(b, 12)->Ok_0 as int, start);
}

} // verus!
