//! The query surface: nodes by path, and properties by name, decoded as
//! bytes, strings or numbers.

use vstd::prelude::*;
use vstd::string::StringSliceAdditionalSpecFns;
use vstd::utf8::*;

use crate::error::{PropError, SliceReadError};
use crate::model::{node_named, prop_value};
use crate::text::{lemma_encode_injective, lemma_encode_split, str_eq};
use crate::tree::{lemma_node_view, nodes_view, props_view, DeviceTree, Node};
use crate::util::{first_of, lemma_first_of, read_be_u32, read_be_u64};

verus! {

/// The offset of the first `/` in `path`.
fn find_slash(path: &str) -> (r: Option<usize>)
    ensures
        match r {
            Some(at) => at < path.spec_bytes().len() && at == first_of(
                path.spec_bytes(),
                0x2fu8,
                0,
            ),
            None => first_of(path.spec_bytes(), 0x2fu8, 0) == path.spec_bytes().len(),
        },
{
    let bytes = path.as_bytes();
    let mut at: usize = 0;
    while at < bytes.len()
        invariant
            at <= bytes@.len(),
            bytes@ == path.spec_bytes(),
            first_of(bytes@, 0x2fu8, 0) == first_of(bytes@, 0x2fu8, at as int),
        decreases bytes@.len() - at,
    {
        if bytes[at] == 0x2f {
            assert(first_of(bytes@, 0x2fu8, at as int) == at);
            return Some(at);
        }
        at += 1;
    }
    None
}

/// Splits `path` at the `/` that stands at `at`, its first, into what is
/// before it and what is after it.
fn split_at_slash(path: &str, at: usize) -> (r: (&str, &str))
    requires
        at < path.spec_bytes().len(),
        at == first_of(path.spec_bytes(), 0x2fu8, 0),
    ensures
        first_of(path@, '/', 0) < path@.len(),
        r.0@ == path@.subrange(0, first_of(path@, '/', 0)),
        r.1@ == path@.subrange(first_of(path@, '/', 0) + 1, path@.len() as int),
{
    let ghost bytes = path.spec_bytes();
    let ghost slash = first_of(path@, '/', 0);
    proof {
        lemma_encode_split(path@, '/', 0x2fu8);
        lemma_first_of(bytes, 0x2fu8, 0);
        encode_utf8_valid_utf8(path@);
        is_char_boundary_iff_is_leading_byte(bytes, at as int);
    }
    let (l, r) = path.split_at(at);
    proof {
        encode_utf8_valid_utf8(r@);
        assert(r.spec_bytes()[0] == 0x2fu8);
        assert(is_char_boundary(r.spec_bytes(), 1)) by {
            reveal_with_fuel(is_char_boundary, 2);
        }
    }
    // we know that the first char of r is a '/'
    let (_, subpath) = r.split_at(1);
    proof {
        assert(subpath.spec_bytes() =~= bytes.subrange(at + 1, bytes.len() as int));
        lemma_encode_injective(l@, path@.subrange(0, slash));
        lemma_encode_injective(subpath@, path@.subrange(slash + 1, path@.len() as int));
    }
    (l, subpath)
}

/// The first node of `nodes` that is called `name`.
fn first_named<'a>(nodes: &'a Vec<Node>, name: &str) -> (r: Option<&'a Node>)
    ensures
        match r {
            Some(node) => node_named(nodes_view(nodes@), name@) == Some(node@),
            None => node_named(nodes_view(nodes@), name@) is None,
        },
{
    let ghost all = nodes_view(nodes@);
    let mut i: usize = 0;
    assert(all.skip(0) =~= all);
    while i < nodes.len()
        invariant
            i <= nodes@.len(),
            all == nodes_view(nodes@),
            node_named(all, name@) == node_named(all.skip(i as int), name@),
        decreases nodes@.len() - i,
    {
        proof {
            lemma_node_view(nodes@[i as int]);
            assert(all.skip(i as int).drop_first() =~= all.skip(i + 1));
        }
        if str_eq(nodes[i].name.as_str(), name) {
            return Some(&nodes[i]);
        }
        i += 1;
    }
    None
}

impl Node {
    /// The node that the relative path `path` leads to from this node.
    ///
    /// The empty path leads to this node. Of any other path, what stands
    /// before the first `/` names a child, the first one so called, and
    /// the rest is followed from that child.
    pub fn find<'a>(&'a self, path: &str) -> (r: Option<&'a Node>)
        ensures
            match r {
                Some(node) => self@.find(path@) == Some(node@),
                None => self@.find(path@) is None,
            },
        decreases path@.len(), 1int,
    {
        if path.is_empty() {
            return Some(self);
        }
        self.descend(path)
    }

    /// The node that `path` leads to from this node by one step at least.
    pub fn descend<'a>(&'a self, path: &str) -> (r: Option<&'a Node>)
        ensures
            match r {
                Some(node) => self@.descend(path@) == Some(node@),
                None => self@.descend(path@) is None,
            },
        decreases path@.len(), 0int,
    {
        proof {
            lemma_node_view(*self);
            lemma_encode_split(path@, '/', 0x2fu8);
        }
        match find_slash(path) {
            Some(at) => {
                let (l, subpath) = split_at_slash(path, at);
                match first_named(&self.children, l) {
                    Some(child) => child.find(subpath),
                    // no matching child found
                    None => None,
                }
            },
            None => first_named(&self.children, path),
        }
    }

    /// Whether the node has a property `name`.
    pub fn has_prop(&self, name: &str) -> (r: bool)
        ensures
            r == self@.has_prop(name@),
    {
        self.prop_raw(name).is_some()
    }

    /// The property `name` as a string: its value must end in a zero
    /// byte, and what stands before that byte be UTF-8.
    pub fn prop_str<'a>(&'a self, name: &str) -> (r: Result<&'a str, PropError>)
        ensures
            match r {
                Ok(s) => self@.prop_str(name@) == Ok::<Seq<char>, PropError>(s@),
                Err(e) => self@.prop_str(name@) == Err::<Seq<char>, PropError>(e),
            },
    {
        let raw = match self.prop_raw(name) {
            Some(raw) => raw,
            None => {
                return Err(PropError::NotFound);
            },
        };
        let l = raw.len();
        if l < 1 || raw[l - 1] != 0 {
            return Err(PropError::Missing0);
        }
        match core::str::from_utf8(vstd::slice::slice_subrange(raw.as_slice(), 0, l - 1)) {
            Ok(s) => {
                proof {
                    encode_utf8_decode_utf8(s@);
                }
                Ok(s)
            },
            Err(_) => Err(PropError::Utf8Error),
        }
    }

    /// The raw value of the property `name`: that of the first one so called.
    pub fn prop_raw<'a>(&'a self, name: &str) -> (r: Option<&'a Vec<u8>>)
        ensures
            match r {
                Some(value) => self@.prop_raw(name@) == Some(value@),
                None => self@.prop_raw(name@) is None,
            },
    {
        proof {
            lemma_node_view(*self);
        }
        let ghost all = props_view(self.props@);
        let mut i: usize = 0;
        assert(all.skip(0) =~= all);
        while i < self.props.len()
            invariant
                i <= self.props@.len(),
                all == props_view(self.props@),
                prop_value(all, name@) == prop_value(all.skip(i as int), name@),
            decreases self.props@.len() - i,
        {
            proof {
                assert(all.skip(i as int).drop_first() =~= all.skip(i + 1));
            }
            if str_eq(self.props[i].0.as_str(), name) {
                return Some(&self.props[i].1);
            }
            i += 1;
        }
        None
    }

    /// The property `name` as a number: the first eight bytes of its
    /// value, most significant first.
    pub fn prop_u64(&self, name: &str) -> (r: Result<u64, PropError>)
        ensures
            r == self@.prop_u64(name@),
    {
        let raw = match self.prop_raw(name) {
            Some(raw) => raw,
            None => {
                return Err(PropError::NotFound);
            },
        };
        match read_be_u64(raw.as_slice(), 0) {
            Ok(v) => Ok(v),
            Err(e) => Err(PropError::SliceReadError(e)),
        }
    }

    /// The property `name` as a number: the first four bytes of its
    /// value, most significant first.
    pub fn prop_u32(&self, name: &str) -> (r: Result<u32, PropError>)
        ensures
            r == self@.prop_u32(name@),
    {
        let raw = match self.prop_raw(name) {
            Some(raw) => raw,
            None => {
                return Err(PropError::NotFound);
            },
        };
        match read_be_u32(raw.as_slice(), 0) {
            Ok(v) => Ok(v),
            Err(e) => Err(PropError::SliceReadError(e)),
        }
    }
}

impl DeviceTree {
    /// The node that the absolute path `path` leads to.
    ///
    /// A path that does not start with `/` leads nowhere. What follows the
    /// `/` is followed down from the root by one step at least, so the
    /// root itself is never found: `/` leads to the first child of the
    /// root whose name is empty.
    pub fn find<'a>(&'a self, path: &str) -> (r: Option<&'a Node>)
        ensures
            match r {
                Some(node) => self@.find(path@) == Some(node@),
                None => self@.find(path@) is None,
            },
    {
        proof {
            lemma_encode_split(path@, '/', 0x2fu8);
            lemma_first_of(path@, '/', 0);
            lemma_first_of(path.spec_bytes(), 0x2fu8, 0);
        }
        // we only find root nodes on the device tree
        match find_slash(path) {
            Some(at) => {
                if at != 0 {
                    return None;
                }
                let (_, rest) = split_at_slash(path, at);
                assert(rest@ =~= path@.skip(1));
                self.root.descend(rest)
            },
            None => None,
        }
    }
}

} // verus!
