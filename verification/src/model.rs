//! The device tree as a mathematical value, and what the queries mean on it.
//!
//! Every contract of the library speaks of these values: a loaded image is
//! described by the tree model it spells, a stored tree by the bytes its
//! model is laid out as, and a query by what it finds in the model.

use vstd::prelude::*;
use vstd::utf8::*;

use crate::error::{PropError, SliceReadError};
use crate::util::{be_u32, be_u64, first_of};

verus! {

/// A node: its name, its properties as pairs of name and value in their
/// order, and its children in their order.
pub struct NodeModel {
    pub name: Seq<char>,
    pub props: Seq<(Seq<char>, Seq<u8>)>,
    pub children: Seq<NodeModel>,
}

/// A device tree: the two header words it carries, the reserved memory
/// regions as pairs of address and size, and the root node.
pub struct DeviceTreeModel {
    pub version: u32,
    pub boot_cpuid_phys: u32,
    pub reserved: Seq<(u64, u64)>,
    pub root: NodeModel,
}

/// The value of the first property in `props` that is called `name`.
pub open spec fn prop_value(props: Seq<(Seq<char>, Seq<u8>)>, name: Seq<char>) -> Option<Seq<u8>>
    decreases props.len(),
{
    if props.len() == 0 {
        None
    } else if props[0].0 == name {
        Some(props[0].1)
    } else {
        prop_value(props.drop_first(), name)
    }
}

/// The first node in `nodes` that is called `name`.
pub open spec fn node_named(nodes: Seq<NodeModel>, name: Seq<char>) -> Option<NodeModel>
    decreases nodes.len(),
{
    if nodes.len() == 0 {
        None
    } else if nodes[0].name == name {
        Some(nodes[0])
    } else {
        node_named(nodes.drop_first(), name)
    }
}

impl NodeModel {
    /// The raw value of the property `name`: that of the first one so called.
    pub open spec fn prop_raw(self, name: Seq<char>) -> Option<Seq<u8>> {
        prop_value(self.props, name)
    }

    /// Whether the node has a property `name`.
    pub open spec fn has_prop(self, name: Seq<char>) -> bool {
        self.prop_raw(name) is Some
    }

    /// The property `name` as a string: its value without the zero byte
    /// that must end it, decoded as UTF-8.
    pub open spec fn prop_str(self, name: Seq<char>) -> Result<Seq<char>, PropError> {
        match self.prop_raw(name) {
            None => Err(PropError::NotFound),
            Some(raw) => {
                if raw.len() < 1 || raw.last() != 0 {
                    Err(PropError::Missing0)
                } else if !valid_utf8(raw.drop_last()) {
                    Err(PropError::Utf8Error)
                } else {
                    Ok(decode_utf8(raw.drop_last()))
                }
            },
        }
    }

    /// The property `name` as a number: the first four bytes of its value,
    /// most significant first.
    pub open spec fn prop_u32(self, name: Seq<char>) -> Result<u32, PropError> {
        match self.prop_raw(name) {
            None => Err(PropError::NotFound),
            Some(raw) => {
                if raw.len() < 4 {
                    Err(PropError::SliceReadError(SliceReadError::UnexpectedEndOfInput))
                } else {
                    Ok(be_u32(raw, 0) as u32)
                }
            },
        }
    }

    /// The property `name` as a number: the first eight bytes of its value,
    /// most significant first.
    pub open spec fn prop_u64(self, name: Seq<char>) -> Result<u64, PropError> {
        match self.prop_raw(name) {
            None => Err(PropError::NotFound),
            Some(raw) => {
                if raw.len() < 8 {
                    Err(PropError::SliceReadError(SliceReadError::UnexpectedEndOfInput))
                } else {
                    Ok(be_u64(raw, 0) as u64)
                }
            },
        }
    }

    /// The node that the relative path `path` leads to from this node. The
    /// empty path leads to the node itself; any other path is followed one
    /// step down.
    pub open spec fn find(self, path: Seq<char>) -> Option<NodeModel>
        decreases path.len(), 1int,
    {
        if path.len() == 0 {
            Some(self)
        } else {
            self.descend(path)
        }
    }

    /// One step down and on: what stands before the first `/` of `path`
    /// (all of `path` where it has none) names a child, the first one so
    /// called; the rest of the path is followed from that child.
    pub open spec fn descend(self, path: Seq<char>) -> Option<NodeModel>
        decreases path.len(), 0int,
    {
        let slash = first_of(path, '/', 0);
        if 0 <= slash < path.len() {
            match node_named(self.children, path.subrange(0, slash)) {
                Some(child) => child.find(path.subrange(slash + 1, path.len() as int)),
                None => None,
            }
        } else {
            node_named(self.children, path)
        }
    }
}

impl DeviceTreeModel {
    /// The node that the absolute path `path` leads to. A path that does
    /// not start with `/` leads nowhere. What follows the `/` is followed
    /// down from the root, by one step at least: the root itself is never
    /// found.
    pub open spec fn find(self, path: Seq<char>) -> Option<NodeModel> {
        if path.len() > 0 && path[0] == '/' {
            self.root.descend(path.skip(1))
        } else {
            None
        }
    }
}

/// Finding is idempotent: a node that was found from a node by a path is
/// found again from itself by the empty path.
pub proof fn lemma_find_idempotent(node: NodeModel, path: Seq<char>)
    ensures
        node.find(path) matches Some(found) ==> found.find(Seq::empty()) == node.find(path),
{
}

/// Finding is idempotent: a node that was found in a tree by a path is
/// found again from itself by the empty path.
pub proof fn lemma_tree_find_idempotent(tree: DeviceTreeModel, path: Seq<char>)
    ensures
        tree.find(path) matches Some(found) ==> found.find(Seq::empty()) == tree.find(path),
{
}

} // verus!
