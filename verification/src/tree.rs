//! The device tree and its nodes, and the models they stand for.

use vstd::prelude::*;

use crate::model::{DeviceTreeModel, NodeModel};

verus! {

/// Device tree structure.
#[derive(Debug, PartialEq)]
pub struct DeviceTree {
    /// Version, as indicated by version header
    pub version: u32,
    /// The number of the CPU the system boots from
    pub boot_cpuid_phys: u32,
    /// A list of tuples of `(offset, length)`, indicating reserved memory
    /// regions.
    pub reserved: Vec<(u64, u64)>,
    /// The root node.
    pub root: Node,
}

/// A single node in the device tree.
#[derive(Debug, PartialEq)]
pub struct Node {
    /// The name of the node, as it appears in the node path.
    pub name: String,
    /// A list of node properties, `(key, value)`.
    pub props: Vec<(String, Vec<u8>)>,
    /// Child nodes of this node.
    pub children: Vec<Node>,
}

/// The properties of a node as pairs of a name and a byte string.
pub open spec fn props_view(props: Seq<(String, Vec<u8>)>) -> Seq<(Seq<char>, Seq<u8>)> {
    Seq::new(props.len(), |i: int| (props[i].0@, props[i].1@))
}

/// The models of the nodes in `nodes`.
pub open spec fn nodes_view(nodes: Seq<Node>) -> Seq<NodeModel> {
    Seq::new(nodes.len(), |i: int| node_model(nodes[i]))
}

/// The model of a node: its name and its properties as they are, and the
/// models of its children.
pub open spec fn node_model(node: Node) -> NodeModel
    decreases node,
{
    NodeModel {
        name: node.name@,
        props: props_view(node.props@),
        children: Seq::new(
            node.children@.len(),
            |i: int|
                if 0 <= i < node.children.len() {
                    node_model(node.children[i])
                } else {
                    arbitrary()
                },
        ),
    }
}

impl View for Node {
    type V = NodeModel;

    open spec fn view(&self) -> NodeModel {
        node_model(*self)
    }
}

impl View for DeviceTree {
    type V = DeviceTreeModel;

    open spec fn view(&self) -> DeviceTreeModel {
        DeviceTreeModel {
            version: self.version,
            boot_cpuid_phys: self.boot_cpuid_phys,
            reserved: self.reserved@,
            root: self.root@,
        }
    }
}

/// The children of a node's model are the models of its children.
pub proof fn lemma_node_view(node: Node)
    ensures
        node@.name == node.name@,
        node@.props == props_view(node.props@),
        node@.children == nodes_view(node.children@),
{
    assert(node@.children.len() == node.children@.len());
    assert forall|i: int| 0 <= i < node.children@.len() implies node@.children[i]
        == nodes_view(node.children@)[i] by {
        assert(node.children[i] == node.children@[i]);
    }
    assert(node@.children =~= nodes_view(node.children@));
}

} // verus!
