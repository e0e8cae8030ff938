//! Loading and producing flattened device trees.
//!
//! A flattened device tree is the binary form of a hardware description: a
//! header, a list of reserved memory regions, a stream of tokens that spells
//! out a tree of nodes with their properties, and a table of property names.
//! [`DeviceTree::load`] reads such an image into a tree, [`DeviceTree::store`]
//! writes a tree out as an image, and [`DeviceTree::find`] with the property
//! accessors of [`Node`] answer questions about a tree.
//!
//! Every function is verified against a contract over the models of
//! [`model`]: [`format`] says which tree an image spells, [`layout`] says
//! which bytes a tree is laid out as, and [`roundtrip`] proves that the two
//! agree.

pub mod advancedstringtable;
pub mod alignment;
pub mod error;
pub mod format;
pub mod layout;
pub mod loader;
pub mod model;
pub mod query;
pub mod roundtrip;
pub mod serializer;
pub mod stringtable;
pub mod text;
pub mod tree;
pub mod util;

pub use error::{DeviceTreeError, PropError, SliceReadError, VecWriteError};
pub use tree::{DeviceTree, Node};
