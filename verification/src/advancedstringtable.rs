//! The strings block under construction, with each name written once.
//!
//! Property names come back again and again in a device tree. This table
//! keeps a hash map from the names it has written to their offsets, and a
//! name that it knows costs no further bytes.

use vstd::prelude::*;
use vstd::utf8::*;

use crate::stringtable::{empty_table, table_add, NameTable, TableModel};
use crate::util::extend_from_slice;

verus! {

/// The hash map from names to offsets, a `hashbrown::HashMap`.
#[verifier::external_body]
pub struct NameIndex {
    map: hashbrown::HashMap<String, u32>,
}

/// The offsets that a hash map holds, by name.
pub uninterp spec fn index_contents(index: NameIndex) -> Map<Seq<char>, u32>;

/// `hashbrown::HashMap::new`: the map it makes holds nothing.
#[verifier::external_body]
fn index_new() -> (r: NameIndex)
    ensures
        index_contents(r) =~= Map::empty(),
{
    NameIndex { map: hashbrown::HashMap::new() }
}

/// `hashbrown::HashMap::get`: the offset held for `key`, where there is one.
#[verifier::external_body]
fn index_get(index: &NameIndex, key: &str) -> (r: Option<u32>)
    ensures
        r == if index_contents(*index).contains_key(key@) {
            Some(index_contents(*index)[key@])
        } else {
            None
        },
{
    index.map.get(key).copied()
}

/// `hashbrown::HashMap::insert`: afterwards the map holds `value` for
/// `key`, and for every other name what it held before.
#[verifier::external_body]
fn index_insert(index: &mut NameIndex, key: String, value: u32)
    ensures
        index_contents(*final(index)) == index_contents(*old(index)).insert(key@, value),
{
    index.map.insert(key, value);
}

/// The table that writes each name once.
pub struct StringTable {
    pub buffer: Vec<u8>,
    index: NameIndex,
}

impl View for StringTable {
    type V = TableModel;

    closed spec fn view(&self) -> TableModel {
        TableModel { buffer: self.buffer@, index: index_contents(self.index), dedup: true }
    }
}

impl StringTable {
    /// An empty table.
    pub fn new() -> (t: StringTable)
        ensures
            t@ == empty_table(true),
    {
        StringTable { buffer: Vec::new(), index: index_new() }
    }

    /// Returns the offset of `val` in the buffer. A name that the table
    /// has not seen is appended with a zero byte, at the offset that is
    /// the length the buffer had before; that length must fit the 32 bits
    /// of the result.
    pub fn add_string(&mut self, val: &str) -> (offset: u32)
        requires
            old(self)@.buffer.len() <= u32::MAX,
        ensures
            (final(self)@, offset) == table_add(old(self)@, val@),
    {
        if let Some(offset) = index_get(&self.index, val) {
            return offset;
        }
        let offset = self.buffer.len() as u32;
        extend_from_slice(&mut self.buffer, val.as_bytes());
        self.buffer.push(0);
        index_insert(&mut self.index, val.to_owned(), offset);
        assert(self.buffer@ =~= old(self).buffer@ + encode_utf8(val@) + seq![0u8]);
        offset
    }
}

impl NameTable for StringTable {
    fn size(&self) -> (n: usize) {
        self.buffer.len()
    }

    fn add_string(&mut self, val: &str) -> (offset: u32) {
        StringTable::add_string(self, val)
    }

    fn bytes(&self) -> (b: &[u8]) {
        self.buffer.as_slice()
    }
}

} // verus!
