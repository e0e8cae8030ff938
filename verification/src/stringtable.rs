//! The strings block under construction: the names of the properties, each
//! followed by a zero byte, one after the other.
//!
//! Two tables build it. The one of this module appends every name it is
//! given. The one of `advancedstringtable` remembers where it put each name
//! and hands out that offset again when the name comes back.

use vstd::prelude::*;
use vstd::utf8::*;

use crate::util::extend_from_slice;

verus! {

/// A table of names as a mathematical value: the bytes written so far, and
/// for a table that remembers (`dedup`), the offset of each name it holds.
pub struct TableModel {
    pub buffer: Seq<u8>,
    pub index: Map<Seq<char>, u32>,
    pub dedup: bool,
}

/// The table that holds nothing yet.
pub open spec fn empty_table(dedup: bool) -> TableModel {
    TableModel { buffer: Seq::empty(), index: Map::empty(), dedup }
}

/// The table after the name `s` was added to `t`, and the offset of `s` in it.
///
/// A table that remembers and knows `s` stays as it is and gives the offset
/// it knows. Otherwise `s` and a zero byte are appended, and the offset is
/// the length that the buffer had; a table that remembers notes it.
pub open spec fn table_add(t: TableModel, s: Seq<char>) -> (TableModel, u32) {
    if t.dedup && t.index.contains_key(s) {
        (t, t.index[s])
    } else {
        (
            TableModel {
                buffer: t.buffer + encode_utf8(s) + seq![0u8],
                index: if t.dedup {
                    t.index.insert(s, t.buffer.len() as u32)
                } else {
                    t.index
                },
                dedup: t.dedup,
            },
            t.buffer.len() as u32,
        )
    }
}

/// What the serializer asks of a table of names.
pub trait NameTable: View<V = TableModel> + Sized {
    /// The number of bytes written so far.
    fn size(&self) -> (n: usize)
        ensures
            n == self@.buffer.len(),
    ;

    /// Adds the name `val` and returns its offset in the buffer.
    fn add_string(&mut self, val: &str) -> (offset: u32)
        requires
            old(self)@.buffer.len() <= u32::MAX,
        ensures
            (final(self)@, offset) == table_add(old(self)@, val@),
    ;

    /// The bytes written so far.
    fn bytes(&self) -> (b: &[u8])
        ensures
            b@ == self@.buffer,
    ;
}

/// The table that appends every name it is given.
pub struct StringTable {
    pub buffer: Vec<u8>,
}

impl View for StringTable {
    type V = TableModel;

    open spec fn view(&self) -> TableModel {
        TableModel { buffer: self.buffer@, index: Map::empty(), dedup: false }
    }
}

impl Default for StringTable {
    fn default() -> (t: StringTable)
        ensures
            t@ == empty_table(false),
    {
        StringTable::new()
    }
}

impl StringTable {
    /// An empty table.
    pub fn new() -> (t: StringTable)
        ensures
            t@ == empty_table(false),
    {
        StringTable { buffer: Vec::new() }
    }

    /// Appends `val` and a zero byte to the buffer, and returns the length
    /// that the buffer had before. That length must fit the 32 bits of the
    /// result.
    pub fn add_string(&mut self, val: &str) -> (offset: u32)
        requires
            old(self).buffer@.len() <= u32::MAX,
        ensures
            (final(self)@, offset) == table_add(old(self)@, val@),
    {
        let offset = self.buffer.len();
        extend_from_slice(&mut self.buffer, val.as_bytes());
        self.buffer.push(0);
        assert(self.buffer@ =~= old(self).buffer@ + encode_utf8(val@) + seq![0u8]);
        offset as u32
    }
}

impl NameTable for StringTable {
    fn size(&self) -> (n: usize) {
        self.buffer.len()
    }

    fn add_string(&mut self, val: &str) -> (offset: u32) {
        StringTable::add_string(self, val)
    }

    fn bytes(&self) -> (b: &[u8]) {
        self.buffer.as_slice()
    }
}

} // verus!
