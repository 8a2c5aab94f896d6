//! The data section: an append-only byte buffer of encoded values, addressed
//! by opaque offset handles.
use vstd::prelude::*;

use crate::serializer::{spec_encode_value, spec_value_fits, write_value, Error, Value};

verus! {

/// Handle to one encoded value: the byte offset at which its encoding starts
/// inside the data section.  Offsets never shift, so a handle stays valid for
/// the lifetime of the store that issued it.
#[derive(Clone, Copy, Debug, Eq, PartialEq, Structural)]
pub struct DataRef {
    index: usize,
}

impl DataRef {
    /// The byte offset this handle stands for.
    pub closed spec fn spec_index(self) -> int {
        self.index as int
    }

    /// Handle at byte offset `index` of a data section.
    pub fn new(index: usize) -> (r: DataRef)
        ensures
            r.spec_index() == index,
    {
        DataRef { index }
    }

    /// The on-disk pointer value of this handle: biased past the node
    /// records and the 16-byte separator, so that a reader can tell node
    /// pointers from data pointers by comparing against the node count.
    pub fn data_section_offset(&self, node_count: usize) -> (r: usize)
        requires
            node_count + 16 + self.spec_index() <= usize::MAX,
        ensures
            r == node_count + 16 + self.spec_index(),
    {
        node_count + 16 + self.index
    }
}

/// Owns the data section's byte buffer.  Values are appended through the
/// encoder; the offset at which each one starts is handed back as a
/// `DataRef`.
#[derive(Debug)]
pub struct Datastore {
    store: Vec<u8>,
}

impl View for Datastore {
    type V = Seq<u8>;

    closed spec fn view(&self) -> Seq<u8> {
        self.store@
    }
}

impl Default for Datastore {
    /// An empty data section.
    fn default() -> (r: Datastore)
        ensures
            r@ == Seq::<u8>::empty(),
    {
        Datastore { store: Vec::new() }
    }
}

impl Datastore {
    /// Number of bytes stored so far.
    pub fn len(&self) -> (r: usize)
        ensures
            r == self@.len(),
    {
        self.store.len()
    }

    /// Encodes `value` at the end of the buffer and returns the offset at
    /// which its encoding starts.  On failure the bytes already emitted stay
    /// in the buffer, and the caller treats the store as poisoned.
    pub fn insert(&mut self, value: &Value) -> (r: Result<DataRef, Error>)
        ensures
            r is Ok <==> spec_value_fits(*value),
            r is Ok ==> final(self)@ == old(self)@ + spec_encode_value(*value)
                && r->Ok_0.spec_index() == old(self)@.len(),
            r is Err ==> r == Err::<DataRef, Error>(Error::LengthOutOfRange) && old(
                self,
            )@.is_prefix_of(final(self)@),
    {
        let data_ref = DataRef { index: self.store.len() };
        match write_value(&mut self.store, value) {
            Ok(()) => Ok(data_ref),
            Err(e) => Err(e),
        }
    }

    /// The encoded data section, verbatim.
    pub fn serialized_data(&self) -> (r: &[u8])
        ensures
            r@ == self@,
    {
        self.store.as_slice()
    }
}

} // verus!
