//! Writer for MaxMind DB binary files: a bit-indexed binary trie over IP
//! address prefixes, a type-length-value encoder for the data section, and a
//! coordinator that lays the two out as one byte stream with a metadata map.
use vstd::prelude::*;

pub mod data;
pub mod metadata;
pub mod node;
pub mod paths;
pub mod serializer;

use crate::data::{DataRef, Datastore};
use crate::metadata::{
    spec_metadata_bytes, spec_metadata_fits, spec_metadata_marker, write_metadata_marker, Metadata,
    RecordSize,
};
use crate::node::{
    spec_data_bound, spec_lookup, spec_records, spec_records_fit, spec_rs_max, spec_unique_refs,
    spec_wf_nodes, Node, NodeTree,
};
use crate::paths::IntoBitPath;
use crate::serializer::{spec_encode_value, spec_value_fits, Error, Value};

verus! {

/// The sixteen zero bytes separating the node records from the data section.
pub open spec fn spec_separator() -> Seq<u8> {
    Seq::new(16, |i: int| 0u8)
}

/// Appends the sixteen-byte zero separator.
fn write_separator(out: &mut Vec<u8>)
    ensures
        final(out)@ == old(out)@ + spec_separator(),
{
    let mut i: usize = 0;
    #[verifier::loop_isolation(false)]
    while i < 16
        invariant
            i <= 16,
            out@ == old(out)@ + spec_separator().take(i as int),
        decreases 16 - i,
    {
        out.push(0);
        proof {
            assert(out@ =~= old(out)@ + spec_separator().take(i + 1));
        }
        i += 1;
    }
    proof {
        assert(spec_separator().take(16) =~= spec_separator());
    }
}

/// A database under construction: a search trie, the data section its
/// leaves point into, and the metadata record.  Building is deterministic:
/// two databases built by the same call sequence serialize to the same
/// bytes.
#[derive(Debug)]
pub struct Database {
    nodes: NodeTree,
    data: Datastore,
    pub metadata: Metadata,
}

impl Database {
    /// The trie's nodes.
    pub closed spec fn spec_nodes(&self) -> Seq<Node> {
        self.nodes@
    }

    /// The data section's bytes.
    pub closed spec fn spec_data(&self) -> Seq<u8> {
        self.data@
    }

    /// The metadata record as it currently stands.
    pub closed spec fn spec_metadata(&self) -> Metadata {
        self.metadata
    }

    /// Structural soundness: the trie is well formed and every data offset
    /// it stores lies inside the data section.
    pub open spec fn wf(&self) -> bool {
        &&& spec_wf_nodes(self.spec_nodes())
        &&& spec_unique_refs(self.spec_nodes())
        &&& spec_data_bound(self.spec_nodes(), self.spec_data().len() as int)
    }

    /// The derived metadata fields match the trie and the data section:
    /// the node count is the trie's size and the record width is the
    /// smallest that admits the largest possible pointer.
    pub open spec fn size_synced(&self) -> bool {
        &&& self.spec_metadata().node_count == self.spec_nodes().len()
        &&& self.spec_metadata().record_size == RecordSize::spec_for_max_ptr(
            (self.spec_nodes().len() + self.spec_data().len() + 16) as int,
        )
    }

    /// The full byte stream of the database: node records, the zero
    /// separator, the data section, the metadata marker, and the metadata
    /// record.
    pub open spec fn spec_bytes(&self) -> Seq<u8> {
        spec_records(
            self.spec_nodes(),
            self.spec_nodes().len() as int,
            self.spec_metadata().record_size,
        ) + spec_separator() + self.spec_data() + spec_metadata_marker() + spec_metadata_bytes(
            self.spec_metadata(),
        )
    }

    /// Recomputes the derived metadata fields after a mutation.
    fn update_size(&mut self)
        requires
            old(self).spec_nodes().len() <= u32::MAX,
        ensures
            final(self).spec_nodes() == old(self).spec_nodes(),
            final(self).spec_data() == old(self).spec_data(),
            final(self).size_synced(),
            final(self).spec_metadata() == (Metadata {
                node_count: final(self).spec_metadata().node_count,
                record_size: final(self).spec_metadata().record_size,
                ..old(self).spec_metadata()
            }),
    {
        let node_count = self.nodes.len();
        self.metadata.node_count = node_count as u32;
        let data_size = self.data.len();
        let max_ptr_value: u128 = node_count as u128 + data_size as u128 + 16;
        self.metadata.record_size = if max_ptr_value < 0x100_0000 {
            RecordSize::Small
        } else if max_ptr_value < 0x1000_0000 {
            RecordSize::Medium
        } else {
            RecordSize::Large
        };
    }

    /// Encodes `value` at the end of the data section and hands back its
    /// offset; the derived metadata fields are recomputed either way.  On
    /// failure the partial bytes stay and the database counts as poisoned.
    pub fn insert_value(&mut self, value: &Value) -> (r: Result<DataRef, Error>)
        requires
            old(self).wf(),
            old(self).spec_nodes().len() <= u32::MAX,
        ensures
            final(self).wf(),
            final(self).size_synced(),
            final(self).spec_nodes() == old(self).spec_nodes(),
            r is Ok <==> spec_value_fits(*value),
            r is Ok ==> final(self).spec_data() == old(self).spec_data() + spec_encode_value(
                *value,
            ) && r->Ok_0.spec_index() == old(self).spec_data().len(),
            r is Err ==> r == Err::<DataRef, Error>(Error::LengthOutOfRange) && old(
                self,
            ).spec_data().is_prefix_of(final(self).spec_data()),
            final(self).spec_metadata() == (Metadata {
                node_count: final(self).spec_metadata().node_count,
                record_size: final(self).spec_metadata().record_size,
                ..old(self).spec_metadata()
            }),
    {
        let result = self.data.insert(value);
        proof {
            assert forall|i: int, bit: bool|
                0 <= i < self.spec_nodes().len() implies match #[trigger] crate::node::spec_edge(
                self.spec_nodes()[i],
                bit,
            ) {
                Some(crate::node::Target::Data(d)) => d.spec_index()
                    < self.spec_data().len() as int,
                _ => true,
            } by {
                assert(spec_data_bound(old(self).spec_nodes(), old(self).spec_data().len() as int));
                assert(old(self).spec_data().len() <= self.spec_data().len());
            }
        }
        self.update_size();
        result
    }

    /// Installs `data` at the end of the bit path `path` in the trie, then
    /// recomputes the derived metadata fields.  The data reference must
    /// come from this database's own data section.
    pub fn insert_node<P: IntoBitPath>(&mut self, path: P, data: DataRef)
        requires
            old(self).wf(),
            path.spec_valid(),
            data.spec_index() < old(self).spec_data().len(),
            old(self).spec_nodes().len() + path.spec_bits().len() <= u32::MAX,
        ensures
            final(self).wf(),
            final(self).size_synced(),
            final(self).spec_data() == old(self).spec_data(),
            final(self).spec_nodes().len() >= old(self).spec_nodes().len(),
            path.spec_bits().len() == 0 ==> final(self).spec_nodes() == old(self).spec_nodes(),
            path.spec_bits().len() > 0 ==> final(self).spec_nodes().len() <= old(
                self,
            ).spec_nodes().len() + path.spec_bits().len() - 1,
            path.spec_bits().len() > 0 ==> spec_lookup(final(self).spec_nodes(), 0, path.spec_bits())
                == Some(data.spec_index()),
            path.spec_bits().len() > 0 ==> (forall|q: Seq<bool>|
                q.len() >= path.spec_bits().len() ==> #[trigger] spec_lookup(
                    final(self).spec_nodes(),
                    0,
                    q,
                ) == (if path.spec_bits().is_prefix_of(q) {
                    Some(data.spec_index())
                } else {
                    spec_lookup(old(self).spec_nodes(), 0, q)
                })),
            final(self).spec_metadata() == (Metadata {
                node_count: final(self).spec_metadata().node_count,
                record_size: final(self).spec_metadata().record_size,
                ..old(self).spec_metadata()
            }),
    {
        let bits = path.into_bit_path();
        self.nodes.insert(bits.as_slice(), data);
        self.update_size();
    }

    /// Appends the database's whole byte stream: node records at the
    /// currently chosen width, the zero separator, the data section
    /// verbatim, the metadata marker, and the metadata record.  Writing
    /// does not mutate the database; it fails only when a metadata payload
    /// cannot be encoded, and then the bytes already written stay.
    pub fn write_to(&self, out: &mut Vec<u8>) -> (r: Result<(), Error>)
        requires
            self.wf(),
            spec_records_fit(self.spec_nodes(), self.spec_metadata().record_size),
        ensures
            r is Ok <==> spec_metadata_fits(self.spec_metadata()),
            r is Ok ==> final(out)@ == old(out)@ + self.spec_bytes(),
            r is Err ==> r == Err::<(), Error>(Error::LengthOutOfRange) && old(
                out,
            )@.is_prefix_of(final(out)@),
    {
        self.nodes.write_to(out, self.metadata.record_size);
        write_separator(out);
        out.extend_from_slice(self.data.serialized_data());
        write_metadata_marker(out);
        proof {
            let b = old(out)@;
            let recs = spec_records(
                self.spec_nodes(),
                self.spec_nodes().len() as int,
                self.metadata.record_size,
            );
            crate::metadata::lemma_append_assoc(b, recs, spec_separator());
            crate::metadata::lemma_append_assoc(b, recs + spec_separator(), self.spec_data());
            crate::metadata::lemma_append_assoc(
                b,
                recs + spec_separator() + self.spec_data(),
                spec_metadata_marker(),
            );
        }
        let ghost head = out@;
        match self.metadata.write_to(out) {
            Ok(()) => {},
            Err(e) => {
                proof {
                    crate::serializer::lemma_prefix_concat(
                        old(out)@,
                        head.skip(old(out)@.len() as int),
                    );
                    assert(old(out)@ + head.skip(old(out)@.len() as int) =~= head);
                    crate::serializer::lemma_prefix_trans(old(out)@, head, out@);
                }
                return Err(e);
            },
        }
        proof {
            let b = old(out)@;
            let recs = spec_records(
                self.spec_nodes(),
                self.spec_nodes().len() as int,
                self.metadata.record_size,
            );
            crate::metadata::lemma_append_assoc(
                b,
                recs + spec_separator() + self.spec_data() + spec_metadata_marker(),
                spec_metadata_bytes(self.metadata),
            );
            assert(out@ == b + self.spec_bytes());
        }
        Ok(())
    }

    /// The database's whole byte stream as one vector; see `write_to`.
    pub fn to_vec(&self) -> (r: Result<Vec<u8>, Error>)
        requires
            self.wf(),
            spec_records_fit(self.spec_nodes(), self.spec_metadata().record_size),
        ensures
            r is Ok <==> spec_metadata_fits(self.spec_metadata()),
            r is Ok ==> r->Ok_0@ == self.spec_bytes(),
            r is Err ==> r == Err::<Vec<u8>, Error>(Error::LengthOutOfRange),
    {
        let mut result: Vec<u8> = Vec::new();
        match self.write_to(&mut result) {
            Ok(()) => {
                proof {
                    assert(Seq::<u8>::empty() + self.spec_bytes() =~= self.spec_bytes());
                }
                Ok(result)
            },
            Err(e) => Err(e),
        }
    }
}

impl Default for Database {
    /// An empty database: a lone root node with both edges unset, no data,
    /// and default metadata.
    fn default() -> (r: Database)
        ensures
            r.wf(),
            r.size_synced(),
            r.spec_nodes().len() == 1,
            r.spec_data().len() == 0,
            crate::node::spec_edge(r.spec_nodes()[0], false) is None,
            crate::node::spec_edge(r.spec_nodes()[0], true) is None,
            r.spec_metadata().record_size == RecordSize::Small,
            spec_records_fit(r.spec_nodes(), r.spec_metadata().record_size),
    {
        let mut db = Database {
            nodes: NodeTree::default(),
            data: Datastore::default(),
            metadata: Metadata::default(),
        };
        db.update_size();
        proof {
            lemma_synced_records_fit(&db);
        }
        db
    }
}

/// When the derived record width is in force and pointers stay below the
/// largest representable value, every record of the trie fits that width.
/// This is the record-width guarantee: the chosen width is the smallest of
/// the three that admits the largest possible pointer value.
pub proof fn lemma_synced_records_fit(db: &Database)
    requires
        db.wf(),
        db.size_synced(),
        db.spec_nodes().len() + db.spec_data().len() + 16 <= spec_rs_max(
            db.spec_metadata().record_size,
        ),
    ensures
        spec_records_fit(db.spec_nodes(), db.spec_metadata().record_size),
{
    let nodes = db.spec_nodes();
    let rs = db.spec_metadata().record_size;
    assert forall|i: int, bit: bool|
        0 <= i < nodes.len() implies crate::node::spec_ptr(
        #[trigger] crate::node::spec_edge(nodes[i], bit),
        nodes.len() as int,
    ) < spec_rs_max(rs) by {
        assert(crate::node::spec_target_ok(
            crate::node::spec_edge(nodes[i], bit),
            i,
            nodes.len() as int,
        ));
        assert(match crate::node::spec_edge(nodes[i], bit) {
            Some(crate::node::Target::Data(d)) => d.spec_index() < db.spec_data().len() as int,
            _ => true,
        });
    }
}

} // verus!
