//! The search trie: nodes live in a contiguous vector and point at each other
//! by index; each node carries one target per bit.  Emission walks the vector
//! in allocation order and packs both child pointers into one fixed-width
//! record.
use vstd::prelude::*;

use crate::data::DataRef;
use crate::metadata::RecordSize;
use crate::serializer::be_bytes_fixed;

verus! {

/// Index of a node in the trie's node vector.
#[derive(Clone, Copy, Debug, Eq, PartialEq, Structural)]
pub struct NodeRef {
    index: usize,
}

impl NodeRef {
    /// The node index this reference stands for.
    pub closed spec fn spec_index(self) -> int {
        self.index as int
    }

    /// Reference to the node at `index`.
    pub fn new(index: usize) -> (r: NodeRef)
        ensures
            r.spec_index() == index,
    {
        NodeRef { index }
    }

    /// The node index this reference stands for.
    pub fn index(self) -> (r: usize)
        ensures
            r == self.spec_index(),
    {
        self.index
    }
}

/// What one edge of a node points at: a child subtree or a terminal value.
/// An unset edge is an `Option::None` around this type and is emitted on
/// disk as the sentinel pointer equal to the node count.
#[derive(Clone, Copy, Debug, Eq, PartialEq, Structural)]
pub enum Target {
    Node(NodeRef),
    Data(DataRef),
}

impl Target {
    /// The pointer value emitted for this target: a node index stands as it
    /// is, a data offset is biased past the records and the separator.
    pub open spec fn spec_to_ptr(self, node_count: int) -> int {
        match self {
            Target::Node(node) => node.spec_index(),
            Target::Data(data) => node_count + 16 + data.spec_index(),
        }
    }

    /// The pointer value emitted for this target.
    pub fn to_ptr(self, node_count: usize) -> (r: usize)
        requires
            self.spec_to_ptr(node_count as int) <= usize::MAX,
        ensures
            r == self.spec_to_ptr(node_count as int),
    {
        match self {
            Target::Node(node) => node.index(),
            Target::Data(data) => data.data_section_offset(node_count),
        }
    }
}

/// One trie node: a target per bit, 0 selecting `left` and 1 `right`.
#[derive(Clone, Copy, Debug)]
pub struct Node {
    pub left: Option<Target>,
    pub right: Option<Target>,
}

/// The edge of `n` selected by `bit`.
pub open spec fn spec_edge(n: Node, bit: bool) -> Option<Target> {
    if bit {
        n.right
    } else {
        n.left
    }
}

/// The pointer value a record carries for an edge: the sentinel
/// `node_count` when the edge is unset, the target's pointer otherwise.
pub open spec fn spec_ptr(t: Option<Target>, node_count: int) -> int {
    match t {
        None => node_count,
        Some(target) => target.spec_to_ptr(node_count),
    }
}

/// A target is well formed at node `i` of an arena of `len` nodes when any
/// child it names exists and was allocated after `i`.
pub open spec fn spec_target_ok(t: Option<Target>, i: int, len: int) -> bool {
    match t {
        Some(Target::Node(n)) => i < n.spec_index() < len,
        _ => true,
    }
}

/// Arena well-formedness: the root exists and every edge points forward.
pub open spec fn spec_wf_nodes(nodes: Seq<Node>) -> bool {
    &&& 1 <= nodes.len()
    &&& forall|i: int, bit: bool|
        0 <= i < nodes.len() ==> spec_target_ok(
            #[trigger] spec_edge(nodes[i], bit),
            i,
            nodes.len() as int,
        )
}

/// Every data offset stored in the arena lies below `bound`.
pub open spec fn spec_data_bound(nodes: Seq<Node>, bound: int) -> bool {
    forall|i: int, bit: bool|
        0 <= i < nodes.len() ==> match #[trigger] spec_edge(nodes[i], bit) {
            Some(Target::Data(d)) => d.spec_index() < bound,
            _ => true,
        }
}

/// The node reached from node `i` after following the `Node` edges that
/// `path` selects; `None` when the walk leaves the arena or meets an edge
/// that is unset or terminal.
pub open spec fn spec_walk(nodes: Seq<Node>, i: int, path: Seq<bool>) -> Option<int>
    decreases path.len(),
{
    if !(0 <= i < nodes.len()) {
        None
    } else if path.len() == 0 {
        Some(i)
    } else {
        match spec_edge(nodes[i], path[0]) {
            Some(Target::Node(n)) => spec_walk(nodes, n.spec_index(), path.drop_first()),
            _ => None,
        }
    }
}

/// The data offset a reader finds for `path` from node `i`: it follows the
/// path's bits and stops at the first terminal edge; an unset edge or an
/// exhausted path yields nothing.
pub open spec fn spec_lookup(nodes: Seq<Node>, i: int, path: Seq<bool>) -> Option<int>
    decreases path.len(),
{
    if !(0 <= i < nodes.len()) || path.len() == 0 {
        None
    } else {
        match spec_edge(nodes[i], path[0]) {
            None => None,
            Some(Target::Data(d)) => Some(d.spec_index()),
            Some(Target::Node(n)) => spec_lookup(nodes, n.spec_index(), path.drop_first()),
        }
    }
}

/// The trie.  Node 0 is the root and always exists; allocation is append
/// only, so node indices never shift.
#[derive(Debug)]
pub struct NodeTree {
    nodes: Vec<Node>,
}

impl View for NodeTree {
    type V = Seq<Node>;

    closed spec fn view(&self) -> Seq<Node> {
        self.nodes@
    }
}

impl Default for NodeTree {
    /// A trie holding only an empty root node.
    fn default() -> (r: NodeTree)
        ensures
            r@.len() == 1,
            r.wf(),
            spec_edge(r@[0], false) is None,
            spec_edge(r@[0], true) is None,
            forall|bound: int| spec_data_bound(r@, bound),
    {
        let mut nodes: Vec<Node> = Vec::new();
        nodes.push(Node { left: None, right: None });
        let r = NodeTree { nodes };
        proof {
            assert forall|i1: int, b1: bool, i2: int, b2: bool, m: int|
                0 <= i1 < r@.len() && 0 <= i2 < r@.len() && !(i1 == i2 && b1 == b2)
                    && #[trigger] spec_edge_points(r@, i1, b1, m) implies !#[trigger] spec_edge_points(
                r@,
                i2,
                b2,
                m,
            ) by {
                assert(spec_edge(r@[i1], b1) is None);
            }
        }
        r
    }
}

impl NodeTree {
    /// Arena well-formedness; every tree built through this interface has it.
    pub open spec fn wf(&self) -> bool {
        spec_wf_nodes(self@) && spec_unique_refs(self@)
    }

    /// Number of nodes, the root included.
    pub fn len(&self) -> (r: usize)
        ensures
            r == self@.len(),
    {
        self.nodes.len()
    }

    /// The edge of node `index` selected by `bit`.
    pub fn edge(&self, index: usize, bit: bool) -> (r: Option<Target>)
        requires
            index < self@.len(),
        ensures
            r == spec_edge(self@[index as int], bit),
    {
        if bit {
            self.nodes[index].right
        } else {
            self.nodes[index].left
        }
    }

    /// Installs `data` at the end of `path`.  The walk descends through
    /// existing child nodes; an edge that is terminal or unset is split
    /// into a fresh node whose both children carry the old target, so the
    /// prefix it covered stays covered.  The final edge is overwritten
    /// unconditionally.  An empty path inserts nothing.
    #[verifier::loop_isolation(false)]
    #[verifier::rlimit(100)]
    #[verifier::spinoff_prover]
    pub fn insert(&mut self, path: &[bool], data: DataRef)
        requires
            old(self).wf(),
            old(self)@.len() + path@.len() <= usize::MAX,
        ensures
            final(self).wf(),
            final(self)@.len() >= old(self)@.len(),
            path@.len() == 0 ==> final(self)@ == old(self)@,
            path@.len() > 0 ==> final(self)@.len() <= old(self)@.len() + path@.len() - 1,
            path@.len() > 0 ==> spec_lookup(final(self)@, 0, path@) == Some(data.spec_index()),
            path@.len() > 0 ==> (forall|q: Seq<bool>|
                q.len() >= path@.len() ==> #[trigger] spec_lookup(final(self)@, 0, q) == (
                if path@.is_prefix_of(q) {
                    Some(data.spec_index())
                } else {
                    spec_lookup(old(self)@, 0, q)
                })),
            forall|bound: int|
                spec_data_bound(old(self)@, bound) && data.spec_index() < bound
                    ==> #[trigger] spec_data_bound(final(self)@, bound),
    {
        if path.len() == 0 {
            return ;
        }
        let mut index: usize = 0;
        let mut last_bit: bool = path[0];
        let mut k: usize = 1;
        while k < path.len()
            invariant
                1 <= k <= path@.len(),
                self.wf(),
                index < self@.len(),
                self@.len() >= old(self)@.len(),
                self@.len() <= old(self)@.len() + k - 1,
                last_bit == path@[k - 1],
                spec_walk(self@, 0, path@.take(k - 1)) == Some(index as int),
                forall|q: Seq<bool>|
                    q.len() >= k ==> #[trigger] spec_lookup(self@, 0, q) == spec_lookup(
                        old(self)@,
                        0,
                        q,
                    ),
                forall|bound: int|
                    spec_data_bound(old(self)@, bound) ==> #[trigger] spec_data_bound(self@, bound),
            decreases path@.len() - k,
        {
            let bit = path[k];
            let target = self.edge(index, last_bit);
            match target {
                Some(Target::Node(node)) => {
                    proof {
                        lemma_walk_extend(self@, 0, path@.take(k - 1), last_bit, index as int);
                        assert(path@.take(k - 1).push(last_bit) =~= path@.take(k as int));
                    }
                    index = node.index();
                },
                _ => {
                    let ghost pre = self@;
                    let old_index = index;
                    index = self.nodes.len();
                    self.nodes.push(Node { left: target, right: target });
                    let mut changed = self.nodes[old_index];
                    if last_bit {
                        changed.right = Some(Target::Node(NodeRef::new(index)));
                    } else {
                        changed.left = Some(Target::Node(NodeRef::new(index)));
                    }
                    self.nodes.set(old_index, changed);
                    proof {
                        lemma_walk_push(pre, Node { left: target, right: target }, 0, path@.take(k - 1));
                        assert(spec_wf_nodes(pre.push(Node { left: target, right: target })))
                            by {
                            assert forall|i2: int, bit2: bool|
                                0 <= i2 < pre.push(Node { left: target, right: target }).len()
                                    implies spec_target_ok(
                                #[trigger] spec_edge(
                                    pre.push(Node { left: target, right: target })[i2],
                                    bit2,
                                ),
                                i2,
                                pre.push(Node { left: target, right: target }).len() as int,
                            ) by {
                                if i2 < pre.len() {
                                    assert(pre.push(Node { left: target, right: target })[i2]
                                        == pre[i2]);
                                    assert(spec_target_ok(spec_edge(pre[i2], bit2), i2, pre.len() as int));
                                } else {
                                    assert(spec_edge(
                                        pre.push(Node { left: target, right: target })[i2],
                                        bit2,
                                    ) == target);
                                }
                            }
                        }
                        lemma_walk_update_end(
                            pre.push(Node { left: target, right: target }),
                            0,
                            path@.take(k - 1),
                            old_index as int,
                            changed,
                        );
                        assert(self@ == pre.push(Node { left: target, right: target }).update(
                            old_index as int,
                            changed,
                        ));
                        assert(spec_walk(self@, 0, path@.take(k - 1)) == Some(old_index as int));
                        assert(spec_edge(self@[old_index as int], last_bit) matches Some(
                            Target::Node(n),
                        ) && n.spec_index() == index);
                        let ns = self@;
                        assert forall|i2: int, bit2: bool| 0 <= i2 < ns.len() implies spec_target_ok(
                            #[trigger] spec_edge(ns[i2], bit2),
                            i2,
                            ns.len() as int,
                        ) by {
                            if i2 == old_index {
                                assert(spec_edge(ns[i2], !last_bit) == spec_edge(pre[i2], !last_bit));
                            } else if i2 == index {
                                assert(spec_edge(ns[i2], bit2) == target);
                            } else {
                                assert(ns[i2] == pre[i2]);
                            }
                        }
                        assert forall|bound: int|
                            spec_data_bound(old(self)@, bound) implies #[trigger] spec_data_bound(
                            ns,
                            bound,
                        ) by {
                            assert(spec_data_bound(pre, bound));
                            assert forall|i2: int, bit2: bool| 0 <= i2 < ns.len() implies match #[trigger] spec_edge(
                                ns[i2],
                                bit2,
                            ) {
                                Some(Target::Data(d)) => d.spec_index() < bound,
                                _ => true,
                            } by {
                                if i2 == old_index {
                                    assert(spec_edge(ns[i2], !last_bit) == spec_edge(
                                        pre[i2],
                                        !last_bit,
                                    ));
                                } else if i2 == index {
                                    assert(spec_edge(ns[i2], bit2) == target);
                                    assert(spec_edge(pre[old_index as int], last_bit) == target);
                                } else {
                                    assert(ns[i2] == pre[i2]);
                                }
                            }
                        }
                        lemma_walk_extend(ns, 0, path@.take(k - 1), last_bit, old_index as int);
                        assert(path@.take(k - 1).push(last_bit) =~= path@.take(k as int));
                        assert forall|i1: int, b1: bool, i2: int, b2: bool, mm: int|
                            0 <= i1 < ns.len() && 0 <= i2 < ns.len() && !(i1 == i2 && b1 == b2)
                                && #[trigger] spec_edge_points(ns, i1, b1, mm)
                                implies !#[trigger] spec_edge_points(ns, i2, b2, mm) by {
                            if spec_edge_points(ns, i2, b2, mm) {
                                if i1 == old_index && b1 == last_bit {
                                    assert(mm == index as int);
                                    if i2 == old_index {
                                        assert(spec_edge(ns[i2], b2) == spec_edge(pre[i2], b2));
                                        assert(spec_target_ok(
                                            spec_edge(pre[i2], b2),
                                            i2,
                                            pre.len() as int,
                                        ));
                                    } else if i2 == index as int {
                                        assert(spec_edge(ns[i2], b2) == target);
                                    } else {
                                        assert(ns[i2] == pre[i2]);
                                        assert(spec_target_ok(
                                            spec_edge(pre[i2], b2),
                                            i2,
                                            pre.len() as int,
                                        ));
                                    }
                                } else if i1 == index as int {
                                    assert(spec_edge(ns[i1], b1) == target);
                                } else {
                                    assert(spec_edge(ns[i1], b1) == spec_edge(pre[i1], b1));
                                    assert(spec_edge_points(pre, i1, b1, mm));
                                    assert(spec_target_ok(
                                        spec_edge(pre[i1], b1),
                                        i1,
                                        pre.len() as int,
                                    ));
                                    if i2 == old_index && b2 == last_bit {
                                        assert(mm == index as int);
                                    } else if i2 == index as int {
                                        assert(spec_edge(ns[i2], b2) == target);
                                    } else {
                                        assert(spec_edge(ns[i2], b2) == spec_edge(pre[i2], b2));
                                        assert(spec_edge_points(pre, i2, b2, mm));
                                    }
                                }
                            }
                        }
                        assert(index == pre.len());
                        assert(changed == spec_set_edge(
                            pre[old_index as int],
                            last_bit,
                            Some(Target::Node(NodeRef { index: pre.len() as usize })),
                        ));
                        assert forall|q: Seq<bool>|
                            q.len() >= k + 1 implies #[trigger] spec_lookup(ns, 0, q)
                            == spec_lookup(old(self)@, 0, q) by {
                            lemma_split_edge(
                                pre,
                                path@.take(k - 1),
                                last_bit,
                                old_index as int,
                                q,
                            );
                            assert(ns == pre.push(Node { left: target, right: target }).update(
                                old_index as int,
                                spec_set_edge(
                                    pre[old_index as int],
                                    last_bit,
                                    Some(Target::Node(NodeRef { index: pre.len() as usize })),
                                ),
                            ));
                            assert(spec_lookup(ns, 0, q) == spec_lookup(pre, 0, q));
                            assert(spec_lookup(pre, 0, q) == spec_lookup(old(self)@, 0, q));
                        }
                    }
                },
            }
            last_bit = bit;
            k += 1;
        }
        let ghost pre = self@;
        let mut changed = self.nodes[index];
        if last_bit {
            changed.right = Some(Target::Data(data));
        } else {
            changed.left = Some(Target::Data(data));
        }
        self.nodes.set(index, changed);
        proof {
            lemma_walk_update_end(pre, 0, path@.take(k - 1), index as int, changed);
            let ns = self@;
            assert forall|i2: int, bit2: bool| 0 <= i2 < ns.len() implies spec_target_ok(
                #[trigger] spec_edge(ns[i2], bit2),
                i2,
                ns.len() as int,
            ) by {
                if i2 == index {
                    assert(spec_edge(ns[i2], !last_bit) == spec_edge(pre[i2], !last_bit));
                } else {
                    assert(ns[i2] == pre[i2]);
                }
            }
            assert forall|i1: int, b1: bool, i2: int, b2: bool, mm: int|
                0 <= i1 < ns.len() && 0 <= i2 < ns.len() && !(i1 == i2 && b1 == b2)
                    && #[trigger] spec_edge_points(ns, i1, b1, mm)
                    implies !#[trigger] spec_edge_points(ns, i2, b2, mm) by {
                if spec_edge_points(ns, i2, b2, mm) {
                    if i1 == index && b1 == last_bit {
                        assert(spec_edge(ns[i1], b1) == Some(Target::Data(data)));
                    } else if i2 == index && b2 == last_bit {
                        assert(spec_edge(ns[i2], b2) == Some(Target::Data(data)));
                    } else {
                        assert(spec_edge(ns[i1], b1) == spec_edge(pre[i1], b1));
                        assert(spec_edge(ns[i2], b2) == spec_edge(pre[i2], b2));
                        assert(spec_edge_points(pre, i1, b1, mm));
                        assert(spec_edge_points(pre, i2, b2, mm));
                    }
                }
            }
            assert(changed == spec_set_edge(
                pre[index as int],
                last_bit,
                Some(Target::Data(data)),
            ));
            assert(path@.take(k - 1).push(last_bit) =~= path@);
            assert forall|q: Seq<bool>|
                q.len() >= path@.len() implies #[trigger] spec_lookup(ns, 0, q) == (
            if path@.is_prefix_of(q) {
                Some(data.spec_index())
            } else {
                spec_lookup(old(self)@, 0, q)
            }) by {
                lemma_update_data_edge(pre, path@.take(k - 1), last_bit, index as int, data, q);
                assert(ns == pre.update(
                    index as int,
                    spec_set_edge(pre[index as int], last_bit, Some(Target::Data(data))),
                ));
                if !path@.is_prefix_of(q) {
                    assert(spec_lookup(pre, 0, q) == spec_lookup(old(self)@, 0, q));
                }
            }
            lemma_lookup_split(
                ns,
                0,
                path@.take(k - 1),
                seq![path@[k - 1]],
                index as int,
            );
            assert(path@.take(k - 1) + seq![path@[k - 1]] =~= path@);
            assert(spec_edge(ns[index as int], last_bit) == Some(Target::Data(data)));
            assert(spec_lookup(ns, index as int, seq![path@[k - 1]]) == Some(data.spec_index()));
            assert forall|bound: int|
                spec_data_bound(old(self)@, bound) && data.spec_index() < bound
                    implies #[trigger] spec_data_bound(ns, bound) by {
                assert(spec_data_bound(pre, bound));
                assert forall|i2: int, bit2: bool| 0 <= i2 < ns.len() implies match #[trigger] spec_edge(
                    ns[i2],
                    bit2,
                ) {
                    Some(Target::Data(d)) => d.spec_index() < bound,
                    _ => true,
                } by {
                    if i2 == index {
                        assert(spec_edge(ns[i2], !last_bit) == spec_edge(pre[i2], !last_bit));
                    } else {
                        assert(ns[i2] == pre[i2]);
                    }
                }
            }
        }
    }
}

impl NodeTree {
    /// Appends one record per node, in allocation order, at width
    /// `record_size`.  Callers pick a width that admits every pointer.
    #[verifier::loop_isolation(false)]
    pub fn write_to(&self, out: &mut Vec<u8>, record_size: RecordSize)
        requires
            spec_records_fit(self@, record_size),
        ensures
            final(out)@ == old(out)@ + spec_records(self@, self@.len() as int, record_size),
    {
        let node_count = self.nodes.len();
        let mut i: usize = 0;
        while i < self.nodes.len()
            invariant
                i <= self@.len(),
                out@ == old(out)@ + spec_records(
                    self@.take(i as int),
                    self@.len() as int,
                    record_size,
                ),
            decreases self@.len() - i,
        {
            proof {
                assert(spec_ptr(spec_edge(self@[i as int], false), self@.len() as int)
                    < spec_rs_max(record_size));
                assert(spec_ptr(spec_edge(self@[i as int], true), self@.len() as int)
                    < spec_rs_max(record_size));
            }
            write_record(out, self.nodes[i], node_count, record_size);
            proof {
                lemma_records_push(
                    self@.take(i as int),
                    self@[i as int],
                    self@.len() as int,
                    record_size,
                );
                assert(self@.take(i as int).push(self@[i as int]) =~= self@.take(i as int + 1));
                assert(out@ =~= old(out)@ + spec_records(
                    self@.take(i as int + 1),
                    self@.len() as int,
                    record_size,
                ));
            }
            i += 1;
        }
        proof {
            assert(self@.take(self@.len() as int) =~= self@);
        }
    }
}

/// Exclusive upper bound on pointer values a record of width `rs` can hold.
pub open spec fn spec_rs_max(rs: RecordSize) -> int {
    match rs {
        RecordSize::Small => 0x100_0000,
        RecordSize::Medium => 0x1000_0000,
        RecordSize::Large => 0x1_0000_0000,
    }
}

/// The bytes of one record: both pointers packed at width `rs`.  At 24 and
/// 32 bits each pointer takes whole big-endian bytes; at 28 bits the low 24
/// bits of each pointer take three whole bytes and the middle byte carries
/// the two high nibbles, the left pointer's in its upper half.
pub open spec fn spec_record_bytes(rs: RecordSize, l: int, r: int) -> Seq<u8> {
    match rs {
        RecordSize::Small => be_bytes_fixed(l as nat, 3) + be_bytes_fixed(r as nat, 3),
        RecordSize::Medium => seq![
            ((l / 0x1_0000) % 256) as u8,
            ((l / 256) % 256) as u8,
            (l % 256) as u8,
            (((l / 0x100_0000) % 16) * 16 + (r / 0x100_0000) % 16) as u8,
            ((r / 0x1_0000) % 256) as u8,
            ((r / 256) % 256) as u8,
            (r % 256) as u8,
        ],
        RecordSize::Large => be_bytes_fixed(l as nat, 4) + be_bytes_fixed(r as nat, 4),
    }
}

/// The record of one node in an arena of `node_count` nodes.
pub open spec fn spec_node_record(n: Node, node_count: int, rs: RecordSize) -> Seq<u8> {
    spec_record_bytes(rs, spec_ptr(n.left, node_count), spec_ptr(n.right, node_count))
}

/// The concatenated records of `nodes`, in allocation order.
pub open spec fn spec_records(nodes: Seq<Node>, node_count: int, rs: RecordSize) -> Seq<u8>
    decreases nodes.len(),
{
    if nodes.len() == 0 {
        Seq::empty()
    } else {
        spec_node_record(nodes[0], node_count, rs) + spec_records(nodes.drop_first(), node_count, rs)
    }
}

/// Whether every pointer the arena would emit fits in a record of width `rs`.
pub open spec fn spec_records_fit(nodes: Seq<Node>, rs: RecordSize) -> bool {
    forall|i: int, bit: bool|
        0 <= i < nodes.len() ==> spec_ptr(#[trigger] spec_edge(nodes[i], bit), nodes.len() as int)
            < spec_rs_max(rs)
}

/// Record stream extended by one node's record.
proof fn lemma_records_push(s: Seq<Node>, x: Node, node_count: int, rs: RecordSize)
    ensures
        spec_records(s.push(x), node_count, rs) == spec_records(s, node_count, rs)
            + spec_node_record(x, node_count, rs),
    decreases s.len(),
{
    if s.len() == 0 {
        assert(s.push(x).drop_first() =~= Seq::<Node>::empty());
        assert(s.push(x)[0] == x);
        assert(spec_records(Seq::<Node>::empty(), node_count, rs) == Seq::<u8>::empty());
        assert(spec_records(s, node_count, rs) == Seq::<u8>::empty());
        assert(spec_node_record(x, node_count, rs) + Seq::<u8>::empty() =~= spec_node_record(
            x,
            node_count,
            rs,
        ));
        assert(spec_records(s, node_count, rs) + spec_node_record(x, node_count, rs)
            =~= spec_node_record(x, node_count, rs));
    } else {
        lemma_records_push(s.drop_first(), x, node_count, rs);
        assert(s.push(x).drop_first() =~= s.drop_first().push(x));
        assert(s.push(x)[0] == s[0]);
        assert((spec_node_record(s[0], node_count, rs) + spec_records(
            s.drop_first(),
            node_count,
            rs,
        )) + spec_node_record(x, node_count, rs) =~= spec_node_record(s[0], node_count, rs) + (
        spec_records(s.drop_first(), node_count, rs) + spec_node_record(x, node_count, rs)));
    }
}

/// The pointer value of one edge, sentinel included.
fn edge_ptr(t: Option<Target>, node_count: usize) -> (r: usize)
    requires
        spec_ptr(t, node_count as int) <= usize::MAX,
    ensures
        r == spec_ptr(t, node_count as int),
{
    match t {
        None => node_count,
        Some(target) => target.to_ptr(node_count),
    }
}

/// Appends the record of one node at width `record_size`.
fn write_record(out: &mut Vec<u8>, n: Node, node_count: usize, record_size: RecordSize)
    requires
        spec_ptr(n.left, node_count as int) < spec_rs_max(record_size),
        spec_ptr(n.right, node_count as int) < spec_rs_max(record_size),
    ensures
        final(out)@ == old(out)@ + spec_node_record(n, node_count as int, record_size),
{
    let l = edge_ptr(n.left, node_count);
    let r = edge_ptr(n.right, node_count);
    match record_size {
        RecordSize::Small => {
            out.push((l / 0x1_0000) as u8);
            out.push(((l / 256) % 256) as u8);
            out.push((l % 256) as u8);
            out.push((r / 0x1_0000) as u8);
            out.push(((r / 256) % 256) as u8);
            out.push((r % 256) as u8);
            proof {
                reveal_with_fuel(be_bytes_fixed, 4);
                assert(out@ =~= old(out)@ + spec_node_record(n, node_count as int, record_size));
            }
        },
        RecordSize::Medium => {
            out.push(((l / 0x1_0000) % 256) as u8);
            out.push(((l / 256) % 256) as u8);
            out.push((l % 256) as u8);
            out.push(((l / 0x100_0000) * 16 + (r / 0x100_0000)) as u8);
            out.push(((r / 0x1_0000) % 256) as u8);
            out.push(((r / 256) % 256) as u8);
            out.push((r % 256) as u8);
            proof {
                assert(out@ =~= old(out)@ + spec_node_record(n, node_count as int, record_size));
            }
        },
        RecordSize::Large => {
            crate::serializer::push_be4(out, l as u32);
            crate::serializer::push_be4(out, r as u32);
            proof {
                assert(out@ =~= old(out)@ + spec_node_record(n, node_count as int, record_size));
            }
        },
    }
}


/// A walk stays inside the arena and, over at least one bit, strictly
/// ascends the allocation order.
proof fn lemma_walk_bounds(nodes: Seq<Node>, i: int, p: Seq<bool>)
    requires
        spec_wf_nodes(nodes),
        0 <= i < nodes.len(),
        spec_walk(nodes, i, p) is Some,
    ensures
        i <= spec_walk(nodes, i, p)->0 < nodes.len(),
        p.len() > 0 ==> i < spec_walk(nodes, i, p)->0,
    decreases p.len(),
{
    if p.len() > 0 {
        match spec_edge(nodes[i], p[0]) {
            Some(Target::Node(n)) => {
                assert(spec_target_ok(spec_edge(nodes[i], p[0]), i, nodes.len() as int));
                lemma_walk_bounds(nodes, n.spec_index(), p.drop_first());
            },
            _ => {},
        }
    }
}

/// Appending a node to the arena changes no existing walk.
proof fn lemma_walk_push(nodes: Seq<Node>, x: Node, i: int, p: Seq<bool>)
    requires
        spec_wf_nodes(nodes),
        0 <= i < nodes.len(),
    ensures
        spec_walk(nodes.push(x), i, p) == spec_walk(nodes, i, p),
    decreases p.len(),
{
    if p.len() > 0 {
        assert(nodes.push(x)[i] == nodes[i]);
        match spec_edge(nodes[i], p[0]) {
            Some(Target::Node(n)) => {
                assert(spec_target_ok(spec_edge(nodes[i], p[0]), i, nodes.len() as int));
                lemma_walk_push(nodes, x, n.spec_index(), p.drop_first());
            },
            _ => {},
        }
    }
}

/// Replacing the node a walk ends at leaves the walk itself unchanged: the
/// nodes it reads on the way all come earlier in allocation order.
proof fn lemma_walk_update_end(nodes: Seq<Node>, i: int, p: Seq<bool>, m: int, nn: Node)
    requires
        spec_wf_nodes(nodes),
        0 <= i < nodes.len(),
        spec_walk(nodes, i, p) == Some(m),
    ensures
        spec_walk(nodes.update(m, nn), i, p) == Some(m),
    decreases p.len(),
{
    lemma_walk_bounds(nodes, i, p);
    if p.len() == 0 {
    } else {
        assert(i < m);
        assert(nodes.update(m, nn)[i] == nodes[i]);
        match spec_edge(nodes[i], p[0]) {
            Some(Target::Node(n)) => {
                assert(spec_target_ok(spec_edge(nodes[i], p[0]), i, nodes.len() as int));
                lemma_walk_update_end(nodes, n.spec_index(), p.drop_first(), m, nn);
            },
            _ => {},
        }
    }
}

/// A walk extends by one bit through a child edge.
proof fn lemma_walk_extend(nodes: Seq<Node>, i: int, p: Seq<bool>, b: bool, m: int)
    requires
        spec_wf_nodes(nodes),
        0 <= i < nodes.len(),
        spec_walk(nodes, i, p) == Some(m),
        spec_edge(nodes[m], b) matches Some(Target::Node(n)),
    ensures
        spec_walk(nodes, i, p.push(b)) == Some(
            (spec_edge(nodes[m], b)->Some_0)->Node_0.spec_index(),
        ),
    decreases p.len(),
{
    reveal_with_fuel(spec_walk, 3);
    lemma_walk_bounds(nodes, i, p);
    assert(spec_target_ok(spec_edge(nodes[m], b), m, nodes.len() as int));
    if p.len() == 0 {
        assert(m == i);
        assert(p.push(b)[0] == b);
        assert(p.push(b).drop_first() =~= Seq::<bool>::empty());
    } else {
        assert(p.push(b)[0] == p[0]);
        assert(p.push(b).drop_first() =~= p.drop_first().push(b));
        match spec_edge(nodes[i], p[0]) {
            Some(Target::Node(n)) => {
                assert(spec_target_ok(spec_edge(nodes[i], p[0]), i, nodes.len() as int));
                lemma_walk_extend(nodes, n.spec_index(), p.drop_first(), b, m);
            },
            _ => {},
        }
    }
}

/// A lookup along a concatenated path first walks the front part, then
/// looks the rest up from where the walk ended.
proof fn lemma_lookup_split(nodes: Seq<Node>, i: int, p: Seq<bool>, q: Seq<bool>, m: int)
    requires
        spec_wf_nodes(nodes),
        0 <= i < nodes.len(),
        spec_walk(nodes, i, p) == Some(m),
        q.len() >= 1,
    ensures
        spec_lookup(nodes, i, p + q) == spec_lookup(nodes, m, q),
    decreases p.len(),
{
    lemma_walk_bounds(nodes, i, p);
    if p.len() == 0 {
        assert(p + q =~= q);
    } else {
        assert((p + q)[0] == p[0]);
        assert((p + q).drop_first() =~= p.drop_first() + q);
        match spec_edge(nodes[i], p[0]) {
            Some(Target::Node(n)) => {
                assert(spec_target_ok(spec_edge(nodes[i], p[0]), i, nodes.len() as int));
                lemma_lookup_split(nodes, n.spec_index(), p.drop_first(), q, m);
            },
            _ => {},
        }
    }
}


/// `n` with its `bit` edge replaced by `t`.
pub open spec fn spec_set_edge(n: Node, bit: bool, t: Option<Target>) -> Node {
    if bit {
        Node { left: n.left, right: t }
    } else {
        Node { left: t, right: n.right }
    }
}

/// Whether the `bit` edge of node `i` points at node `m`.
pub open spec fn spec_edge_points(nodes: Seq<Node>, i: int, bit: bool, m: int) -> bool {
    match spec_edge(nodes[i], bit) {
        Some(Target::Node(n)) => n.spec_index() == m,
        _ => false,
    }
}

/// No two edges of the arena name the same child: every node has at most
/// one parent, so the arena is a forest and each node is reached from the
/// root by at most one path.
pub open spec fn spec_unique_refs(nodes: Seq<Node>) -> bool {
    forall|i1: int, b1: bool, i2: int, b2: bool, m: int|
        0 <= i1 < nodes.len() && 0 <= i2 < nodes.len() && !(i1 == i2 && b1 == b2)
            && #[trigger] spec_edge_points(nodes, i1, b1, m) ==> !#[trigger] spec_edge_points(
            nodes,
            i2,
            b2,
            m,
        )
}

/// A walk of at least one bit ends by crossing an edge that names its
/// destination: the walk one bit shorter ends at that edge's node.
proof fn lemma_walk_last(nodes: Seq<Node>, r: int, s: Seq<bool>, m: int)
    requires
        spec_wf_nodes(nodes),
        0 <= r < nodes.len(),
        s.len() > 0,
        spec_walk(nodes, r, s) == Some(m),
    ensures
        spec_walk(nodes, r, s.drop_last()) is Some,
        spec_edge_points(nodes, spec_walk(nodes, r, s.drop_last())->0, s.last(), m),
    decreases s.len(),
{
    reveal_with_fuel(spec_walk, 3);
    if s.len() == 1 {
        assert(s.drop_last() =~= Seq::<bool>::empty());
        match spec_edge(nodes[r], s[0]) {
            Some(Target::Node(n)) => {
                assert(s.drop_first() =~= Seq::<bool>::empty());
                assert(spec_target_ok(spec_edge(nodes[r], s[0]), r, nodes.len() as int));
            },
            _ => {},
        }
    } else {
        match spec_edge(nodes[r], s[0]) {
            Some(Target::Node(n)) => {
                assert(spec_target_ok(spec_edge(nodes[r], s[0]), r, nodes.len() as int));
                lemma_walk_last(nodes, n.spec_index(), s.drop_first(), m);
                assert(s.drop_last()[0] == s[0]);
                assert(s.drop_last().drop_first() =~= s.drop_first().drop_last());
                assert(s.drop_first().last() == s.last());
            },
            _ => {},
        }
    }
}

/// With unique parents, two walks from the same start that end at the same
/// node follow the same bits.
proof fn lemma_walk_unique(nodes: Seq<Node>, r: int, s1: Seq<bool>, s2: Seq<bool>, m: int)
    requires
        spec_wf_nodes(nodes),
        spec_unique_refs(nodes),
        0 <= r < nodes.len(),
        spec_walk(nodes, r, s1) == Some(m),
        spec_walk(nodes, r, s2) == Some(m),
    ensures
        s1 == s2,
    decreases s1.len(),
{
    lemma_walk_bounds(nodes, r, s1);
    lemma_walk_bounds(nodes, r, s2);
    if s1.len() == 0 {
        assert(m == r);
        if s2.len() > 0 {
            assert(false);
        }
        assert(s1 =~= s2);
    } else {
        assert(s2.len() > 0) by {
            if s2.len() == 0 {
                assert(m == r);
            }
        }
        lemma_walk_last(nodes, r, s1, m);
        lemma_walk_last(nodes, r, s2, m);
        let w1 = spec_walk(nodes, r, s1.drop_last())->0;
        let w2 = spec_walk(nodes, r, s2.drop_last())->0;
        lemma_walk_bounds(nodes, r, s1.drop_last());
        lemma_walk_bounds(nodes, r, s2.drop_last());
        assert(w1 == w2 && s1.last() == s2.last()) by {
            if !(w1 == w2 && s1.last() == s2.last()) {
                assert(spec_edge_points(nodes, w1, s1.last(), m));
                assert(spec_edge_points(nodes, w2, s2.last(), m));
            }
        }
        lemma_walk_unique(nodes, r, s1.drop_last(), s2.drop_last(), w1);
        assert(s1 =~= s2) by {
            assert(s1.len() == s2.len());
            assert(forall|i: int|
                0 <= i < s1.len() - 1 ==> s1[i] == s1.drop_last()[i] && s2[i] == s2.drop_last()[i]);
        }
    }
}

/// An arena that agrees with `nodes` on every original node but `m`, where
/// only the `b` edge differs, yields the same outcome for every lookup
/// whose walk never stands at `m` about to take `b`.
proof fn lemma_lookup_frame(
    nodes: Seq<Node>,
    nodes2: Seq<Node>,
    m: int,
    b: bool,
    v: int,
    s: Seq<bool>,
)
    requires
        spec_wf_nodes(nodes),
        0 <= v < nodes.len(),
        0 <= m < nodes.len(),
        nodes2.len() >= nodes.len(),
        forall|i: int| 0 <= i < nodes.len() && i != m ==> nodes2[i] == nodes[i],
        spec_edge(nodes2[m], !b) == spec_edge(nodes[m], !b),
        forall|k: int|
            0 <= k < s.len() && #[trigger] spec_walk(nodes, v, s.take(k)) == Some(m) ==> s[k] != b,
    ensures
        spec_lookup(nodes2, v, s) == spec_lookup(nodes, v, s),
    decreases s.len(),
{
    if s.len() > 0 {
        assert(s.take(0) =~= Seq::<bool>::empty());
        assert(spec_walk(nodes, v, s.take(0)) == Some(v));
        assert(spec_edge(nodes2[v], s[0]) == spec_edge(nodes[v], s[0])) by {
            if v == m {
                assert(s[0] != b);
            }
        }
        match spec_edge(nodes[v], s[0]) {
            Some(Target::Node(n)) => {
                assert(spec_target_ok(spec_edge(nodes[v], s[0]), v, nodes.len() as int));
                let j = n.spec_index();
                assert forall|k: int|
                    0 <= k < s.drop_first().len() && #[trigger] spec_walk(
                        nodes,
                        j,
                        s.drop_first().take(k),
                    ) == Some(m) implies s.drop_first()[k] != b by {
                    assert(s.take(k + 1)[0] == s[0]);
                    assert(s.take(k + 1).drop_first() =~= s.drop_first().take(k));
                    assert(spec_walk(nodes, v, s.take(k + 1)) == Some(m));
                }
                lemma_lookup_frame(nodes, nodes2, m, b, j, s.drop_first());
            },
            _ => {},
        }
    }
}

/// The effect of replacing one edge of node `m` with a terminal target, on
/// every lookup from the root: a path that runs through the changed edge
/// now finds the new value; every other path is untouched.  `path` is the
/// unique way the root reaches `m`.
proof fn lemma_update_data_edge(
    nodes: Seq<Node>,
    path: Seq<bool>,
    b: bool,
    m: int,
    d: DataRef,
    q: Seq<bool>,
)
    requires
        spec_wf_nodes(nodes),
        spec_unique_refs(nodes),
        spec_walk(nodes, 0, path) == Some(m),
        q.len() > 0,
    ensures
        spec_lookup(
            nodes.update(m, spec_set_edge(nodes[m], b, Some(Target::Data(d)))),
            0,
            q,
        ) == if path.push(b).is_prefix_of(q) {
            Some(d.spec_index())
        } else {
            spec_lookup(nodes, 0, q)
        },
{
    lemma_walk_bounds(nodes, 0, path);
    let nn = spec_set_edge(nodes[m], b, Some(Target::Data(d)));
    let nodes2 = nodes.update(m, nn);
    assert(spec_wf_nodes(nodes2)) by {
        assert forall|i2: int, bit2: bool| 0 <= i2 < nodes2.len() implies spec_target_ok(
            #[trigger] spec_edge(nodes2[i2], bit2),
            i2,
            nodes2.len() as int,
        ) by {
            if i2 == m && bit2 == b {
            } else {
                assert(spec_edge(nodes2[i2], bit2) == spec_edge(nodes[i2], bit2));
                assert(spec_target_ok(spec_edge(nodes[i2], bit2), i2, nodes.len() as int));
            }
        }
    }
    if path.push(b).is_prefix_of(q) {
        lemma_walk_update_end(nodes, 0, path, m, nn);
        let rest = q.skip(path.len() as int);
        assert(path.push(b) =~= q.subrange(0, (path.len() + 1) as int));
        assert forall|i: int| 0 <= i < path.len() implies path[i] == q[i] by {
            assert(path.push(b)[i] == path[i]);
            assert(q.subrange(0, (path.len() + 1) as int)[i] == q[i]);
        }
        assert(q[path.len() as int] == b) by {
            assert(path.push(b)[path.len() as int] == b);
            assert(q.subrange(0, (path.len() + 1) as int)[path.len() as int] == q[path.len() as int]);
        }
        assert(rest.len() >= 1);
        assert(path + rest =~= q);
        assert(rest[0] == b);
        lemma_lookup_split(nodes2, 0, path, rest, m);
        assert(spec_edge(nodes2[m], b) == Some(Target::Data(d)));
    } else {
        assert forall|k: int|
            0 <= k < q.len() && #[trigger] spec_walk(nodes, 0, q.take(k)) == Some(m) implies q[k]
            != b by {
            lemma_walk_unique(nodes, 0, q.take(k), path, m);
            assert(q.take(k).len() == k);
            if q[k] == b {
                assert(path.push(b) =~= q.take(k + 1));
                assert(q.take(k + 1).is_prefix_of(q));
            }
        }
        lemma_lookup_frame(nodes, nodes2, m, b, 0, q);
    }
}

/// The effect of splitting the `b` edge of node `m` into a fresh node whose
/// both children carry the old target: every lookup of at least one more
/// bit than the walk to the edge is untouched; the covered range keeps its
/// value through the copies.  `path` is the unique way the root reaches `m`.
proof fn lemma_split_edge(nodes: Seq<Node>, path: Seq<bool>, b: bool, m: int, q: Seq<bool>)
    requires
        spec_wf_nodes(nodes),
        spec_unique_refs(nodes),
        spec_walk(nodes, 0, path) == Some(m),
        !(spec_edge(nodes[m], b) matches Some(Target::Node(n))),
        q.len() > path.len() + 1,
        nodes.len() < usize::MAX,
    ensures
        ({
            let fresh = Node {
                left: spec_edge(nodes[m], b),
                right: spec_edge(nodes[m], b),
            };
            let nodes2 = nodes.push(fresh).update(
                m,
                spec_set_edge(
                    nodes[m],
                    b,
                    Some(Target::Node(NodeRef { index: nodes.len() as usize })),
                ),
            );
            spec_lookup(nodes2, 0, q) == spec_lookup(nodes, 0, q)
        }),
{
    lemma_walk_bounds(nodes, 0, path);
    let t = spec_edge(nodes[m], b);
    let fresh = Node { left: t, right: t };
    let nr = NodeRef { index: nodes.len() as usize };
    assert(nr.spec_index() == nodes.len() as int);
    let nn = spec_set_edge(nodes[m], b, Some(Target::Node(nr)));
    let nodes2 = nodes.push(fresh).update(m, nn);
    if path.push(b).is_prefix_of(q) {
        // the walk to the split edge is intact, and behind it both copies
        // carry the old target
        lemma_walk_push(nodes, fresh, 0, path);
        assert(spec_wf_nodes(nodes.push(fresh))) by {
            assert forall|i2: int, bit2: bool| 0 <= i2 < nodes.push(fresh).len() implies
                spec_target_ok(
                #[trigger] spec_edge(nodes.push(fresh)[i2], bit2),
                i2,
                nodes.push(fresh).len() as int,
            ) by {
                if i2 < nodes.len() {
                    assert(nodes.push(fresh)[i2] == nodes[i2]);
                    assert(spec_target_ok(spec_edge(nodes[i2], bit2), i2, nodes.len() as int));
                } else {
                    assert(spec_edge(nodes.push(fresh)[i2], bit2) == t);
                }
            }
        }
        lemma_walk_update_end(nodes.push(fresh), 0, path, m, nn);
        assert(spec_wf_nodes(nodes2)) by {
            assert forall|i2: int, bit2: bool| 0 <= i2 < nodes2.len() implies spec_target_ok(
                #[trigger] spec_edge(nodes2[i2], bit2),
                i2,
                nodes2.len() as int,
            ) by {
                if i2 == m {
                    if bit2 == b {
                    } else {
                        assert(spec_edge(nodes2[i2], bit2) == spec_edge(nodes[i2], bit2));
                        assert(spec_target_ok(spec_edge(nodes[i2], bit2), i2, nodes.len() as int));
                    }
                } else if i2 < nodes.len() {
                    assert(nodes2[i2] == nodes[i2]);
                    assert(spec_target_ok(spec_edge(nodes[i2], bit2), i2, nodes.len() as int));
                } else {
                    assert(spec_edge(nodes2[i2], bit2) == t);
                }
            }
        }
        let rest = q.skip(path.len() as int);
        assert(path.push(b) =~= q.subrange(0, (path.len() + 1) as int));
        assert forall|i: int| 0 <= i < path.len() implies path[i] == q[i] by {
            assert(path.push(b)[i] == path[i]);
            assert(q.subrange(0, (path.len() + 1) as int)[i] == q[i]);
        }
        assert(q[path.len() as int] == b) by {
            assert(path.push(b)[path.len() as int] == b);
            assert(q.subrange(0, (path.len() + 1) as int)[path.len() as int] == q[path.len() as int]);
        }
        assert(path + rest =~= q);
        assert(rest.len() >= 2);
        assert(rest[0] == b);
        lemma_lookup_split(nodes2, 0, path, rest, m);
        lemma_lookup_split(nodes, 0, path, rest, m);
        // in the old arena the edge is terminal or unset; in the new one it
        // leads to the fresh node, whose next edge carries the same target
        assert(spec_edge(nodes2[m], b) == Some(Target::Node(nr)));
        assert(nodes2[nodes.len() as int] == fresh);
        assert(spec_lookup(nodes2, m, rest) == spec_lookup(
            nodes2,
            nodes.len() as int,
            rest.drop_first(),
        ));
        assert(rest.drop_first().len() >= 1);
        assert(spec_edge(fresh, rest.drop_first()[0]) == t);
        match t {
            Some(Target::Data(dd)) => {
                assert(spec_lookup(nodes, m, rest) == Some(dd.spec_index()));
                assert(spec_lookup(nodes2, nodes.len() as int, rest.drop_first()) == Some(
                    dd.spec_index(),
                ));
            },
            None => {
                assert(spec_lookup(nodes, m, rest) is None);
                assert(spec_lookup(nodes2, nodes.len() as int, rest.drop_first()) is None);
            },
            _ => {},
        }
    } else {
        assert forall|k: int|
            0 <= k < q.len() && #[trigger] spec_walk(nodes, 0, q.take(k)) == Some(m) implies q[k]
            != b by {
            lemma_walk_unique(nodes, 0, q.take(k), path, m);
            assert(q.take(k).len() == k);
            if q[k] == b {
                assert(path.push(b) =~= q.take(k + 1));
                assert(q.take(k + 1).is_prefix_of(q));
            }
        }
        assert(spec_edge(nodes2[m], !b) == spec_edge(nodes[m], !b));
        lemma_lookup_frame(nodes, nodes2, m, b, 0, q);
    }
}

} // verus!
