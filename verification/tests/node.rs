use maxminddb_writer::data::DataRef;
use maxminddb_writer::node::{NodeTree, Target};

#[test]
fn test_insert_to_empty() {
    let mut tree = NodeTree::default();
    assert_eq!(tree.len(), 1);
    tree.insert(&[false], DataRef::new(0));
    assert_eq!(tree.len(), 1);
    assert_eq!(tree.edge(0, false), Some(Target::Data(DataRef::new(0))));
    assert_eq!(tree.edge(0, true), None);

    tree.insert(&[true], DataRef::new(1));
    assert_eq!(tree.len(), 1);
    assert_eq!(tree.edge(0, false), Some(Target::Data(DataRef::new(0))));
    assert_eq!(tree.edge(0, true), Some(Target::Data(DataRef::new(1))));
}

#[test]
fn test_insert_splits_data_edge() {
    let mut tree = NodeTree::default();
    tree.insert(&[false], DataRef::new(0));
    // a deeper insert under the covered edge splits it; both children of the
    // fresh node carry the old value before the final edge is overwritten
    tree.insert(&[false, true], DataRef::new(5));
    assert_eq!(tree.len(), 2);
    assert_eq!(tree.edge(0, false), Some(Target::Node(maxminddb_writer::node::NodeRef::new(1))));
    assert_eq!(tree.edge(1, false), Some(Target::Data(DataRef::new(0))));
    assert_eq!(tree.edge(1, true), Some(Target::Data(DataRef::new(5))));
}

#[test]
fn test_insert_empty_path_is_noop() {
    let mut tree = NodeTree::default();
    tree.insert(&[], DataRef::new(0));
    assert_eq!(tree.len(), 1);
    assert_eq!(tree.edge(0, false), None);
    assert_eq!(tree.edge(0, true), None);
}

#[test]
fn test_coarser_insert_overwrites_edge() {
    let mut tree = NodeTree::default();
    tree.insert(&[false, true], DataRef::new(3));
    assert_eq!(tree.len(), 2);
    // a later, coarser insert lands on the edge itself and overwrites the
    // subtree below it
    tree.insert(&[false], DataRef::new(9));
    assert_eq!(tree.edge(0, false), Some(Target::Data(DataRef::new(9))));
}

#[test]
fn test_record_stream_sentinel() {
    // one empty root node: both pointers are the sentinel (node count 1)
    let tree = NodeTree::default();
    let mut out = Vec::new();
    tree.write_to(&mut out, maxminddb_writer::metadata::RecordSize::Small);
    assert_eq!(out, vec![0, 0, 1, 0, 0, 1]);

    let mut out = Vec::new();
    tree.write_to(&mut out, maxminddb_writer::metadata::RecordSize::Medium);
    assert_eq!(out, vec![0, 0, 1, 0, 0, 0, 1]);

    let mut out = Vec::new();
    tree.write_to(&mut out, maxminddb_writer::metadata::RecordSize::Large);
    assert_eq!(out, vec![0, 0, 0, 1, 0, 0, 0, 1]);
}
