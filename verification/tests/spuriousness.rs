use segdist::evaluate_spuriousness::{add_relation, filter_spurious, spurious_breakpoints};
use segdist::tables::ListTable;

#[test]
fn test_filter_single() {
    let mut predecessors = ListTable::new();
    let mut successors = ListTable::new();
    predecessors.insert(b"1".to_vec(), vec![b"2".to_vec()]);
    successors.insert(b"2".to_vec(), vec![b"1".to_vec()]);
    let spurious_nodes: Vec<Vec<u8>> = filter_spurious(predecessors, successors);
    assert_eq!(spurious_nodes, vec![b"1".to_vec()]);
}

#[test]
fn test_filter_none() {
    let predecessors = ListTable::new();
    let successors = ListTable::new();
    let spurious_nodes: Vec<Vec<u8>> = filter_spurious(predecessors, successors);
    assert_eq!(spurious_nodes, Vec::<Vec<u8>>::new());
}

#[test]
fn test_filter_empty_succ() {
    let mut predecessors = ListTable::new();
    let mut successors = ListTable::new();
    predecessors.insert(b"1".to_vec(), vec![b"2".to_vec()]);
    predecessors.insert(b"3".to_vec(), vec![b"2".to_vec()]);
    successors.insert(b"2".to_vec(), vec![b"1".to_vec(), b"3".to_vec()]);
    let spurious_nodes: Vec<Vec<u8>> = filter_spurious(predecessors, successors);
    assert_eq!(spurious_nodes, Vec::<Vec<u8>>::new());
}

#[test]
fn test_filter_empty_preds() {
    let mut predecessors = ListTable::new();
    let mut successors = ListTable::new();
    predecessors.insert(b"1".to_vec(), vec![b"2".to_vec(), b"3".to_vec()]);
    successors.insert(b"2".to_vec(), vec![b"1".to_vec()]);
    successors.insert(b"3".to_vec(), vec![b"1".to_vec()]);
    let spurious_nodes: Vec<Vec<u8>> = filter_spurious(predecessors, successors);
    assert_eq!(spurious_nodes, Vec::<Vec<u8>>::new());
}

#[test]
fn test_filter_preds() {
    let mut predecessors = ListTable::new();
    let mut successors = ListTable::new();
    predecessors.insert(b"1".to_vec(), vec![b"2".to_vec()]);
    predecessors.insert(b"2".to_vec(), vec![b"3".to_vec(), b"4".to_vec()]);
    successors.insert(b"2".to_vec(), vec![b"1".to_vec()]);
    successors.insert(b"3".to_vec(), vec![b"2".to_vec()]);
    successors.insert(b"4".to_vec(), vec![b"2".to_vec()]);
    let spurious_nodes: Vec<Vec<u8>> = filter_spurious(predecessors, successors);
    assert_eq!(spurious_nodes, vec![b"1".to_vec()]);
}

#[test]
fn test_filter_succs() {
    let mut predecessors = ListTable::new();
    let mut successors = ListTable::new();
    predecessors.insert(b"1".to_vec(), vec![b"3".to_vec()]);
    predecessors.insert(b"2".to_vec(), vec![b"3".to_vec()]);
    predecessors.insert(b"3".to_vec(), vec![b"4".to_vec()]);
    successors.insert(b"4".to_vec(), vec![b"3".to_vec()]);
    successors.insert(b"3".to_vec(), vec![b"1".to_vec(), b"2".to_vec()]);
    let spurious_nodes: Vec<Vec<u8>> = filter_spurious(predecessors, successors);
    assert_eq!(spurious_nodes, vec![b"3".to_vec()]);
}

#[test]
fn test_add_relation_forward() {
    let mut linkage = ListTable::new();
    add_relation(&mut linkage, b"1".to_vec(), b"2".to_vec());
    assert_eq!(linkage.get(b"2").unwrap(), &vec![b"1".to_vec()]);
}

#[test]
fn test_add_relation_reverse() {
    let mut linkage = ListTable::new();
    add_relation(&mut linkage, b"2".to_vec(), b"1".to_vec());
    assert_eq!(linkage.get(b"1").unwrap(), &vec![b"2".to_vec()]);
}

#[test]
fn test_add_relation_multiple() {
    let mut linkage = ListTable::new();
    add_relation(&mut linkage, b"2".to_vec(), b"1".to_vec());
    add_relation(&mut linkage, b"3".to_vec(), b"1".to_vec());
    assert_eq!(linkage.get(b"1").unwrap(), &vec![b"2".to_vec(), b"3".to_vec()]);
}

#[test]
fn test_add_and_spurious() {
    let mut predecessors = ListTable::new();
    let mut successors = ListTable::new();
    add_relation(&mut predecessors, b"2".to_vec(), b"1".to_vec());
    add_relation(&mut successors, b"1".to_vec(), b"2".to_vec());
    let spurious_nodes: Vec<Vec<u8>> = filter_spurious(predecessors, successors);
    assert_eq!(spurious_nodes, vec![b"1".to_vec()]);
}

#[test]
fn add_relation_ignores_duplicates() {
    let mut linkage = ListTable::new();
    add_relation(&mut linkage, b"2".to_vec(), b"1".to_vec());
    add_relation(&mut linkage, b"2".to_vec(), b"1".to_vec());
    assert_eq!(linkage.get(b"1").unwrap(), &vec![b"2".to_vec()]);
}

// A node whose sole predecessor points only at it is flagged, whatever
// tag fields the adjacency records carry besides the node columns.
#[test]
fn detector_flags_isolated_chain_link() {
    let data = b"S\tX\tAA\nS\tY\tCC\nE\tX\t+\tY\t+\n";
    let spurious = spurious_breakpoints(data);
    assert_eq!(spurious, vec![b"Y".to_vec()]);
}

// A node with two incoming edges is no artifact.
#[test]
fn detector_keeps_real_junctions() {
    let data = b"E\tX\t+\tY\t+\nE\tZ\t+\tY\t+\n";
    let spurious = spurious_breakpoints(data);
    assert_eq!(spurious, Vec::<Vec<u8>>::new());
}

// Duplicated adjacency records do not change the outcome.
#[test]
fn detector_deduplicates_edges() {
    let data = b"E\tX\t+\tY\t+\nE\tX\t+\tY\t+\n";
    let spurious = spurious_breakpoints(data);
    assert_eq!(spurious, vec![b"Y".to_vec()]);
}

// Adjacency records ended by a carriage return and newline parse like
// plain records.
#[test]
fn detector_handles_carriage_returns() {
    let data = b"E\tX\t+\tY\t+\r\n";
    let spurious = spurious_breakpoints(data);
    assert_eq!(spurious, vec![b"Y".to_vec()]);
}
