use segdist::compute_distance::{distance, EditKind, PathOutcome};
use segdist::index_gfa_file::{index_gfa, GraphIndex, PathInfo};
use segdist::tables::Table;
use segdist::tokenizer::PathFormat;

fn index_of(data: &[u8]) -> GraphIndex {
    index_gfa(data, true).unwrap()
}

// Two nodes of sizes 3 and 4 on one side.
const GRAPH_A: &[u8] = b"S\tn1\tAAA\nS\tn2\tCCCC\nP\tp\tn1+,n2+\t*\n";

// Three nodes of sizes 3, 2 and 2 on the other; same name, same total.
const GRAPH_B: &[u8] = b"S\tm1\tGGG\nS\tm2\tTT\nS\tm3\tAA\nP\tp\tm1+,m2+,m3+\t*\n";

// Both graphs agree at offset 3; B places one more boundary at 5, inside
// A's second node, so the walk reports a single merge there and realigns
// at 7.
#[test]
fn single_split_scenario() {
    let ia = index_of(GRAPH_A);
    let ib = index_of(GRAPH_B);
    let none: Vec<Vec<u8>> = Vec::new();
    let report = distance(GRAPH_A, GRAPH_B, &ia, &ib, &none, &none);
    assert_eq!(report.reports.len(), 1);
    let (name, outcome) = &report.reports[0];
    assert_eq!(name, &b"p".to_vec());
    match outcome {
        PathOutcome::Aligned(res) => {
            assert_eq!(res.merges, 1);
            assert_eq!(res.splits, 0);
            assert_eq!(res.spurious, 0);
            assert_eq!(res.equivalences, 2);
            assert_eq!(res.edits.len(), 1);
            let e = &res.edits[0];
            assert_eq!(e.path, b"p".to_vec());
            assert_eq!(e.position, 5);
            assert_eq!(e.kind, EditKind::Merge);
            assert_eq!(e.node_a, b"n2".to_vec());
            assert_eq!(e.node_b, b"m2".to_vec());
            assert_eq!(e.breakpoint_a, 7);
            assert_eq!(e.breakpoint_b, 5);
        },
        _ => panic!("expected an aligned outcome"),
    }
    let totals = report.totals.unwrap();
    assert_eq!(totals.distance, 1);
    assert_eq!(totals.merges, 1);
    assert_eq!(totals.splits, 0);
}

// Swapping the two graphs turns the merge into a split at the same
// position, with the node and breakpoint columns swapped.
#[test]
fn symmetry_scenario() {
    let ia = index_of(GRAPH_A);
    let ib = index_of(GRAPH_B);
    let none: Vec<Vec<u8>> = Vec::new();
    let report = distance(GRAPH_B, GRAPH_A, &ib, &ia, &none, &none);
    match &report.reports[0].1 {
        PathOutcome::Aligned(res) => {
            assert_eq!(res.merges, 0);
            assert_eq!(res.splits, 1);
            assert_eq!(res.equivalences, 2);
            let e = &res.edits[0];
            assert_eq!(e.position, 5);
            assert_eq!(e.kind, EditKind::Split);
            assert_eq!(e.node_a, b"m2".to_vec());
            assert_eq!(e.node_b, b"n2".to_vec());
            assert_eq!(e.breakpoint_a, 5);
            assert_eq!(e.breakpoint_b, 7);
        },
        _ => panic!("expected an aligned outcome"),
    }
}

// A path aligned against itself: no edits, one equivalence per node.
#[test]
fn no_op_identity_scenario() {
    let ia = index_of(GRAPH_A);
    let ia2 = index_of(GRAPH_A);
    let none: Vec<Vec<u8>> = Vec::new();
    let report = distance(GRAPH_A, GRAPH_A, &ia, &ia2, &none, &none);
    match &report.reports[0].1 {
        PathOutcome::Aligned(res) => {
            assert_eq!(res.merges, 0);
            assert_eq!(res.splits, 0);
            assert_eq!(res.spurious, 0);
            assert_eq!(res.equivalences, 2);
            assert!(res.edits.is_empty());
        },
        _ => panic!("expected an aligned outcome"),
    }
}

// A disagreement whose current node on the other side is listed as
// spurious is suppressed and counted separately; the set is a read-only
// input and membership alone decides.
#[test]
fn spurious_suppression_scenario() {
    let a: &[u8] = b"S\tX\tAA\nS\tY\tCCC\nP\tp\tX+,Y+\t*\n";
    let b: &[u8] = b"S\tW\tAAAAA\nP\tp\tW+\t*\n";
    let ia = index_of(a);
    let ib = index_of(b);
    let none: Vec<Vec<u8>> = Vec::new();
    let spb: Vec<Vec<u8>> = vec![b"W".to_vec()];
    let report = distance(a, b, &ia, &ib, &none, &spb);
    match &report.reports[0].1 {
        PathOutcome::Aligned(res) => {
            assert_eq!(res.splits, 0);
            assert_eq!(res.merges, 0);
            assert_eq!(res.spurious, 1);
            assert!(res.edits.is_empty());
        },
        _ => panic!("expected an aligned outcome"),
    }
    // Without the spurious set the same disagreement is a split.
    let report2 = distance(a, b, &ia, &ib, &none, &none);
    match &report2.reports[0].1 {
        PathOutcome::Aligned(res) => {
            assert_eq!(res.splits, 1);
            assert_eq!(res.spurious, 0);
        },
        _ => panic!("expected an aligned outcome"),
    }
}

// Same-named paths of different total lengths produce one mismatch
// outcome and no edits, and the remaining paths are still compared.
#[test]
fn mismatched_length_scenario() {
    let a: &[u8] = b"S\tn1\tAAA\nS\tn2\tCCCC\nP\tp\tn1+,n2+\t*\nP\tq\tn1+\t*\n";
    let b: &[u8] = b"S\tm1\tGGG\nP\tp\tm1+\t*\nP\tq\tm1+\t*\n";
    let ia = index_of(a);
    let ib = index_of(b);
    let none: Vec<Vec<u8>> = Vec::new();
    let report = distance(a, b, &ia, &ib, &none, &none);
    assert_eq!(report.reports.len(), 2);
    match &report.reports[0].1 {
        PathOutcome::LengthMismatch(la, lb) => {
            assert_eq!(*la, 7);
            assert_eq!(*lb, 3);
        },
        _ => panic!("expected a length mismatch"),
    }
    match &report.reports[1].1 {
        PathOutcome::Aligned(res) => {
            assert_eq!(res.equivalences, 1);
            assert_eq!(res.merges + res.splits, 0);
        },
        _ => panic!("expected an aligned outcome"),
    }
    let totals = report.totals.unwrap();
    assert_eq!(totals.distance, 0);
    assert_eq!(totals.equivalences, 1);
}

// A path whose recorded total exceeds what its node list provides is a
// fatal inconsistency for that path.
#[test]
fn inconsistent_index_is_reported() {
    let a: &[u8] = b"S\tn1\tAAA\nP\tp\tn1+\t*\n";
    // A hand-made index for the same bytes that claims a longer path.
    let mut sizes: Table<u64> = Table::new();
    sizes.insert(b"n1".to_vec(), 3);
    let mut paths: Table<PathInfo> = Table::new();
    paths.insert(
        b"p".to_vec(),
        PathInfo { offset: 13, fmt: PathFormat::SegmentList, total_len: 3 },
    );
    let ib = GraphIndex { node_sizes: sizes, paths };
    // Claim total 3 on both sides but hand graph B an empty node list
    // region by pointing its offset at the record terminator.
    let b: &[u8] = b"S\tn1\tAAA\nP\tp\t\t*\n";
    let mut sizes_b: Table<u64> = Table::new();
    sizes_b.insert(b"n1".to_vec(), 3);
    let mut paths_b: Table<PathInfo> = Table::new();
    paths_b.insert(
        b"p".to_vec(),
        PathInfo { offset: 13, fmt: PathFormat::SegmentList, total_len: 3 },
    );
    let ib2 = GraphIndex { node_sizes: sizes_b, paths: paths_b };
    let none: Vec<Vec<u8>> = Vec::new();
    let report = distance(a, b, &ib, &ib2, &none, &none);
    assert!(matches!(report.reports[0].1, PathOutcome::Inconsistent));
}

// Paths present in only one graph are excluded by construction.
#[test]
fn intersection_only() {
    let a: &[u8] = b"S\tn1\tAAA\nP\tonly_a\tn1+\t*\nP\tshared\tn1+\t*\n";
    let b: &[u8] = b"S\tn1\tAAA\nP\tshared\tn1+\t*\nP\tonly_b\tn1+\t*\n";
    let ia = index_of(a);
    let ib = index_of(b);
    let none: Vec<Vec<u8>> = Vec::new();
    let report = distance(a, b, &ia, &ib, &none, &none);
    assert_eq!(report.reports.len(), 1);
    assert_eq!(report.reports[0].0, b"shared".to_vec());
}

// Walks align like comma-delimited node lists: equality is judged on
// cumulative length alone, never on node identity or record format.
#[test]
fn walk_against_segment_list() {
    let a: &[u8] = b"S\tn1\tAAA\nS\tn2\tCCCC\nW\tsm\t1\tp\t0\t7\t>n1>n2\n";
    let b: &[u8] = b"S\tm1\tGGG\nS\tm2\tTT\nS\tm3\tAA\nP\tsm#1#p\tm1+,m2+,m3+\t*\n";
    let ia = index_gfa(a, true).unwrap();
    let ib = index_gfa(b, true).unwrap();
    let none: Vec<Vec<u8>> = Vec::new();
    let report = distance(a, b, &ia, &ib, &none, &none);
    assert_eq!(report.reports.len(), 1);
    match &report.reports[0].1 {
        PathOutcome::Aligned(res) => {
            assert_eq!(res.merges, 1);
            assert_eq!(res.edits[0].node_a, b"n2".to_vec());
            assert_eq!(res.edits[0].node_b, b"m2".to_vec());
        },
        _ => panic!("expected an aligned outcome"),
    }
}

// The spurious sets are read-only: a listed name suppresses every
// disagreement it flanks, in every path of the run.
#[test]
fn spurious_name_suppresses_repeatedly() {
    let a: &[u8] = b"S\tX\tAA\nS\tY\tCCC\nP\tp\tX+,Y+\t*\nP\tq\tX+,Y+\t*\n";
    let b: &[u8] = b"S\tW\tAAAAA\nP\tp\tW+\t*\nP\tq\tW+\t*\n";
    let ia = index_gfa(a, true).unwrap();
    let ib = index_gfa(b, true).unwrap();
    let none: Vec<Vec<u8>> = Vec::new();
    let spb: Vec<Vec<u8>> = vec![b"W".to_vec()];
    let report = distance(a, b, &ia, &ib, &none, &spb);
    match (&report.reports[0].1, &report.reports[1].1) {
        (PathOutcome::Aligned(first), PathOutcome::Aligned(second)) => {
            assert_eq!(first.spurious, 1);
            assert_eq!(first.splits, 0);
            assert_eq!(second.spurious, 1);
            assert_eq!(second.splits, 0);
        },
        _ => panic!("expected two aligned outcomes"),
    }
}

// One spurious node spanning two disagreements of a single path
// suppresses both.
#[test]
fn spurious_node_spans_two_disagreements() {
    let a: &[u8] = b"S\tX\tA\nS\tY\tC\nS\tZ\tGGG\nP\tp\tX+,Y+,Z+\t*\n";
    let b: &[u8] = b"S\tW\tAAAAA\nP\tp\tW+\t*\n";
    let ia = index_gfa(a, true).unwrap();
    let ib = index_gfa(b, true).unwrap();
    let none: Vec<Vec<u8>> = Vec::new();
    let spb: Vec<Vec<u8>> = vec![b"W".to_vec()];
    let report = distance(a, b, &ia, &ib, &none, &spb);
    match &report.reports[0].1 {
        PathOutcome::Aligned(res) => {
            assert_eq!(res.spurious, 2);
            assert_eq!(res.splits, 0);
            assert_eq!(res.merges, 0);
            assert!(res.edits.is_empty());
        },
        _ => panic!("expected an aligned outcome"),
    }
}
