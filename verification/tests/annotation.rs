use segdist::annotate_edit_lengths::{annotate_editions, AnnotatedLine, AnnotateError};
use segdist::index_gfa_file::index_gfa;

const GRAPH_A: &[u8] = b"S\tn1\tAAA\nS\tn2\tCCCC\nP\tp\tn1+,n2+\t*\n";
const GRAPH_B: &[u8] = b"S\tm1\tGGG\nS\tm2\tTT\nS\tm3\tAA\nP\tp\tm1+,m2+,m3+\t*\n";

// The distinct boundary union of `p` is 0,3,5,7; the merge record at
// position 5 sits between 3 and 7, so its local length is 2, and the
// absorbed node of a merge is the second graph's `m2`, of size 2.
#[test]
fn annotates_a_merge_record() {
    let ia = index_gfa(GRAPH_A, true).unwrap();
    let ib = index_gfa(GRAPH_B, true).unwrap();
    let lines = vec![b"p\t5\tM\tn2\tm2\t7\t5".to_vec()];
    let inter = vec![b"p".to_vec()];
    let out = annotate_editions(GRAPH_A, GRAPH_B, &lines, &ia, &ib, &inter).unwrap();
    assert_eq!(out.len(), 1);
    match &out[0] {
        AnnotatedLine::Annotated { line, local_length, node_length } => {
            assert_eq!(line, &b"p\t5\tM\tn2\tm2\t7\t5".to_vec());
            assert_eq!(*local_length, 2);
            assert_eq!(*node_length, 2);
        },
        _ => panic!("expected an annotated record"),
    }
}

// A split record is annotated with the first graph's node length.
#[test]
fn annotates_a_split_record() {
    let ia = index_gfa(GRAPH_B, true).unwrap();
    let ib = index_gfa(GRAPH_A, true).unwrap();
    let lines = vec![b"p\t5\tS\tm2\tn2\t5\t7".to_vec()];
    let inter = vec![b"p".to_vec()];
    let out = annotate_editions(GRAPH_B, GRAPH_A, &lines, &ia, &ib, &inter).unwrap();
    match &out[0] {
        AnnotatedLine::Annotated { local_length, node_length, .. } => {
            assert_eq!(*local_length, 2);
            assert_eq!(*node_length, 2);
        },
        _ => panic!("expected an annotated record"),
    }
}

// Comment lines are echoed; records of paths outside the intersection are
// dropped.
#[test]
fn comments_and_foreign_paths() {
    let ia = index_gfa(GRAPH_A, true).unwrap();
    let ib = index_gfa(GRAPH_B, true).unwrap();
    let lines = vec![
        b"# Path name\tPosition".to_vec(),
        b"other\t5\tM\tn2\tm2\t7\t5".to_vec(),
    ];
    let inter = vec![b"p".to_vec()];
    let out = annotate_editions(GRAPH_A, GRAPH_B, &lines, &ia, &ib, &inter).unwrap();
    assert_eq!(out.len(), 1);
    match &out[0] {
        AnnotatedLine::Comment(l) => assert_eq!(l, &b"# Path name\tPosition".to_vec()),
        _ => panic!("expected the comment echoed"),
    }
}

// A position absent from the merged boundary list means the log and the
// graphs are out of sync.
#[test]
fn desynced_position_is_fatal() {
    let ia = index_gfa(GRAPH_A, true).unwrap();
    let ib = index_gfa(GRAPH_B, true).unwrap();
    let lines = vec![b"p\t4\tM\tn2\tm2\t7\t5".to_vec()];
    let inter = vec![b"p".to_vec()];
    let err = annotate_editions(GRAPH_A, GRAPH_B, &lines, &ia, &ib, &inter).unwrap_err();
    assert_eq!(err, AnnotateError::PositionNotFound);
}

// A record whose position is not a number is fatal.
#[test]
fn malformed_record_is_fatal() {
    let ia = index_gfa(GRAPH_A, true).unwrap();
    let ib = index_gfa(GRAPH_B, true).unwrap();
    let lines = vec![b"p\tfive\tM\tn2\tm2\t7\t5".to_vec()];
    let inter = vec![b"p".to_vec()];
    let err = annotate_editions(GRAPH_A, GRAPH_B, &lines, &ia, &ib, &inter).unwrap_err();
    assert_eq!(err, AnnotateError::MalformedRecord);
}

// A position at the very edge of the boundary list has no neighbour on
// one side.
#[test]
fn edge_position_has_no_neighbour() {
    let ia = index_gfa(GRAPH_A, true).unwrap();
    let ib = index_gfa(GRAPH_B, true).unwrap();
    let lines = vec![b"p\t0\tM\tn1\tm1\t0\t0".to_vec()];
    let inter = vec![b"p".to_vec()];
    let err = annotate_editions(GRAPH_A, GRAPH_B, &lines, &ia, &ib, &inter).unwrap_err();
    assert_eq!(err, AnnotateError::MissingNeighbor);
}

// An intersection name that neither index holds is fatal.
#[test]
fn unknown_path_is_fatal() {
    let ia = index_gfa(GRAPH_A, true).unwrap();
    let ib = index_gfa(GRAPH_B, true).unwrap();
    let lines: Vec<Vec<u8>> = Vec::new();
    let inter = vec![b"nowhere".to_vec()];
    let err = annotate_editions(GRAPH_A, GRAPH_B, &lines, &ia, &ib, &inter).unwrap_err();
    assert_eq!(err, AnnotateError::PathUnknown);
}

// A coordinate both graphs list - reachable through a zero-size node -
// appears once in the distinct boundary union, so the local length is the
// distance to the nearest other boundary, not zero.
#[test]
fn duplicate_boundary_collapses() {
    let a: &[u8] = b"S\ta\tAAA\nS\tz\t\nS\tb\tCCCC\nP\tp\ta+,z+,b+\t*\n";
    let b: &[u8] = b"S\tc\tGGG\nS\td\tTTTT\nP\tp\tc+,d+\t*\n";
    let ia = index_gfa(a, true).unwrap();
    let ib = index_gfa(b, true).unwrap();
    let lines = vec![b"p\t3\tM\tz\td".to_vec()];
    let inter = vec![b"p".to_vec()];
    let out = annotate_editions(a, b, &lines, &ia, &ib, &inter).unwrap();
    match &out[0] {
        AnnotatedLine::Annotated { local_length, node_length, .. } => {
            assert_eq!(*local_length, 3);
            assert_eq!(*node_length, 4);
        },
        _ => panic!("expected an annotated record"),
    }
}
