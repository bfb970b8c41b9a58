use segdist::index_gfa_file::{index_gfa, normalize_path_name, IndexError};
use segdist::parse_gfa_file::read_gfa_file;
use segdist::tokenizer::{read_next_p_node, read_next_w_node, tokenize_path, PathFormat};
use segdist::compute_boundaries::compute_cumulative_sum;
use segdist::tables::Table;
use segdist::bytes::{split_fields, to_upper, trim_ascii, parse_u128};

// The recorded offset lands on the first node token, and replaying from it
// gives back the node list whose sizes sum to the recorded total.
#[test]
fn round_trip_scenario() {
    let data: &[u8] = b"S\tn1\tAAA\nS\tn2\tCCCC\nP\tp\tn1+,n2+\t*\n";
    let g = index_gfa(data, true).unwrap();
    let info = *g.paths.get(b"p").unwrap();
    assert_eq!(info.fmt, PathFormat::SegmentList);
    assert_eq!(info.total_len, 7);
    let toks = tokenize_path(data, info.offset, info.fmt);
    assert_eq!(toks, vec![b"n1".to_vec(), b"n2".to_vec()]);
    let mut sum: u128 = 0;
    for t in &toks {
        sum += *g.node_sizes.get(t.as_slice()).unwrap() as u128;
    }
    assert_eq!(sum, info.total_len);
}

// The walk offset skips the first orientation mark and replays the walk.
#[test]
fn walk_offset_round_trip() {
    let data: &[u8] = b"S\tn1\tAA\nS\tn2\tC\nW\ts\t1\tc\t0\t3\t>n1<n2\n";
    let g = index_gfa(data, true).unwrap();
    let info = *g.paths.get(b"s#1#c").unwrap();
    assert_eq!(info.fmt, PathFormat::WalkList);
    assert_eq!(info.total_len, 3);
    let toks = tokenize_path(data, info.offset, info.fmt);
    assert_eq!(toks, vec![b"n1".to_vec(), b"n2".to_vec()]);
}

// A file without any path record is not in the expected format.
#[test]
fn no_paths_is_an_error() {
    let data: &[u8] = b"S\tn1\tAAA\nS\tn2\tCC\n";
    assert!(matches!(index_gfa(data, true), Err(IndexError::NoPathsFound)));
}

// A node referenced but never defined counts as zero-length.
#[test]
fn undefined_node_counts_zero() {
    let data: &[u8] = b"S\tn1\tAAA\nP\tp\tn1+,ghost+\t*\n";
    let g = index_gfa(data, true).unwrap();
    assert_eq!(g.paths.get(b"p").unwrap().total_len, 3);
}

// Loose matching upper-cases and drops `#0` haplotype blocks wherever
// they stand; hard matching keeps names verbatim.
#[test]
fn name_normalization() {
    assert_eq!(normalize_path_name(b"sample1#chr1#0".to_vec(), false), b"SAMPLE1#CHR1".to_vec());
    assert_eq!(
        normalize_path_name(b"sample1#chr1#0".to_vec(), true),
        b"sample1#chr1#0".to_vec(),
    );
    // A haplotype block in the middle of a composite name is dropped too.
    assert_eq!(normalize_path_name(b"sample1#0#chr1".to_vec(), false), b"SAMPLE1#CHR1".to_vec());
    // Every such block goes, and blocks that are not exactly `0` stay.
    assert_eq!(normalize_path_name(b"x#0#0".to_vec(), false), b"X".to_vec());
    assert_eq!(normalize_path_name(b"x#00#01".to_vec(), false), b"X#00#01".to_vec());
}

// Two spellings of one path name index to the same comparison key under
// loose matching, and to different keys under hard matching.
#[test]
fn loose_matching_joins_spellings() {
    let a: &[u8] = b"S\tn1\tAAA\nP\tsample1#chr1#0\tn1+\t*\n";
    let b: &[u8] = b"S\tn1\tAAA\nP\tSAMPLE1#chr1\tn1+\t*\n";
    let ga = index_gfa(a, false).unwrap();
    let gb = index_gfa(b, false).unwrap();
    assert!(ga.paths.get(b"SAMPLE1#CHR1").is_some());
    assert!(gb.paths.get(b"SAMPLE1#CHR1").is_some());
    let ga_hard = index_gfa(a, true).unwrap();
    let gb_hard = index_gfa(b, true).unwrap();
    assert!(ga_hard.paths.get(b"sample1#chr1#0").is_some());
    assert!(ga_hard.paths.get(b"SAMPLE1#chr1").is_none());
    assert!(gb_hard.paths.get(b"SAMPLE1#chr1").is_some());
}

// The comma-delimited tokenizer strips orientation marks, consumes the
// comma, and stops at the record terminator.
#[test]
fn p_tokenizer() {
    let data: &[u8] = b"n1+,n2-\t*\n";
    let mut pos: usize = 0;
    assert_eq!(read_next_p_node(data, &mut pos), Some(b"n1".to_vec()));
    assert_eq!(pos, 4);
    assert_eq!(read_next_p_node(data, &mut pos), Some(b"n2".to_vec()));
    assert_eq!(pos, 7);
    assert_eq!(read_next_p_node(data, &mut pos), None);
    assert_eq!(pos, 7);
}

// The walk tokenizer treats `<` and `>` as delimiters that carry the
// orientation and are never part of the token.
#[test]
fn w_tokenizer() {
    let data: &[u8] = b"n1<n2>n3\tXX\n";
    let mut pos: usize = 0;
    assert_eq!(read_next_w_node(data, &mut pos), Some(b"n1".to_vec()));
    assert_eq!(read_next_w_node(data, &mut pos), Some(b"n2".to_vec()));
    assert_eq!(read_next_w_node(data, &mut pos), Some(b"n3".to_vec()));
    assert_eq!(read_next_w_node(data, &mut pos), None);
}

// The one-shot reader records sizes and node lists with orientation
// characters removed.
#[test]
fn read_gfa_file_tables() {
    let data: &[u8] = b"S\tn1\tAAA\nS\tn2\tCC\nP\tp\tn1+,n2-\t*\n";
    let (sizes, lists) = read_gfa_file(data);
    assert_eq!(*sizes.get(b"n1").unwrap(), 3);
    assert_eq!(*sizes.get(b"n2").unwrap(), 2);
    assert_eq!(lists.get(b"p").unwrap(), &vec![b"n1".to_vec(), b"n2".to_vec()]);
}

// Cumulative sums follow the node list; unknown names add nothing.
#[test]
fn cumulative_sums() {
    let mut sizes: Table<u64> = Table::new();
    sizes.insert(b"a".to_vec(), 2);
    sizes.insert(b"b".to_vec(), 5);
    let names = vec![b"a".to_vec(), b"b".to_vec(), b"ghost".to_vec(), b"a".to_vec()];
    let sums = compute_cumulative_sum(&names, &sizes);
    assert_eq!(sums, vec![2, 7, 7, 9]);
}

#[test]
fn byte_helpers() {
    let fields = split_fields(b"P\tname\tn1+\t*", 9);
    assert_eq!(fields.len(), 4);
    assert_eq!(fields[1], b"name".to_vec());
    assert_eq!(split_fields(b"", 9), vec![b"".to_vec()]);
    assert_eq!(to_upper(b"aZ#9z"), b"AZ#9Z".to_vec());
    assert_eq!(trim_ascii(b" \tACGT\r\n"), b"ACGT".to_vec());
    assert_eq!(parse_u128(b"907"), Some(907));
    assert_eq!(parse_u128(b""), None);
    assert_eq!(parse_u128(b"12x"), None);
    assert_eq!(parse_u128(b"340282366920938463463374607431768211455"), Some(u128::MAX));
    assert_eq!(parse_u128(b"340282366920938463463374607431768211456"), None);
}

// A walk's composite name is normalized like any other name.
#[test]
fn walk_composite_name_normalization() {
    let data: &[u8] = b"S\tn1\tAAA\nW\tsm\tchr1\t0\t0\t3\t>n1\n";
    let loose = index_gfa(data, false).unwrap();
    assert!(loose.paths.get(b"SM#CHR1").is_some());
    let hard = index_gfa(data, true).unwrap();
    assert!(hard.paths.get(b"sm#chr1#0").is_some());
}

// Offsets of later records still land on their own node lists.
#[test]
fn second_path_offset() {
    let data: &[u8] = b"S\ta\tAA\nS\tb\tCCC\nP\tfirst\ta+\t*\nP\tsecond\ta+,b+\t*\n";
    let g = index_gfa(data, true).unwrap();
    let info = *g.paths.get(b"second").unwrap();
    assert_eq!(tokenize_path(data, info.offset, info.fmt), vec![b"a".to_vec(), b"b".to_vec()]);
    assert_eq!(info.total_len, 5);
}

// A walk naming haplotype `0` and a comma-delimited path written without
// the haplotype block index to the same comparison key under loose
// matching, and to different keys under hard matching.
#[test]
fn haplotype_block_spellings_join() {
    let a: &[u8] = b"S\tn1\tAAA\nW\tsample1\t0\tchr1\t0\t3\t>n1\n";
    let b: &[u8] = b"S\tn1\tAAA\nP\tSAMPLE1#chr1\tn1+\t*\n";
    let ga = index_gfa(a, false).unwrap();
    let gb = index_gfa(b, false).unwrap();
    assert!(ga.paths.get(b"SAMPLE1#CHR1").is_some());
    assert!(gb.paths.get(b"SAMPLE1#CHR1").is_some());
    let ga_hard = index_gfa(a, true).unwrap();
    let gb_hard = index_gfa(b, true).unwrap();
    assert!(ga_hard.paths.get(b"sample1#0#chr1").is_some());
    assert!(ga_hard.paths.get(b"SAMPLE1#chr1").is_none());
    assert!(gb_hard.paths.get(b"SAMPLE1#chr1").is_some());
}

// Lines ended by a carriage return and newline index and replay like
// plain lines: the carriage return terminates the node list.
#[test]
fn carriage_return_line_endings() {
    let data: &[u8] = b"S\tn1\tAAA\r\nP\tp\tn1+,n1-\r\n";
    let g = index_gfa(data, true).unwrap();
    assert_eq!(*g.node_sizes.get(b"n1").unwrap(), 3);
    let info = *g.paths.get(b"p").unwrap();
    assert_eq!(info.total_len, 6);
    assert_eq!(tokenize_path(data, info.offset, info.fmt), vec![b"n1".to_vec(), b"n1".to_vec()]);
}
