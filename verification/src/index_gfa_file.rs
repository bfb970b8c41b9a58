//! Single-pass indexing of a graph file.
//!
//! One pass over the bytes of a tab-delimited graph file collects, per
//! segment record, the node's size (the length of its trimmed sequence
//! field), and per path or walk record, the (possibly normalized) path
//! name, the byte offset of the first node token of its node list and the
//! record's format. A second pass replays every path from its offset and
//! records its total length in symbols, so a recorded length always equals
//! the sum of the sizes of the nodes obtained by tokenizing from the
//! recorded offset.
//!
//! Malformed records - a tagged line with too few fields, or a walk whose
//! node list is empty - are skipped.

use vstd::prelude::*;
use crate::bytes::{find_from, find_byte, split_by, split_fields, trim_spec, trim_ascii, upper_seq,
    to_upper, chop_cr, chop_cr_slice, lemma_find_from, push_all};
use crate::tables::{Table, assoc_insert, lemma_name_list_elem};
use crate::tokenizer::{PathFormat, tokens_from, sum_sizes, size_of_node,
    path_len_from, read_next_node, node_size, lemma_next_token_progress, lemma_sum_sizes_bounds};

verus! {

/// What the index records about one path: the byte offset of its node
/// list, the record format, and its total length in symbols.
#[derive(Clone, Copy, Debug, PartialEq, Eq, Structural)]
pub struct PathInfo {
    pub offset: usize,
    pub fmt: PathFormat,
    pub total_len: u128,
}

/// The tables built from one graph file.
pub struct GraphIndex {
    /// Node id to node size.
    pub node_sizes: Table<u64>,
    /// Path name to offset, format and total length.
    pub paths: Table<PathInfo>,
}

/// Indexing a file that defines no path: the input is not in the expected
/// path-bearing format.
#[derive(Clone, Copy, Debug, PartialEq, Eq, Structural)]
pub enum IndexError {
    NoPathsFound,
}

/// What the first pass has collected: node sizes, and per path its offset
/// and format.
pub struct ScanModel {
    pub sizes: Seq<(Seq<u8>, u64)>,
    pub paths: Seq<(Seq<u8>, (usize, PathFormat))>,
}

/// The blocks of a `#`-delimited name after the first, joined back with
/// their `#` marks, every `0` haplotype block dropped.
pub open spec fn tail_blocks(fs: Seq<Seq<u8>>, k: int) -> Seq<u8>
    decreases fs.len() - k when 0 <= k <= fs.len()
{
    if k >= fs.len() {
        Seq::empty()
    } else {
        (if fs[k] == seq![48u8] {
            Seq::<u8>::empty()
        } else {
            seq![35u8] + fs[k]
        }) + tail_blocks(fs, k + 1)
    }
}

/// A name with every `#0` haplotype block dropped, wherever it stands.
pub open spec fn drop_zero_blocks(s: Seq<u8>) -> Seq<u8> {
    let fs = split_by(s, 35);
    fs[0] + tail_blocks(fs, 1)
}

/// The comparison key of a path name: verbatim under hard matching, else
/// upper-cased with every `#0` haplotype block dropped, so differently
/// written spellings of one haplotype name compare equal.
pub open spec fn normalize_name(name: Seq<u8>, hard: bool) -> Seq<u8> {
    if hard {
        name
    } else {
        drop_zero_blocks(upper_seq(name))
    }
}

/// Total length of the first `k` fields, separators not counted.
pub open spec fn fields_prefix_len(fs: Seq<Seq<u8>>, k: int) -> int
    decreases k,
{
    if k <= 0 {
        0
    } else {
        fields_prefix_len(fs, k - 1) + fs[k - 1].len()
    }
}

proof fn lemma_fields_prefix_cons(t: Seq<u8>, fs: Seq<Seq<u8>>, k: int)
    requires
        0 <= k <= fs.len(),
    ensures
        fields_prefix_len(seq![t] + fs, k + 1) == t.len() + fields_prefix_len(fs, k),
    decreases k,
{
    if k == 0 {
        assert(fields_prefix_len(seq![t] + fs, 0) == 0);
        assert((seq![t] + fs)[0] == t);
    } else {
        lemma_fields_prefix_cons(t, fs, k - 1);
        assert((seq![t] + fs)[k] == fs[k - 1]);
        assert(fields_prefix_len(seq![t] + fs, k + 1) == fields_prefix_len(seq![t] + fs, k) + (
        seq![t] + fs)[k].len());
    }
}

pub proof fn lemma_fields_prefix_nonneg(fs: Seq<Seq<u8>>, k: int)
    requires
        0 <= k <= fs.len(),
    ensures
        0 <= fields_prefix_len(fs, k),
    decreases k,
{
    if k > 0 {
        lemma_fields_prefix_nonneg(fs, k - 1);
    }
}

pub proof fn lemma_fields_prefix_mono(fs: Seq<Seq<u8>>, k1: int, k2: int)
    requires
        0 <= k1 <= k2 <= fs.len(),
    ensures
        fields_prefix_len(fs, k1) <= fields_prefix_len(fs, k2),
        0 <= fields_prefix_len(fs, k1),
    decreases k2 - k1,
{
    lemma_fields_prefix_nonneg(fs, k1);
    if k1 < k2 {
        lemma_fields_prefix_mono(fs, k1, k2 - 1);
    }
}

/// The fields of a record account for all its bytes: their lengths plus
/// one separator between neighbours.
pub proof fn lemma_split_by_sum(s: Seq<u8>, d: u8)
    ensures
        split_by(s, d).len() >= 1,
        fields_prefix_len(split_by(s, d), split_by(s, d).len() as int) == s.len() - (split_by(
            s,
            d,
        ).len() - 1),
    decreases s.len(),
{
    lemma_find_from(s, 0, d);
    let e = find_from(s, 0, d);
    if 0 <= e < s.len() {
        let t = s.take(e);
        let rest = s.skip(e + 1);
        lemma_split_by_sum(rest, d);
        let fs2 = split_by(rest, d);
        lemma_fields_prefix_cons(t, fs2, fs2.len() as int);
        assert(split_by(s, d) == seq![t] + fs2);
        assert((seq![t] + fs2).len() == fs2.len() + 1);
    } else {
        assert(split_by(s, d) == seq![s]);
        assert(fields_prefix_len(seq![s], 0) == 0);
        assert(fields_prefix_len(seq![s], 1) == s.len());
    }
}

/// Effect of one record on the scan: a segment record stores the node's
/// size, a path or walk record stores the path's offset and format under
/// its comparison key, anything else changes nothing.
pub open spec fn scan_line(data: Seq<u8>, ls: int, hard: bool, m: ScanModel) -> ScanModel
    recommends
        0 <= ls <= data.len(),
{
    let le = find_from(data, ls, 10);
    let content = chop_cr(data.subrange(ls, le));
    let fs = split_by(content, 9);
    if content.len() == 0 {
        m
    } else if content[0] == 83 {
        if fs.len() >= 3 {
            ScanModel {
                sizes: assoc_insert(m.sizes, fs[1], trim_spec(fs[2]).len() as u64),
                paths: m.paths,
            }
        } else {
            m
        }
    } else if content[0] == 87 {
        if fs.len() >= 7 {
            let off0 = ls + fs[0].len() + fs[1].len() + fs[2].len() + fs[3].len() + fs[4].len()
                + fs[5].len() + 6;
            if off0 < le {
                let name = normalize_name(fs[1] + seq![35u8] + fs[2] + seq![35u8] + fs[3], hard);
                ScanModel {
                    sizes: m.sizes,
                    paths: assoc_insert(
                        m.paths,
                        name,
                        (((off0 + 1) as usize), PathFormat::WalkList),
                    ),
                }
            } else {
                m
            }
        } else {
            m
        }
    } else if content[0] == 80 {
        if fs.len() >= 3 {
            let off = ls + fs[0].len() + fs[1].len() + 2;
            let name = normalize_name(fs[1], hard);
            ScanModel {
                sizes: m.sizes,
                paths: assoc_insert(m.paths, name, ((off as usize), PathFormat::SegmentList)),
            }
        } else {
            m
        }
    } else {
        m
    }
}

/// The scan folded over every record from `ls` on.
pub open spec fn scan_from(data: Seq<u8>, ls: int, hard: bool, m: ScanModel) -> ScanModel
    decreases data.len() - ls when 0 <= ls <= data.len() via scan_from_decreases
{
    if ls >= data.len() {
        m
    } else {
        let le = find_from(data, ls, 10);
        let next = if le < data.len() {
            le + 1
        } else {
            le
        };
        scan_from(data, next, hard, scan_line(data, ls, hard, m))
    }
}

#[via_fn]
proof fn scan_from_decreases(data: Seq<u8>, ls: int, hard: bool, m: ScanModel) {
    lemma_find_from(data, ls, 10);
}

/// The scan of the whole file.
pub open spec fn scan_of(data: Seq<u8>, hard: bool) -> ScanModel {
    scan_from(data, 0, hard, ScanModel { sizes: Seq::empty(), paths: Seq::empty() })
}

/// The index `g` records exactly what one scan of `data` collects, with
/// every path's total length the sum of the sizes of the nodes tokenized
/// from its recorded offset.
pub open spec fn index_matches(g: GraphIndex, data: Seq<u8>, hard: bool) -> bool {
    let m = scan_of(data, hard);
    &&& g.node_sizes@ == m.sizes
    &&& g.paths@.len() == m.paths.len()
    &&& forall|i: int|
        0 <= i < m.paths.len() ==> {
            &&& (#[trigger] g.paths@[i]).0 == m.paths[i].0
            &&& g.paths@[i].1.offset == m.paths[i].1.0
            &&& g.paths@[i].1.fmt == m.paths[i].1.1
            &&& g.paths@[i].1.offset <= data.len()
            &&& g.paths@[i].1.total_len as int == path_len_from(
                data,
                m.paths[i].1.0 as int,
                m.paths[i].1.1,
                m.sizes,
            )
        }
}

/// Every recorded offset points into the data.
pub open spec fn offsets_in_bounds(paths: Seq<(Seq<u8>, PathInfo)>, data: Seq<u8>) -> bool {
    forall|i: int| 0 <= i < paths.len() ==> (#[trigger] paths[i]).1.offset <= data.len()
}

/// The comparison key of a path name.
pub fn normalize_path_name(name: Vec<u8>, hard: bool) -> (r: Vec<u8>)
    ensures
        r@ == normalize_name(name@, hard),
{
    if hard {
        return name;
    }
    let upper = to_upper(name.as_slice());
    let fields = split_fields(upper.as_slice(), 35);
    let ghost fs = split_by(upper@, 35);
    proof {
        lemma_split_by_sum(upper@, 35);
        crate::tables::lemma_name_list_elem(&fields, 0);
    }
    let mut out: Vec<u8> = fields[0].clone();
    proof {
        assert(out@ =~= fs[0]);
    }
    let n = fields.len();
    let mut k: usize = 1;
    while k < n
        invariant
            1 <= k <= n,
            n == fs.len(),
            fields.deep_view() == fs,
            out@ + tail_blocks(fs, k as int) =~= fs[0] + tail_blocks(fs, 1),
        decreases n - k,
    {
        let ghost pre = out@;
        proof {
            crate::tables::lemma_name_list_elem(&fields, k as int);
        }
        let f = &fields[k];
        let keep = !(f.len() == 1 && f[0] == 48);
        proof {
            if keep {
                assert(fs[k as int] != seq![48u8]) by {
                    if fs[k as int] == seq![48u8] {
                        assert(fs[k as int].len() == 1 && fs[k as int][0] == 48);
                    }
                }
            } else {
                assert(fs[k as int] =~= seq![48u8]);
            }
        }
        if keep {
            out.push(35);
            push_all(&mut out, f.as_slice());
            proof {
                assert(out@ =~= pre + (seq![35u8] + fs[k as int]));
            }
        }
        proof {
            assert(out@ + tail_blocks(fs, k as int + 1) =~= fs[0] + tail_blocks(fs, 1));
        }
        k = k + 1;
    }
    proof {
        assert(tail_blocks(fs, n as int) =~= Seq::<u8>::empty());
        assert(out@ =~= fs[0] + tail_blocks(fs, 1));
    }
    out
}

/// Total length in symbols of the path replayed from `offset`.
pub fn path_length(data: &[u8], offset: usize, fmt: PathFormat, sizes: &Table<u64>) -> (r: u128)
    requires
        offset <= data@.len(),
    ensures
        r as int == path_len_from(data@, offset as int, fmt, sizes@),
{
    let ghost all = tokens_from(data@, offset as int, fmt);
    let mut cum: u128 = 0;
    let mut pos: usize = offset;
    let dlen: usize = data.len();
    let ghost consumed: Seq<Seq<u8>> = Seq::empty();
    proof {
        assert(consumed + tokens_from(data@, pos as int, fmt) =~~= all);
    }
    loop
        invariant
            data@.len() == dlen <= usize::MAX,
            offset <= pos <= data@.len(),
            all == tokens_from(data@, offset as int, fmt),
            consumed + tokens_from(data@, pos as int, fmt) =~~= all,
            consumed.len() <= pos - offset,
            cum as int == sum_sizes(consumed, sizes@),
        decreases data@.len() - pos,
    {
        let ghost p0 = pos as int;
        let ghost old_consumed = consumed;
        match read_next_node(data, &mut pos, fmt) {
            Some(t) => {
                let sz = node_size(sizes, t.as_slice());
                proof {
                    lemma_next_token_progress(data@, p0, fmt);
                    consumed = consumed.push(t@);
                    assert(tokens_from(data@, p0, fmt) =~~= seq![t@] + tokens_from(
                        data@,
                        pos as int,
                        fmt,
                    ));
                    assert(consumed + tokens_from(data@, pos as int, fmt) =~~= all);
                    assert(consumed.drop_last() =~~= old_consumed);
                    lemma_sum_sizes_bounds(old_consumed, sizes@);
                    assert(old_consumed.len() < 0x1_0000_0000_0000_0000);
                    assert(sum_sizes(consumed, sizes@) == sum_sizes(old_consumed, sizes@)
                        + size_of_node(sizes@, t@));
                    assert(old_consumed.len() * 0xffff_ffff_ffff_ffff + 0xffff_ffff_ffff_ffff
                        < 0xffff_ffff_ffff_ffff_ffff_ffff_ffff_ffff) by (nonlinear_arith)
                        requires
                            0 <= old_consumed.len() < 0x1_0000_0000_0000_0000,
                    ;
                }
                cum = cum + (sz as u128);
            },
            None => {
                proof {
                    assert(tokens_from(data@, pos as int, fmt) =~~= Seq::<Seq<u8>>::empty());
                    assert(consumed + tokens_from(data@, pos as int, fmt) =~~= consumed);
                    assert(consumed =~~= all);
                    assert(sum_sizes(consumed, sizes@) == sum_sizes(all, sizes@));
                }
                return cum;
            },
        }
    }
}

/// Scan one record starting at byte `ls`; returns the start of the next
/// record.
fn scan_one_line(
    data: &[u8],
    ls: usize,
    hard: bool,
    sizes: &mut Table<u64>,
    paths: &mut Table<(usize, PathFormat)>,
) -> (next: usize)
    requires
        ls < data@.len(),
    ensures
        ls < next <= data@.len(),
        next == if find_from(data@, ls as int, 10) < data@.len() {
            find_from(data@, ls as int, 10) + 1
        } else {
            find_from(data@, ls as int, 10)
        },
        final(sizes)@ == scan_line(
            data@,
            ls as int,
            hard,
            ScanModel { sizes: old(sizes)@, paths: old(paths)@ },
        ).sizes,
        final(paths)@ == scan_line(
            data@,
            ls as int,
            hard,
            ScanModel { sizes: old(sizes)@, paths: old(paths)@ },
        ).paths,
        forall|i: int|
            0 <= i < final(paths)@.len() ==> (#[trigger] final(paths)@[i]).1.0 <= data@.len() || (i
                < old(paths)@.len() && final(paths)@[i] == old(paths)@[i]),
{
    let ghost m0 = ScanModel { sizes: sizes@, paths: paths@ };
    let le = find_byte(data, ls, 10);
    proof {
        lemma_find_from(data@, ls as int, 10);
    }
    let content = chop_cr_slice(vstd::slice::slice_subrange(data, ls, le));
    let ghost cs = chop_cr(data@.subrange(ls as int, le as int));
    let fields = split_fields(content, 9);
    let ghost fs = split_by(cs, 9);
    proof {
        lemma_split_by_sum(cs, 9);
        assert(cs.len() <= le - ls);
    }
    let next = if le < data.len() {
        le + 1
    } else {
        le
    };
    if content.len() == 0 {
        return next;
    }
    let tag = content[0];
    if tag == 83 {
        if fields.len() >= 3 {
            proof {
                lemma_name_list_elem(&fields, 1);
                lemma_name_list_elem(&fields, 2);
            }
            let name = fields[1].clone();
            let seq_field = trim_ascii(fields[2].as_slice());
            let sz: u64 = seq_field.len() as u64;
            sizes.insert(name, sz);
            proof {
                assert(sizes@ =~= scan_line(data@, ls as int, hard, m0).sizes);
            }
        }
    } else if tag == 87 {
        if fields.len() >= 7 {
            proof {
                lemma_name_list_elem(&fields, 0);
                lemma_name_list_elem(&fields, 1);
                lemma_name_list_elem(&fields, 2);
                lemma_name_list_elem(&fields, 3);
                lemma_name_list_elem(&fields, 4);
                lemma_name_list_elem(&fields, 5);
                lemma_name_list_elem(&fields, 6);
                lemma_fields_prefix_mono(fs, 7, fs.len() as int);
                assert(fields_prefix_len(fs, 7) + 7 - 1 <= cs.len());
                assert(fields_prefix_len(fs, 7) == fields_prefix_len(fs, 6) + fs[6].len());
                assert(fields_prefix_len(fs, 6) == fields_prefix_len(fs, 5) + fs[5].len());
                assert(fields_prefix_len(fs, 5) == fields_prefix_len(fs, 4) + fs[4].len());
                assert(fields_prefix_len(fs, 4) == fields_prefix_len(fs, 3) + fs[3].len());
                assert(fields_prefix_len(fs, 3) == fields_prefix_len(fs, 2) + fs[2].len());
                assert(fields_prefix_len(fs, 2) == fields_prefix_len(fs, 1) + fs[1].len());
                assert(fields_prefix_len(fs, 0) == 0);
                assert(fields_prefix_len(fs, 1) == fs[0].len());
            }
            let off0 = ls + fields[0].len() + fields[1].len() + fields[2].len() + fields[3].len()
                + fields[4].len() + fields[5].len() + 6;
            if off0 < le {
                let mut name: Vec<u8> = fields[1].clone();
                name.push(35);
                push_all(&mut name, fields[2].as_slice());
                name.push(35);
                push_all(&mut name, fields[3].as_slice());
                proof {
                    assert(name@ =~= fs[1] + seq![35u8] + fs[2] + seq![35u8] + fs[3]);
                }
                let key = normalize_path_name(name, hard);
                let ghost gkey = key@;
                paths.insert(key, (off0 + 1, PathFormat::WalkList));
                proof {
                    assert(paths@ =~= scan_line(data@, ls as int, hard, m0).paths);
                    crate::tables::lemma_key_index_from(m0.paths, 0, gkey);
                }
            }
        }
    } else if tag == 80 {
        if fields.len() >= 3 {
            proof {
                lemma_name_list_elem(&fields, 0);
                lemma_name_list_elem(&fields, 1);
                lemma_fields_prefix_mono(fs, 3, fs.len() as int);
                assert(fields_prefix_len(fs, 3) + 3 - 1 <= cs.len());
                assert(fields_prefix_len(fs, 3) == fields_prefix_len(fs, 2) + fs[2].len());
                assert(fields_prefix_len(fs, 2) == fields_prefix_len(fs, 1) + fs[1].len());
                assert(fields_prefix_len(fs, 0) == 0);
                assert(fields_prefix_len(fs, 1) == fs[0].len());
            }
            let off = ls + fields[0].len() + fields[1].len() + 2;
            let key = normalize_path_name(fields[1].clone(), hard);
            let ghost gkey = key@;
            paths.insert(key, (off, PathFormat::SegmentList));
            proof {
                assert(paths@ =~= scan_line(data@, ls as int, hard, m0).paths);
                crate::tables::lemma_key_index_from(m0.paths, 0, gkey);
            }
        }
    }
    next
}

/// Build the index of one graph file: one scan collecting node sizes and
/// path offsets, then one replay of every path computing its total length.
/// A file whose scan finds no path record is not in the expected format.
pub fn index_gfa(data: &[u8], hard_match: bool) -> (r: Result<GraphIndex, IndexError>)
    ensures
        match r {
            Ok(g) => scan_of(data@, hard_match).paths.len() > 0 && index_matches(
                g,
                data@,
                hard_match,
            ),
            Err(e) => scan_of(data@, hard_match).paths.len() == 0 && e == IndexError::NoPathsFound,
        },
{
    let ghost m_final = scan_of(data@, hard_match);
    let mut sizes: Table<u64> = Table::new();
    let mut paths: Table<(usize, PathFormat)> = Table::new();
    let mut ls: usize = 0;
    proof {
        assert(ScanModel { sizes: sizes@, paths: paths@ } =~~= ScanModel {
            sizes: Seq::empty(),
            paths: Seq::empty(),
        });
    }
    while ls < data.len()
        invariant
            ls <= data@.len(),
            scan_from(data@, ls as int, hard_match, ScanModel { sizes: sizes@, paths: paths@ })
                == m_final,
            m_final == scan_of(data@, hard_match),
            forall|i: int| 0 <= i < paths@.len() ==> (#[trigger] paths@[i]).1.0 <= data@.len(),
        decreases data@.len() - ls,
    {
        let ghost m_before = ScanModel { sizes: sizes@, paths: paths@ };
        let next = scan_one_line(data, ls, hard_match, &mut sizes, &mut paths);
        proof {
            assert(ScanModel { sizes: sizes@, paths: paths@ } == scan_line(
                data@,
                ls as int,
                hard_match,
                m_before,
            ));
            assert(scan_from(data@, ls as int, hard_match, m_before) == scan_from(
                data@,
                next as int,
                hard_match,
                scan_line(data@, ls as int, hard_match, m_before),
            ));
        }
        ls = next;
    }
    proof {
        assert(scan_from(data@, ls as int, hard_match, ScanModel { sizes: sizes@, paths: paths@ })
            == ScanModel { sizes: sizes@, paths: paths@ });
    }
    if paths.len() == 0 {
        return Err(IndexError::NoPathsFound);
    }
    let n = paths.len();
    let mut out: Table<PathInfo> = Table::new();
    let mut i: usize = 0;
    while i < n
        invariant
            i <= n,
            n == paths@.len(),
            out@.len() == i,
            m_final == scan_of(data@, hard_match),
            m_final.sizes == sizes@,
            m_final.paths == paths@,
            forall|j: int| 0 <= j < paths@.len() ==> (#[trigger] paths@[j]).1.0 <= data@.len(),
            forall|j: int|
                0 <= j < i ==> {
                    &&& (#[trigger] out@[j]).0 == paths@[j].0
                    &&& out@[j].1.offset == paths@[j].1.0
                    &&& out@[j].1.fmt == paths@[j].1.1
                    &&& out@[j].1.total_len as int == path_len_from(
                        data@,
                        paths@[j].1.0 as int,
                        paths@[j].1.1,
                        sizes@,
                    )
                },
        decreases n - i,
    {
        let key = paths.key_at(i).clone();
        let meta = *paths.value_at(i);
        let total = path_length(data, meta.0, meta.1, &sizes);
        out.push_entry(key, PathInfo { offset: meta.0, fmt: meta.1, total_len: total });
        i = i + 1;
    }
    Ok(GraphIndex { node_sizes: sizes, paths: out })
}

/// An index that one scan built points every path into its file's bytes,
/// so it can be handed to the aligner and the annotator.
pub proof fn lemma_index_offsets_in_bounds(g: GraphIndex, data: Seq<u8>, hard: bool)
    requires
        index_matches(g, data, hard),
    ensures
        offsets_in_bounds(g.paths@, data),
{
}

/// Law: for every indexed path, tokenizing from its recorded offset and
/// summing the recorded node sizes gives exactly its recorded total
/// length.
pub proof fn lemma_round_trip(g: GraphIndex, data: Seq<u8>, hard: bool, name: Seq<u8>)
    requires
        index_matches(g, data, hard),
        crate::tables::has_key(g.paths@, name),
    ensures
        (crate::tables::assoc_get(g.paths@, name).total_len as int == sum_sizes(
            tokens_from(
                data,
                crate::tables::assoc_get(g.paths@, name).offset as int,
                crate::tables::assoc_get(g.paths@, name).fmt,
            ),
            g.node_sizes@,
        )),
{
    crate::tables::lemma_key_index_from(g.paths@, 0, name);
    let i = crate::tables::key_index(g.paths@, name);
    let m = scan_of(data, hard);
    assert(g.paths@[i].1.total_len as int == path_len_from(
        data,
        m.paths[i].1.0 as int,
        m.paths[i].1.1,
        m.sizes,
    ));
}

} // verus!
