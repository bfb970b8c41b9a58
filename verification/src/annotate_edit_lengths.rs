//! Annotation of a previously produced edit log with local lengths.
//!
//! For each path of interest the boundary coordinates of both graphs'
//! traversals are merged into one sorted list of distinct coordinates
//! (each traversal contributes a leading zero and every cumulative sum;
//! duplicates, within one traversal or across the two, collapse). Each
//! edit record's position is
//! located in that list - an exact match is required, its absence means the
//! log and the graphs are out of sync - and the edit's local length is its
//! distance to the nearest neighbouring boundary. The record is also
//! annotated with the length of the node it absorbed: the first graph's
//! node for a split, the second graph's for a merge.

use vstd::prelude::*;
use crate::bytes::{split_by, split_fields, all_digits, dec_value, parse_u128, trim_end_spec,
    trim_end_ascii};
use crate::tables::{Table, has_key, assoc_get, contains_name, lemma_name_list_elem,
    lemma_key_index_from, key_index};
use crate::tokenizer::{PathFormat, next_token, size_of_node, read_next_node, node_size,
    lemma_next_token_progress};
use crate::index_gfa_file::{GraphIndex, PathInfo, offsets_in_bounds};

verus! {

/// Why an annotation pass is fatal for the given inputs.
#[derive(Clone, Copy, Debug, PartialEq, Eq, Structural)]
pub enum AnnotateError {
    /// An edit record of a path in the intersection is not of the expected
    /// shape (missing fields, or a position that is not a number).
    MalformedRecord,
    /// A path of the intersection is missing from one of the two indexes.
    PathUnknown,
    /// An edit position is absent from the merged boundary list.
    PositionNotFound,
    /// An edit position sits at the very edge of the boundary list, with
    /// no neighbour on one side.
    MissingNeighbor,
    /// A traversal ran dry before its recorded total length.
    TokensExhausted,
}

/// One output line: a comment echoed unchanged, or an edit record
/// annotated with its local length and the absorbed node's length.
#[derive(Debug)]
pub enum AnnotatedLine {
    Comment(Vec<u8>),
    Annotated { line: Vec<u8>, local_length: u128, node_length: u64 },
}

/// The mathematical content of one output line.
#[verifier::ext_equal]
pub enum LineModel {
    Comment(Seq<u8>),
    Annotated { line: Seq<u8>, local_length: int, node_length: int },
}

pub open spec fn line_model(a: AnnotatedLine) -> LineModel {
    match a {
        AnnotatedLine::Comment(l) => LineModel::Comment(l@),
        AnnotatedLine::Annotated { line, local_length, node_length } => LineModel::Annotated {
            line: line@,
            local_length: local_length as int,
            node_length: node_length as int,
        },
    }
}

pub open spec fn lines_model(s: Seq<AnnotatedLine>) -> Seq<LineModel> {
    s.map_values(|a: AnnotatedLine| line_model(a))
}

/// The cumulative sums of one traversal, read until the running sum
/// reaches `total`; `None` when the node list runs dry first.
pub open spec fn walk_bounds(
    data: Seq<u8>,
    pos: int,
    fmt: PathFormat,
    sizes: Seq<(Seq<u8>, u64)>,
    cum: int,
    total: int,
) -> Option<Seq<int>>
    decreases data.len() - pos when 0 <= pos <= data.len() via walk_bounds_decreases
{
    if cum >= total {
        Some(Seq::empty())
    } else {
        match next_token(data, pos, fmt) {
            None => None,
            Some(tp) => {
                let c2 = cum + size_of_node(sizes, tp.0);
                match walk_bounds(data, tp.1, fmt, sizes, c2, total) {
                    None => None,
                    Some(rest) => Some(seq![c2] + rest),
                }
            },
        }
    }
}

#[via_fn]
proof fn walk_bounds_decreases(
    data: Seq<u8>,
    pos: int,
    fmt: PathFormat,
    sizes: Seq<(Seq<u8>, u64)>,
    cum: int,
    total: int,
) {
    if cum < total && next_token(data, pos, fmt) is Some {
        lemma_next_token_progress(data, pos, fmt);
    }
}

/// Boundary lists never decrease and never fall below the starting sum.
pub proof fn lemma_walk_bounds_sorted(
    data: Seq<u8>,
    pos: int,
    fmt: PathFormat,
    sizes: Seq<(Seq<u8>, u64)>,
    cum: int,
    total: int,
)
    requires
        0 <= pos <= data.len(),
        walk_bounds(data, pos, fmt, sizes, cum, total) is Some,
    ensures
        sorted_ints(walk_bounds(data, pos, fmt, sizes, cum, total)->0),
        forall|k: int|
            0 <= k < (walk_bounds(data, pos, fmt, sizes, cum, total)->0).len() ==> (walk_bounds(
                data,
                pos,
                fmt,
                sizes,
                cum,
                total,
            )->0)[k] >= cum,
    decreases data.len() - pos,
{
    if cum < total {
        let tp = next_token(data, pos, fmt)->0;
        lemma_next_token_progress(data, pos, fmt);
        let c2 = cum + size_of_node(sizes, tp.0);
        lemma_walk_bounds_sorted(data, tp.1, fmt, sizes, c2, total);
    }
}

pub open spec fn sorted_ints(s: Seq<int>) -> bool {
    forall|i: int, j: int| 0 <= i <= j < s.len() ==> s[i] <= s[j]
}

pub open spec fn nums_model(v: Seq<u128>) -> Seq<int> {
    v.map_values(|x: u128| x as int)
}

/// Two boundary lists interleaved in order.
pub open spec fn merge_seqs(a: Seq<int>, b: Seq<int>) -> Seq<int>
    decreases a.len() + b.len(),
{
    if a.len() == 0 {
        b
    } else if b.len() == 0 {
        a
    } else if a[0] <= b[0] {
        seq![a[0]] + merge_seqs(a.drop_first(), b)
    } else {
        seq![b[0]] + merge_seqs(a, b.drop_first())
    }
}

/// Merging keeps order and loses nothing.
pub proof fn lemma_merge_seqs_sorted(a: Seq<int>, b: Seq<int>)
    requires
        sorted_ints(a),
        sorted_ints(b),
    ensures
        sorted_ints(merge_seqs(a, b)),
        merge_seqs(a, b).len() == a.len() + b.len(),
        forall|k: int|
            0 <= k < merge_seqs(a, b).len() ==> a.contains(#[trigger] merge_seqs(a, b)[k])
                || b.contains(merge_seqs(a, b)[k]),
    decreases a.len() + b.len(),
{
    let m = merge_seqs(a, b);
    if a.len() == 0 || b.len() == 0 {
    } else {
        if a[0] <= b[0] {
            assert(sorted_ints(a.drop_first()));
            lemma_merge_seqs_sorted(a.drop_first(), b);
            let rest = merge_seqs(a.drop_first(), b);
            assert forall|k: int| 0 <= k < rest.len() implies a[0] <= rest[k] by {
                if a.drop_first().contains(rest[k]) {
                    let i = choose|i: int|
                        0 <= i < a.drop_first().len() && a.drop_first()[i] == rest[k];
                    assert(a[i + 1] == rest[k]);
                } else {
                    let i = choose|i: int| 0 <= i < b.len() && b[i] == rest[k];
                }
            }
            assert(sorted_ints(m));
            assert forall|k: int| 0 <= k < m.len() implies a.contains(#[trigger] m[k])
                || b.contains(m[k]) by {
                if k == 0 {
                    assert(a[0] == m[0]);
                } else {
                    if a.drop_first().contains(m[k]) {
                        let i = choose|i: int|
                            0 <= i < a.drop_first().len() && a.drop_first()[i] == m[k];
                        assert(a[i + 1] == m[k]);
                    }
                }
            }
        } else {
            assert(sorted_ints(b.drop_first()));
            lemma_merge_seqs_sorted(a, b.drop_first());
            let rest = merge_seqs(a, b.drop_first());
            assert forall|k: int| 0 <= k < rest.len() implies b[0] <= rest[k] by {
                if b.drop_first().contains(rest[k]) {
                    let i = choose|i: int|
                        0 <= i < b.drop_first().len() && b.drop_first()[i] == rest[k];
                    assert(b[i + 1] == rest[k]);
                } else {
                    let i = choose|i: int| 0 <= i < a.len() && a[i] == rest[k];
                }
            }
            assert(sorted_ints(m));
            assert forall|k: int| 0 <= k < m.len() implies a.contains(#[trigger] m[k])
                || b.contains(m[k]) by {
                if k == 0 {
                    assert(b[0] == m[0]);
                } else {
                    if b.drop_first().contains(m[k]) {
                        let i = choose|i: int|
                            0 <= i < b.drop_first().len() && b.drop_first()[i] == m[k];
                        assert(b[i + 1] == m[k]);
                    }
                }
            }
        }
    }
}

/// Adjacent duplicates dropped: of a run of equal values one stays.
pub open spec fn dedup_sorted(s: Seq<int>) -> Seq<int>
    decreases s.len(),
{
    if s.len() == 0 {
        s
    } else {
        let r = dedup_sorted(s.drop_last());
        if s.len() >= 2 && s.last() == s[s.len() - 2] {
            r
        } else {
            r.push(s.last())
        }
    }
}

/// Dropping adjacent duplicates keeps order and invents no value.
pub proof fn lemma_dedup_sorted(s: Seq<int>)
    requires
        sorted_ints(s),
    ensures
        sorted_ints(dedup_sorted(s)),
        forall|k: int| 0 <= k < dedup_sorted(s).len() ==> s.contains(#[trigger] dedup_sorted(s)[k]),
    decreases s.len(),
{
    if s.len() > 0 {
        let dl = s.drop_last();
        assert(sorted_ints(dl));
        lemma_dedup_sorted(dl);
        let r = dedup_sorted(dl);
        assert(forall|k: int| 0 <= k < dl.len() ==> s.contains(#[trigger] dl[k])) by {
            assert(forall|k: int| 0 <= k < dl.len() ==> dl[k] == s[k]);
        }
        if !(s.len() >= 2 && s.last() == s[s.len() - 2]) {
            let r2 = r.push(s.last());
            assert forall|i: int, j: int| 0 <= i <= j < r2.len() implies r2[i] <= r2[j] by {
                if j == r2.len() - 1 && i < j {
                    let x = r2[i];
                    assert(r[i] == x);
                    assert(dl.contains(x));
                    let w = choose|w: int| 0 <= w < dl.len() && dl[w] == x;
                    assert(s[w] == x);
                    assert(x <= s.last());
                }
            }
            assert(s.contains(s.last())) by {
                assert(s[s.len() - 1] == s.last());
            }
        }
    }
}

/// The merged boundary list of one path: the distinct union, in order, of
/// a leading zero and the cumulative sums from each graph's traversal.
pub open spec fn path_bounds_spec(
    data_a: Seq<u8>,
    data_b: Seq<u8>,
    info_a: PathInfo,
    info_b: PathInfo,
    sizes_a: Seq<(Seq<u8>, u64)>,
    sizes_b: Seq<(Seq<u8>, u64)>,
) -> Option<Seq<int>> {
    let wa = walk_bounds(
        data_a,
        info_a.offset as int,
        info_a.fmt,
        sizes_a,
        0,
        info_a.total_len as int,
    );
    let wb = walk_bounds(
        data_b,
        info_b.offset as int,
        info_b.fmt,
        sizes_b,
        0,
        info_b.total_len as int,
    );
    if wa is Some && wb is Some {
        Some(dedup_sorted(merge_seqs(seq![0] + (wa->0), seq![0] + (wb->0))))
    } else {
        None
    }
}

/// The boundary lists of every path of interest, keyed by path name, in
/// the given order. A name missing from either index, or a traversal that
/// runs dry, is fatal.
pub open spec fn bounds_table_spec(
    data_a: Seq<u8>,
    data_b: Seq<u8>,
    paths_a: Seq<(Seq<u8>, PathInfo)>,
    paths_b: Seq<(Seq<u8>, PathInfo)>,
    sizes_a: Seq<(Seq<u8>, u64)>,
    sizes_b: Seq<(Seq<u8>, u64)>,
    inter: Seq<Seq<u8>>,
    k: int,
) -> Result<Seq<(Seq<u8>, Seq<int>)>, AnnotateError>
    decreases inter.len() - k when 0 <= k <= inter.len()
{
    if k >= inter.len() {
        Ok(Seq::empty())
    } else {
        let name = inter[k];
        if !has_key(paths_a, name) || !has_key(paths_b, name) {
            Err(AnnotateError::PathUnknown)
        } else {
            match path_bounds_spec(
                data_a,
                data_b,
                assoc_get(paths_a, name),
                assoc_get(paths_b, name),
                sizes_a,
                sizes_b,
            ) {
                None => Err(AnnotateError::TokensExhausted),
                Some(merged) => match bounds_table_spec(
                    data_a,
                    data_b,
                    paths_a,
                    paths_b,
                    sizes_a,
                    sizes_b,
                    inter,
                    k + 1,
                ) {
                    Err(e) => Err(e),
                    Ok(rest) => Ok(seq![(name, merged)] + rest),
                },
            }
        }
    }
}

/// First index at or after `from` holding exactly `e`, or `v.len()`.
pub open spec fn find_pos(v: Seq<int>, from: int, e: int) -> int
    decreases v.len() - from when 0 <= from <= v.len()
{
    if from >= v.len() {
        v.len() as int
    } else if v[from] == e {
        from
    } else {
        find_pos(v, from + 1, e)
    }
}

pub proof fn lemma_find_pos(v: Seq<int>, from: int, e: int)
    requires
        0 <= from <= v.len(),
    ensures
        from <= find_pos(v, from, e) <= v.len(),
        find_pos(v, from, e) < v.len() ==> v[find_pos(v, from, e)] == e,
        forall|j: int| from <= j < find_pos(v, from, e) ==> v[j] != e,
    decreases v.len() - from,
{
    if from < v.len() && v[from] != e {
        lemma_find_pos(v, from + 1, e);
    }
}

/// One edit-log line annotated: a comment is echoed, a path outside the
/// intersection is dropped, and an edit record of an annotated path gets
/// its local length (the distance to the nearest neighbouring boundary)
/// and the absorbed node's length; the absorbed node is the first graph's
/// `nodeA` column when the operation column is `S`, else the second
/// graph's `nodeB` column.
pub open spec fn annotate_line_spec(
    line: Seq<u8>,
    bounds: Seq<(Seq<u8>, Seq<int>)>,
    inter: Seq<Seq<u8>>,
    sizes_a: Seq<(Seq<u8>, u64)>,
    sizes_b: Seq<(Seq<u8>, u64)>,
) -> Result<Option<LineModel>, AnnotateError> {
    if line.len() > 0 && line[0] == 35 {
        Ok(Some(LineModel::Comment(line)))
    } else {
        let fs = split_by(line, 9);
        if !inter.contains(fs[0]) {
            Ok(None)
        } else if fs.len() < 5 || fs[1].len() == 0 || !all_digits(fs[1]) || dec_value(fs[1])
            > u128::MAX {
            Err(AnnotateError::MalformedRecord)
        } else if !has_key(bounds, fs[0]) {
            Err(AnnotateError::PathUnknown)
        } else {
            let v = assoc_get(bounds, fs[0]);
            let e = dec_value(fs[1]);
            let idx = find_pos(v, 0, e);
            if idx >= v.len() {
                Err(AnnotateError::PositionNotFound)
            } else if idx == 0 || idx + 1 >= v.len() {
                Err(AnnotateError::MissingNeighbor)
            } else {
                let left = e - v[idx - 1];
                let right = v[idx + 1] - e;
                let local = if right < left {
                    right
                } else {
                    left
                };
                let node_len = if fs[2] == seq![83u8] {
                    size_of_node(sizes_a, fs[3])
                } else {
                    size_of_node(sizes_b, fs[4])
                };
                Ok(
                    Some(
                        LineModel::Annotated {
                            line: trim_end_spec(line),
                            local_length: local,
                            node_length: node_len,
                        },
                    ),
                )
            }
        }
    }
}

/// The annotation folded over every line of the edit log.
pub open spec fn annotate_lines_spec(
    lines: Seq<Seq<u8>>,
    bounds: Seq<(Seq<u8>, Seq<int>)>,
    inter: Seq<Seq<u8>>,
    sizes_a: Seq<(Seq<u8>, u64)>,
    sizes_b: Seq<(Seq<u8>, u64)>,
) -> Result<Seq<LineModel>, AnnotateError>
    decreases lines.len(),
{
    if lines.len() == 0 {
        Ok(Seq::empty())
    } else {
        match annotate_lines_spec(lines.drop_last(), bounds, inter, sizes_a, sizes_b) {
            Err(e) => Err(e),
            Ok(rest) => match annotate_line_spec(lines.last(), bounds, inter, sizes_a, sizes_b) {
                Err(e) => Err(e),
                Ok(None) => Ok(rest),
                Ok(Some(m)) => Ok(rest.push(m)),
            },
        }
    }
}

pub open spec fn bounds_model(s: Seq<(Seq<u8>, Vec<u128>)>) -> Seq<(Seq<u8>, Seq<int>)> {
    Seq::new(s.len(), |i: int| (s[i].0, nums_model(s[i].1@)))
}

pub open spec fn opt_prepend(pre: Seq<int>, o: Option<Seq<int>>) -> Option<Seq<int>> {
    match o {
        None => None,
        Some(s) => Some(pre + s),
    }
}

/// The boundary list of one traversal: a leading zero, then every
/// cumulative sum until the recorded total length is reached.
fn path_bounds(data: &[u8], info: PathInfo, sizes: &Table<u64>) -> (r: Result<
    Vec<u128>,
    AnnotateError,
>)
    requires
        info.offset <= data@.len(),
    ensures
        ({
            let w = walk_bounds(
                data@,
                info.offset as int,
                info.fmt,
                sizes@,
                0,
                info.total_len as int,
            );
            match r {
                Ok(v) => w is Some && nums_model(v@) == seq![0int] + (w->0),
                Err(e) => w is None && e == AnnotateError::TokensExhausted,
            }
        }),
{
    let ghost total_g = info.total_len as int;
    let fmt = info.fmt;
    let off = info.offset;
    let dlen: usize = data.len();
    let mut out: Vec<u128> = Vec::new();
    out.push(0);
    let mut cum: u128 = 0;
    let mut pos: usize = off;
    let ghost mut done: Seq<int> = Seq::empty();
    proof {
        assert(nums_model(out@) =~= seq![0int] + done);
        assert(Seq::empty() + walk_bounds(data@, pos as int, fmt, sizes@, 0, total_g)->0
            =~= walk_bounds(data@, pos as int, fmt, sizes@, 0, total_g)->0);
    }
    while cum < info.total_len
        invariant
            off <= pos <= data@.len(),
            data@.len() == dlen <= usize::MAX,
            fmt == info.fmt,
            off == info.offset,
            total_g == info.total_len as int,
            cum as int <= (pos - off) * 0xffff_ffff_ffff_ffff,
            nums_model(out@) =~= seq![0int] + done,
            opt_prepend(done, walk_bounds(data@, pos as int, fmt, sizes@, cum as int, total_g))
                == walk_bounds(data@, off as int, fmt, sizes@, 0, total_g),
        decreases data@.len() - pos,
    {
        let ghost p0 = pos as int;
        let ghost c0 = cum as int;
        let ghost done0 = done;
        let ghost out0 = nums_model(out@);
        let t = match read_next_node(data, &mut pos, fmt) {
            Some(t) => t,
            None => {
                proof {
                    assert(walk_bounds(data@, p0, fmt, sizes@, c0, total_g) is None);
                }
                return Err(AnnotateError::TokensExhausted);
            },
        };
        proof {
            lemma_next_token_progress(data@, p0, fmt);
        }
        let sz = node_size(sizes, t.as_slice());
        proof {
            assert((pos - off - 1) * 0xffff_ffff_ffff_ffff + 0xffff_ffff_ffff_ffff == (pos - off)
                * 0xffff_ffff_ffff_ffff) by (nonlinear_arith);
            assert((pos - off) * 0xffff_ffff_ffff_ffff
                < 0xffff_ffff_ffff_ffff_ffff_ffff_ffff_ffff) by (nonlinear_arith)
                requires
                    0 <= pos - off <= 0xffff_ffff_ffff_ffff,
            ;
        }
        cum = cum + (sz as u128);
        out.push(cum);
        proof {
            done = done.push(cum as int);
            assert(nums_model(out@) =~= out0.push(cum as int));
            assert(nums_model(out@) =~= seq![0int] + done);
            let w_next = walk_bounds(data@, pos as int, fmt, sizes@, cum as int, total_g);
            assert(walk_bounds(data@, p0, fmt, sizes@, c0, total_g) == opt_prepend(
                seq![cum as int],
                w_next,
            ));
            if w_next is Some {
                assert(done0 + (seq![cum as int] + (w_next->0)) =~= done + (w_next->0));
            }
            assert(opt_prepend(done, w_next) == walk_bounds(data@, off as int, fmt, sizes@, 0, total_g));
        }
    }
    proof {
        assert(walk_bounds(data@, pos as int, fmt, sizes@, cum as int, total_g) == Some(
            Seq::<int>::empty(),
        ));
        assert(done + Seq::<int>::empty() =~= done);
    }
    Ok(out)
}

/// Interleave two boundary lists in order.
fn merge_sorted(a: &Vec<u128>, b: &Vec<u128>) -> (r: Vec<u128>)
    ensures
        nums_model(r@) == merge_seqs(nums_model(a@), nums_model(b@)),
{
    let ghost full = merge_seqs(nums_model(a@), nums_model(b@));
    let mut out: Vec<u128> = Vec::new();
    let mut i: usize = 0;
    let mut j: usize = 0;
    proof {
        assert(nums_model(a@).skip(0) =~= nums_model(a@));
        assert(nums_model(b@).skip(0) =~= nums_model(b@));
        assert(nums_model(out@) + merge_seqs(nums_model(a@).skip(0), nums_model(b@).skip(0)) =~=
            full);
    }
    while i < a.len() || j < b.len()
        invariant
            i <= a@.len(),
            j <= b@.len(),
            full == merge_seqs(nums_model(a@), nums_model(b@)),
            nums_model(out@) + merge_seqs(nums_model(a@).skip(i as int), nums_model(b@).skip(
                j as int,
            )) =~= full,
        decreases a@.len() - i + b@.len() - j,
    {
        let ghost out0 = nums_model(out@);
        let ghost sa = nums_model(a@).skip(i as int);
        let ghost sb = nums_model(b@).skip(j as int);
        let take_a = if j >= b.len() {
            true
        } else if i >= a.len() {
            false
        } else {
            a[i] <= b[j]
        };
        if take_a {
            let x = a[i];
            out.push(x);
            proof {
                assert(sa[0] == x as int);
                assert(sa.drop_first() =~= nums_model(a@).skip(i as int + 1));
                assert(merge_seqs(sa, sb) =~= seq![x as int] + merge_seqs(sa.drop_first(), sb));
                assert(nums_model(out@) =~= out0.push(x as int));
                assert(nums_model(out@) + merge_seqs(nums_model(a@).skip(i as int + 1), sb) =~=
                    full);
            }
            i = i + 1;
        } else {
            let x = b[j];
            out.push(x);
            proof {
                assert(sb[0] == x as int);
                assert(sb.drop_first() =~= nums_model(b@).skip(j as int + 1));
                assert(merge_seqs(sa, sb) =~= seq![x as int] + merge_seqs(sa, sb.drop_first()));
                assert(nums_model(out@) =~= out0.push(x as int));
                assert(nums_model(out@) + merge_seqs(sa, nums_model(b@).skip(j as int + 1)) =~=
                    full);
            }
            j = j + 1;
        }
    }
    proof {
        assert(merge_seqs(
            nums_model(a@).skip(a@.len() as int),
            nums_model(b@).skip(b@.len() as int),
        ) =~= Seq::<int>::empty());
        assert(nums_model(out@) =~= full);
    }
    out
}

/// Drop adjacent duplicates from a sorted boundary list.
fn dedup_adjacent(v: &Vec<u128>) -> (r: Vec<u128>)
    ensures
        nums_model(r@) == dedup_sorted(nums_model(v@)),
{
    let mut out: Vec<u128> = Vec::new();
    let n = v.len();
    let mut i: usize = 0;
    proof {
        assert(nums_model(out@) =~= dedup_sorted(nums_model(v@).take(0)));
    }
    while i < n
        invariant
            i <= n,
            n == v@.len(),
            nums_model(out@) =~= dedup_sorted(nums_model(v@).take(i as int)),
        decreases n - i,
    {
        let ghost pre = nums_model(out@);
        let ghost m = nums_model(v@);
        proof {
            assert(m.take(i as int + 1).drop_last() =~= m.take(i as int));
            assert(m.take(i as int + 1).last() == m[i as int]);
            if i >= 1 {
                assert(m.take(i as int + 1)[i as int - 1] == m[i as int - 1]);
            }
        }
        let dup = i >= 1 && v[i] == v[i - 1];
        if !dup {
            out.push(v[i]);
            proof {
                assert(nums_model(out@) =~= pre.push(m[i as int]));
            }
        }
        proof {
            assert(nums_model(out@) =~= dedup_sorted(m.take(i as int + 1)));
        }
        i = i + 1;
    }
    proof {
        assert(nums_model(v@).take(n as int) =~= nums_model(v@));
    }
    out
}

/// First index of `e` in `v`, or `v.len()`.
fn find_position(v: &Vec<u128>, e: u128) -> (r: usize)
    ensures
        r == find_pos(nums_model(v@), 0, e as int),
{
    let n = v.len();
    let mut i: usize = 0;
    while i < n
        invariant
            i <= n,
            n == v@.len(),
            find_pos(nums_model(v@), 0, e as int) == find_pos(nums_model(v@), i as int, e as int),
        decreases n - i,
    {
        if v[i] == e {
            proof {
                assert(nums_model(v@)[i as int] == e as int);
            }
            return i;
        }
        proof {
            assert(nums_model(v@)[i as int] != e as int);
        }
        i = i + 1;
    }
    i
}

/// Annotate one line of the edit log against the boundary table.
fn annotate_one(
    line: &Vec<u8>,
    bounds: &Table<Vec<u128>>,
    intersection: &Vec<Vec<u8>>,
    sizes_a: &Table<u64>,
    sizes_b: &Table<u64>,
) -> (r: Result<Option<AnnotatedLine>, AnnotateError>)
    requires
        forall|i: int|
            0 <= i < bounds@.len() ==> sorted_ints(nums_model((#[trigger] bounds@[i]).1@)),
    ensures
        ({
            let spec_r = annotate_line_spec(
                line@,
                bounds_model(bounds@),
                intersection.deep_view(),
                sizes_a@,
                sizes_b@,
            );
            match r {
                Ok(Some(al)) => spec_r == Ok::<Option<LineModel>, AnnotateError>(Some(line_model(al))),
                Ok(None) => spec_r == Ok::<Option<LineModel>, AnnotateError>(None),
                Err(e) => spec_r == Err::<Option<LineModel>, AnnotateError>(e),
            }
        }),
{
    if line.len() > 0 {
        let first = line[0];
        if first == 35 {
            return Ok(Some(AnnotatedLine::Comment(line.clone())));
        }
    }
    let fields = split_fields(line.as_slice(), 9);
    let ghost fs = split_by(line@, 9);
    proof {
        crate::index_gfa_file::lemma_split_by_sum(line@, 9);
        lemma_name_list_elem(&fields, 0);
    }
    if !contains_name(intersection, fields[0].as_slice()) {
        return Ok(None);
    }
    if fields.len() < 5 {
        return Err(AnnotateError::MalformedRecord);
    }
    proof {
        lemma_name_list_elem(&fields, 1);
        lemma_name_list_elem(&fields, 2);
        lemma_name_list_elem(&fields, 3);
        lemma_name_list_elem(&fields, 4);
    }
    let e = match parse_u128(fields[1].as_slice()) {
        Some(v) => v,
        None => {
            return Err(AnnotateError::MalformedRecord);
        },
    };
    let v = match bounds.get(fields[0].as_slice()) {
        Some(v) => v,
        None => {
            proof {
                crate::tables::lemma_key_index_same_keys(
                    bounds@,
                    bounds_model(bounds@),
                    0,
                    fs[0],
                );
            }
            return Err(AnnotateError::PathUnknown);
        },
    };
    proof {
        crate::tables::lemma_key_index_same_keys(bounds@, bounds_model(bounds@), 0, fs[0]);
        crate::tables::lemma_key_index_from(bounds@, 0, fs[0]);
        assert(nums_model(v@) == assoc_get(bounds_model(bounds@), fs[0]));
        assert(sorted_ints(nums_model(v@)));
    }
    let idx = find_position(v, e);
    proof {
        lemma_find_pos(nums_model(v@), 0, e as int);
    }
    if idx >= v.len() {
        return Err(AnnotateError::PositionNotFound);
    }
    if idx == 0 || idx + 1 >= v.len() {
        return Err(AnnotateError::MissingNeighbor);
    }
    proof {
        assert(nums_model(v@)[idx as int] == e as int);
        assert(nums_model(v@)[idx as int - 1] <= e as int);
        assert(e as int <= nums_model(v@)[idx as int + 1]);
    }
    let left = e - v[idx - 1];
    let right = v[idx + 1] - e;
    let local = if right < left {
        right
    } else {
        left
    };
    let op = &fields[2];
    let is_split = op.len() == 1 && op[0] == 83;
    proof {
        if is_split {
            assert(fs[2] =~= seq![83u8]);
        } else {
            assert(fs[2] != seq![83u8]) by {
                if fs[2] == seq![83u8] {
                    assert(fs[2].len() == 1 && fs[2][0] == 83);
                }
            }
        }
    }
    let node_length = if is_split {
        node_size(sizes_a, fields[3].as_slice())
    } else {
        node_size(sizes_b, fields[4].as_slice())
    };
    let trimmed = trim_end_ascii(line.as_slice());
    Ok(
        Some(
            AnnotatedLine::Annotated { line: trimmed, local_length: local, node_length },
        ),
    )
}

/// A fold that failed on some prefix fails as a whole, with the same
/// error.
proof fn lemma_annotate_prefix_err(
    lines: Seq<Seq<u8>>,
    j: int,
    bounds: Seq<(Seq<u8>, Seq<int>)>,
    inter: Seq<Seq<u8>>,
    sizes_a: Seq<(Seq<u8>, u64)>,
    sizes_b: Seq<(Seq<u8>, u64)>,
)
    requires
        0 <= j <= lines.len(),
        annotate_lines_spec(lines.take(j), bounds, inter, sizes_a, sizes_b) is Err,
    ensures
        annotate_lines_spec(lines, bounds, inter, sizes_a, sizes_b) == annotate_lines_spec(
            lines.take(j),
            bounds,
            inter,
            sizes_a,
            sizes_b,
        ),
    decreases lines.len(),
{
    if j == lines.len() {
        assert(lines.take(j) =~= lines);
    } else {
        assert(lines.drop_last().take(j) =~= lines.take(j));
        lemma_annotate_prefix_err(lines.drop_last(), j, bounds, inter, sizes_a, sizes_b);
    }
}

/// Annotate a previously produced edit log: build each intersection path's
/// merged boundary list from both graphs, then annotate every log line.
/// Fatal conditions - a path missing from an index, a traversal that runs
/// dry, a record that does not parse, a position absent from the boundary
/// list or without a neighbour - end the pass with the first error, in
/// boundary-building order and then in line order.
pub fn annotate_editions(
    data_a: &[u8],
    data_b: &[u8],
    edit_lines: &Vec<Vec<u8>>,
    index_a: &GraphIndex,
    index_b: &GraphIndex,
    intersection: &Vec<Vec<u8>>,
) -> (r: Result<Vec<AnnotatedLine>, AnnotateError>)
    requires
        offsets_in_bounds(index_a.paths@, data_a@),
        offsets_in_bounds(index_b.paths@, data_b@),
    ensures
        ({
            let bt = bounds_table_spec(
                data_a@,
                data_b@,
                index_a.paths@,
                index_b.paths@,
                index_a.node_sizes@,
                index_b.node_sizes@,
                intersection.deep_view(),
                0,
            );
            match r {
                Ok(v) => bt matches Ok(b) && annotate_lines_spec(
                    edit_lines.deep_view(),
                    b,
                    intersection.deep_view(),
                    index_a.node_sizes@,
                    index_b.node_sizes@,
                ) == Ok::<Seq<LineModel>, AnnotateError>(lines_model(v@)),
                Err(e) => (bt matches Err(e2) && e2 == e) || (bt matches Ok(b)
                    && annotate_lines_spec(
                    edit_lines.deep_view(),
                    b,
                    intersection.deep_view(),
                    index_a.node_sizes@,
                    index_b.node_sizes@,
                ) == Err::<Seq<LineModel>, AnnotateError>(e)),
            }
        }),
{
    let ghost inter = intersection.deep_view();
    let ghost bt_full = bounds_table_spec(
        data_a@,
        data_b@,
        index_a.paths@,
        index_b.paths@,
        index_a.node_sizes@,
        index_b.node_sizes@,
        inter,
        0,
    );
    let mut bounds: Table<Vec<u128>> = Table::new();
    let n = intersection.len();
    let mut i: usize = 0;
    proof {
        assert(bounds_model(bounds@) =~~= Seq::<(Seq<u8>, Seq<int>)>::empty());
    }
    while i < n
        invariant
            i <= n,
            n == intersection@.len(),
            inter == intersection.deep_view(),
            offsets_in_bounds(index_a.paths@, data_a@),
            offsets_in_bounds(index_b.paths@, data_b@),
            bt_full == bounds_table_spec(
                data_a@,
                data_b@,
                index_a.paths@,
                index_b.paths@,
                index_a.node_sizes@,
                index_b.node_sizes@,
                inter,
                0,
            ),
            bt_full == (match bounds_table_spec(
                data_a@,
                data_b@,
                index_a.paths@,
                index_b.paths@,
                index_a.node_sizes@,
                index_b.node_sizes@,
                inter,
                i as int,
            ) {
                Err(e) => Err(e),
                Ok(rest) => Ok(bounds_model(bounds@) + rest),
            }),
            forall|k: int|
                0 <= k < bounds@.len() ==> sorted_ints(nums_model((#[trigger] bounds@[k]).1@)),
        decreases n - i,
    {
        let ghost pre = bounds_model(bounds@);
        proof {
            lemma_name_list_elem(intersection, i as int);
        }
        let name = intersection[i].clone();
        proof {
            assert(name@ =~= inter[i as int]);
        }
        let info_a = match index_a.paths.get(name.as_slice()) {
            Some(p) => *p,
            None => {
                return Err(AnnotateError::PathUnknown);
            },
        };
        let info_b = match index_b.paths.get(name.as_slice()) {
            Some(p) => *p,
            None => {
                return Err(AnnotateError::PathUnknown);
            },
        };
        proof {
            crate::tables::lemma_key_index_from(index_a.paths@, 0, name@);
            crate::tables::lemma_key_index_from(index_b.paths@, 0, name@);
            assert(index_a.paths@[key_index(index_a.paths@, name@)].1.offset <= data_a@.len());
            assert(index_b.paths@[key_index(index_b.paths@, name@)].1.offset <= data_b@.len());
        }
        let wa = match path_bounds(data_a, info_a, &index_a.node_sizes) {
            Ok(v) => v,
            Err(e) => {
                return Err(AnnotateError::TokensExhausted);
            },
        };
        let wb = match path_bounds(data_b, info_b, &index_b.node_sizes) {
            Ok(v) => v,
            Err(e) => {
                return Err(AnnotateError::TokensExhausted);
            },
        };
        let merged = merge_sorted(&wa, &wb);
        proof {
            let gwa = walk_bounds(
                data_a@,
                info_a.offset as int,
                info_a.fmt,
                index_a.node_sizes@,
                0,
                info_a.total_len as int,
            );
            let gwb = walk_bounds(
                data_b@,
                info_b.offset as int,
                info_b.fmt,
                index_b.node_sizes@,
                0,
                info_b.total_len as int,
            );
            lemma_walk_bounds_sorted(
                data_a@,
                info_a.offset as int,
                info_a.fmt,
                index_a.node_sizes@,
                0,
                info_a.total_len as int,
            );
            lemma_walk_bounds_sorted(
                data_b@,
                info_b.offset as int,
                info_b.fmt,
                index_b.node_sizes@,
                0,
                info_b.total_len as int,
            );
            assert(sorted_ints(seq![0int] + (gwa->0)));
            assert(sorted_ints(seq![0int] + (gwb->0)));
            lemma_merge_seqs_sorted(seq![0int] + (gwa->0), seq![0int] + (gwb->0));
            lemma_dedup_sorted(merge_seqs(seq![0int] + (gwa->0), seq![0int] + (gwb->0)));
        }
        let merged = dedup_adjacent(&merged);
        bounds.push_entry(name, merged);
        proof {
            assert(bounds_model(bounds@) =~~= pre.push((inter[i as int], nums_model(merged@))));
            assert(bounds_model(bounds@) =~~= pre + seq![(inter[i as int], nums_model(merged@))]);
            let gwa = walk_bounds(
                data_a@,
                info_a.offset as int,
                info_a.fmt,
                index_a.node_sizes@,
                0,
                info_a.total_len as int,
            );
            let gwb = walk_bounds(
                data_b@,
                info_b.offset as int,
                info_b.fmt,
                index_b.node_sizes@,
                0,
                info_b.total_len as int,
            );
            assert(path_bounds_spec(
                data_a@,
                data_b@,
                info_a,
                info_b,
                index_a.node_sizes@,
                index_b.node_sizes@,
            ) == Some(nums_model(merged@)));
            assert(assoc_get(index_a.paths@, inter[i as int]) == info_a);
            assert(assoc_get(index_b.paths@, inter[i as int]) == info_b);
            let bt_n = bounds_table_spec(
                data_a@,
                data_b@,
                index_a.paths@,
                index_b.paths@,
                index_a.node_sizes@,
                index_b.node_sizes@,
                inter,
                i as int + 1,
            );
            match bt_n {
                Err(e) => {
                },
                Ok(rest) => {
                    assert(pre + (seq![(inter[i as int], nums_model(merged@))] + rest) =~~=
                        bounds_model(bounds@) + rest);
                },
            }
        }
        i = i + 1;
    }
    proof {
        assert(bounds_table_spec(
            data_a@,
            data_b@,
            index_a.paths@,
            index_b.paths@,
            index_a.node_sizes@,
            index_b.node_sizes@,
            inter,
            n as int,
        ) == Ok::<Seq<(Seq<u8>, Seq<int>)>, AnnotateError>(Seq::empty()));
        assert(bounds_model(bounds@) + Seq::<(Seq<u8>, Seq<int>)>::empty() =~~= bounds_model(
            bounds@,
        ));
    }
    let mut out: Vec<AnnotatedLine> = Vec::new();
    let m = edit_lines.len();
    let mut j: usize = 0;
    proof {
        assert(lines_model(out@) =~~= Seq::<LineModel>::empty());
        assert(edit_lines.deep_view().take(0) =~~= Seq::<Seq<u8>>::empty());
    }
    while j < m
        invariant
            j <= m,
            m == edit_lines@.len(),
            inter == intersection.deep_view(),
            bt_full == bounds_table_spec(
                data_a@,
                data_b@,
                index_a.paths@,
                index_b.paths@,
                index_a.node_sizes@,
                index_b.node_sizes@,
                inter,
                0,
            ),
            bt_full == Ok::<Seq<(Seq<u8>, Seq<int>)>, AnnotateError>(bounds_model(bounds@)),
            forall|k: int|
                0 <= k < bounds@.len() ==> sorted_ints(nums_model((#[trigger] bounds@[k]).1@)),
            annotate_lines_spec(
                edit_lines.deep_view().take(j as int),
                bounds_model(bounds@),
                inter,
                index_a.node_sizes@,
                index_b.node_sizes@,
            ) == Ok::<Seq<LineModel>, AnnotateError>(lines_model(out@)),
        decreases m - j,
    {
        let ghost pre = lines_model(out@);
        let ghost lv = edit_lines.deep_view();
        proof {
            lemma_name_list_elem(edit_lines, j as int);
            assert(lv.take(j as int + 1).drop_last() =~~= lv.take(j as int));
            assert(lv.take(j as int + 1).last() == lv[j as int]);
        }
        match annotate_one(&edit_lines[j], &bounds, intersection, &index_a.node_sizes,
            &index_b.node_sizes) {
            Ok(Some(al)) => {
                let ghost alm = line_model(al);
                out.push(al);
                proof {
                    assert(lines_model(out@) =~~= pre.push(alm));
                }
            },
            Ok(None) => {
            },
            Err(e) => {
                proof {
                    assert(annotate_lines_spec(
                        lv.take(j as int + 1),
                        bounds_model(bounds@),
                        inter,
                        index_a.node_sizes@,
                        index_b.node_sizes@,
                    ) == Err::<Seq<LineModel>, AnnotateError>(e));
                    lemma_annotate_prefix_err(
                        lv,
                        j as int + 1,
                        bounds_model(bounds@),
                        inter,
                        index_a.node_sizes@,
                        index_b.node_sizes@,
                    );
                }
                return Err(e);
            },
        }
        j = j + 1;
    }
    proof {
        assert(edit_lines.deep_view().take(m as int) =~~= edit_lines.deep_view());
    }
    Ok(out)
}

} // verus!
