//! Lazy replay of a path's node list from a byte offset.
//!
//! A path's node list is stored either as a comma-delimited list of
//! oriented node ids (`SegmentList`) or as an angle-bracket-delimited walk
//! (`WalkList`). The tokenizer reads strictly forward: each call consumes
//! one node id and advances the cursor, and a tab, a line terminator
//! (newline or carriage return) or the end of the data ends the path.

use vstd::prelude::*;
use crate::tables::{has_key, assoc_get};
use crate::tables::Table;

verus! {

/// How a path's node list is written down.
#[derive(Clone, Copy, Debug, PartialEq, Eq, Structural)]
pub enum PathFormat {
    /// Comma-delimited oriented node list: tokens carry a trailing `+`/`-`.
    SegmentList,
    /// Walk: tokens are delimited by `<` or `>`, which carry the
    /// orientation themselves.
    WalkList,
}

/// Bytes at which a token of the given format ends.
pub open spec fn is_token_delim(b: u8, fmt: PathFormat) -> bool {
    match fmt {
        PathFormat::SegmentList => b == 44 || b == 9 || b == 10 || b == 13,
        PathFormat::WalkList => b == 60 || b == 62 || b == 9 || b == 10 || b == 13,
    }
}

/// Delimiters that separate two tokens and are consumed with the token;
/// a tab or line terminator instead ends the whole path and stays in
/// place.
pub open spec fn is_separator(b: u8, fmt: PathFormat) -> bool {
    match fmt {
        PathFormat::SegmentList => b == 44,
        PathFormat::WalkList => b == 60 || b == 62,
    }
}

/// First index at or after `pos` holding a token delimiter, or `data.len()`.
pub open spec fn token_end(data: Seq<u8>, pos: int, fmt: PathFormat) -> int
    decreases data.len() - pos when 0 <= pos <= data.len()
{
    if pos >= data.len() {
        data.len() as int
    } else if is_token_delim(data[pos], fmt) {
        pos
    } else {
        token_end(data, pos + 1, fmt)
    }
}

pub proof fn lemma_token_end(data: Seq<u8>, pos: int, fmt: PathFormat)
    requires
        0 <= pos <= data.len(),
    ensures
        pos <= token_end(data, pos, fmt) <= data.len(),
        token_end(data, pos, fmt) < data.len() ==> is_token_delim(
            data[token_end(data, pos, fmt)],
            fmt,
        ),
        forall|j: int| pos <= j < token_end(data, pos, fmt) ==> !is_token_delim(data[j], fmt),
    decreases data.len() - pos,
{
    if pos < data.len() && !is_token_delim(data[pos], fmt) {
        lemma_token_end(data, pos + 1, fmt);
    }
}

/// A single trailing orientation mark (`+`/`-`) removed.
pub open spec fn strip_orientation(t: Seq<u8>) -> Seq<u8> {
    if t.len() > 0 && (t.last() == 43 || t.last() == 45) {
        t.drop_last()
    } else {
        t
    }
}

/// The raw bytes of the token starting at `pos`, with the orientation mark
/// stripped for a comma-delimited list.
pub open spec fn token_of(data: Seq<u8>, pos: int, e: int, fmt: PathFormat) -> Seq<u8> {
    match fmt {
        PathFormat::SegmentList => strip_orientation(data.subrange(pos, e)),
        PathFormat::WalkList => data.subrange(pos, e),
    }
}

/// One tokenizer step at `pos`: the node id read and the cursor after it,
/// or `None` at the end of the path.
pub open spec fn next_token(data: Seq<u8>, pos: int, fmt: PathFormat) -> Option<(Seq<u8>, int)>
    recommends
        0 <= pos <= data.len(),
{
    let e = token_end(data, pos, fmt);
    if e < data.len() && is_separator(data[e], fmt) {
        Some((token_of(data, pos, e, fmt), e + 1))
    } else if e > pos {
        Some((token_of(data, pos, e, fmt), e))
    } else {
        None
    }
}

/// A step consumes at least one byte and stays within the data.
pub proof fn lemma_next_token_progress(data: Seq<u8>, pos: int, fmt: PathFormat)
    requires
        0 <= pos <= data.len(),
        next_token(data, pos, fmt) is Some,
    ensures
        pos < (next_token(data, pos, fmt)->0).1 <= data.len(),
{
    lemma_token_end(data, pos, fmt);
}

/// All node ids of the path starting at `pos`, in order.
pub open spec fn tokens_from(data: Seq<u8>, pos: int, fmt: PathFormat) -> Seq<Seq<u8>>
    decreases data.len() - pos when 0 <= pos <= data.len() via tokens_from_decreases
{
    match next_token(data, pos, fmt) {
        Some(tp) => seq![tp.0] + tokens_from(data, tp.1, fmt),
        None => Seq::empty(),
    }
}

#[via_fn]
proof fn tokens_from_decreases(data: Seq<u8>, pos: int, fmt: PathFormat) {
    if next_token(data, pos, fmt) is Some {
        lemma_next_token_progress(data, pos, fmt);
    }
}

/// Size of a node, zero when the node was never defined.
pub open spec fn size_of_node(sizes: Seq<(Seq<u8>, u64)>, name: Seq<u8>) -> int {
    if has_key(sizes, name) {
        assoc_get(sizes, name) as int
    } else {
        0
    }
}

/// Sum of the sizes of the listed nodes.
pub open spec fn sum_sizes(toks: Seq<Seq<u8>>, sizes: Seq<(Seq<u8>, u64)>) -> int
    decreases toks.len(),
{
    if toks.len() == 0 {
        0
    } else {
        sum_sizes(toks.drop_last(), sizes) + size_of_node(sizes, toks.last())
    }
}

/// Total length in symbols of the path starting at `pos`.
pub open spec fn path_len_from(
    data: Seq<u8>,
    pos: int,
    fmt: PathFormat,
    sizes: Seq<(Seq<u8>, u64)>,
) -> int {
    sum_sizes(tokens_from(data, pos, fmt), sizes)
}

/// The sum over a node list is its first node's size plus the rest.
pub proof fn lemma_sum_sizes_first(toks: Seq<Seq<u8>>, sizes: Seq<(Seq<u8>, u64)>)
    requires
        toks.len() > 0,
    ensures
        sum_sizes(toks, sizes) == size_of_node(sizes, toks[0]) + sum_sizes(
            toks.drop_first(),
            sizes,
        ),
    decreases toks.len(),
{
    if toks.len() == 1 {
        assert(toks.drop_last() =~= Seq::<Seq<u8>>::empty());
        assert(toks.drop_first() =~= Seq::<Seq<u8>>::empty());
    } else {
        lemma_sum_sizes_first(toks.drop_last(), sizes);
        assert(toks.drop_last()[0] == toks[0]);
        assert(toks.drop_last().drop_first() =~= toks.drop_first().drop_last());
        assert(toks.drop_first().last() == toks.last());
    }
}

pub proof fn lemma_sum_sizes_bounds(toks: Seq<Seq<u8>>, sizes: Seq<(Seq<u8>, u64)>)
    ensures
        0 <= sum_sizes(toks, sizes) <= toks.len() * 0xffff_ffff_ffff_ffff,
    decreases toks.len(),
{
    if toks.len() > 0 {
        lemma_sum_sizes_bounds(toks.drop_last(), sizes);
        assert((toks.len() - 1) * 0xffff_ffff_ffff_ffff + 0xffff_ffff_ffff_ffff == toks.len()
            * 0xffff_ffff_ffff_ffff) by (nonlinear_arith);
    }
}

fn is_token_delim_exec(b: u8, fmt: PathFormat) -> (r: bool)
    ensures
        r == is_token_delim(b, fmt),
{
    match fmt {
        PathFormat::SegmentList => b == 44 || b == 9 || b == 10 || b == 13,
        PathFormat::WalkList => b == 60 || b == 62 || b == 9 || b == 10 || b == 13,
    }
}

fn is_separator_exec(b: u8, fmt: PathFormat) -> (r: bool)
    ensures
        r == is_separator(b, fmt),
{
    match fmt {
        PathFormat::SegmentList => b == 44,
        PathFormat::WalkList => b == 60 || b == 62,
    }
}

/// Read the next node id at `*pos`, advancing the cursor; `None` at the
/// end of the path, with the cursor kept in place.
pub fn read_next_node(data: &[u8], pos: &mut usize, fmt: PathFormat) -> (r: Option<Vec<u8>>)
    requires
        *old(pos) <= data@.len(),
    ensures
        *old(pos) <= *final(pos) <= data@.len(),
        (r is Some) == (next_token(data@, *old(pos) as int, fmt) is Some),
        r is Some ==> (r->0)@ == (next_token(data@, *old(pos) as int, fmt)->0).0 && *final(pos)
            == (next_token(data@, *old(pos) as int, fmt)->0).1,
        r is None ==> *final(pos) == *old(pos),
{
    let start: usize = *pos;
    let mut e: usize = start;
    while e < data.len() && !is_token_delim_exec(data[e], fmt)
        invariant
            start <= e <= data@.len(),
            token_end(data@, start as int, fmt) == token_end(data@, e as int, fmt),
        decreases data@.len() - e,
    {
        e = e + 1;
    }
    proof {
        lemma_token_end(data@, start as int, fmt);
    }
    if e < data.len() && is_separator_exec(data[e], fmt) {
        let tok = extract_token(data, start, e, fmt);
        *pos = e + 1;
        Some(tok)
    } else if e > start {
        let tok = extract_token(data, start, e, fmt);
        *pos = e;
        Some(tok)
    } else {
        None
    }
}

/// The token bytes in `start..e`, with the orientation mark stripped for a
/// comma-delimited list.
fn extract_token(data: &[u8], start: usize, e: usize, fmt: PathFormat) -> (r: Vec<u8>)
    requires
        start <= e <= data@.len(),
    ensures
        r@ == token_of(data@, start as int, e as int, fmt),
{
    let stripped = match fmt {
        PathFormat::SegmentList => e > start && (data[e - 1] == 43 || data[e - 1] == 45),
        PathFormat::WalkList => false,
    };
    if stripped {
        let r = vstd::slice::slice_to_vec(vstd::slice::slice_subrange(data, start, e - 1));
        proof {
            assert(data@.subrange(start as int, e as int).drop_last() =~= data@.subrange(
                start as int,
                e as int - 1,
            ));
            assert(data@.subrange(start as int, e as int).last() == data@[e as int - 1]);
        }
        r
    } else {
        let r = vstd::slice::slice_to_vec(vstd::slice::slice_subrange(data, start, e));
        proof {
            if e > start {
                assert(data@.subrange(start as int, e as int).last() == data@[e as int - 1]);
            }
        }
        r
    }
}

/// Read the next node id of a comma-delimited node list.
pub fn read_next_p_node(data: &[u8], pos: &mut usize) -> (r: Option<Vec<u8>>)
    requires
        *old(pos) <= data@.len(),
    ensures
        *old(pos) <= *final(pos) <= data@.len(),
        (r is Some) == (next_token(data@, *old(pos) as int, PathFormat::SegmentList) is Some),
        r is Some ==> (r->0)@ == (next_token(data@, *old(pos) as int, PathFormat::SegmentList)->0).0
            && *final(pos) == (next_token(data@, *old(pos) as int, PathFormat::SegmentList)->0).1,
        r is None ==> *final(pos) == *old(pos),
{
    read_next_node(data, pos, PathFormat::SegmentList)
}

/// Read the next node id of a walk.
pub fn read_next_w_node(data: &[u8], pos: &mut usize) -> (r: Option<Vec<u8>>)
    requires
        *old(pos) <= data@.len(),
    ensures
        *old(pos) <= *final(pos) <= data@.len(),
        (r is Some) == (next_token(data@, *old(pos) as int, PathFormat::WalkList) is Some),
        r is Some ==> (r->0)@ == (next_token(data@, *old(pos) as int, PathFormat::WalkList)->0).0
            && *final(pos) == (next_token(data@, *old(pos) as int, PathFormat::WalkList)->0).1,
        r is None ==> *final(pos) == *old(pos),
{
    read_next_node(data, pos, PathFormat::WalkList)
}

/// All node ids of the path starting at `offset`.
pub fn tokenize_path(data: &[u8], offset: usize, fmt: PathFormat) -> (r: Vec<Vec<u8>>)
    requires
        offset <= data@.len(),
    ensures
        r.deep_view() == tokens_from(data@, offset as int, fmt),
{
    let mut toks: Vec<Vec<u8>> = Vec::new();
    let mut pos: usize = offset;
    proof {
        assert(toks.deep_view() + tokens_from(data@, offset as int, fmt) =~~= tokens_from(
            data@,
            offset as int,
            fmt,
        ));
    }
    loop
        invariant
            offset <= pos <= data@.len(),
            toks.deep_view() + tokens_from(data@, pos as int, fmt) =~~= tokens_from(
                data@,
                offset as int,
                fmt,
            ),
        decreases data@.len() - pos,
    {
        let ghost old_toks = toks.deep_view();
        let ghost p0 = pos as int;
        match read_next_node(data, &mut pos, fmt) {
            Some(t) => {
                toks.push(t);
                proof {
                    assert(toks.deep_view() =~~= old_toks.push(
                        (next_token(data@, p0, fmt)->0).0,
                    ));
                    assert(tokens_from(data@, p0, fmt) =~~= seq![
                        (next_token(data@, p0, fmt)->0).0,
                    ] + tokens_from(data@, pos as int, fmt));
                    assert(toks.deep_view() + tokens_from(data@, pos as int, fmt) =~~=
                        tokens_from(data@, offset as int, fmt));
                }
            },
            None => {
                proof {
                    assert(tokens_from(data@, pos as int, fmt) =~~= Seq::<Seq<u8>>::empty());
                    assert(toks.deep_view() =~~= tokens_from(data@, offset as int, fmt));
                }
                return toks;
            },
        }
    }
}

/// Size of a node, zero when the node was never defined.
pub fn node_size(sizes: &Table<u64>, name: &[u8]) -> (r: u64)
    ensures
        r as int == size_of_node(sizes@, name@),
{
    match sizes.get(name) {
        Some(v) => *v,
        None => 0,
    }
}

} // verus!
