//! The breakpoint-alignment engine.
//!
//! Two graphs' versions of one path are walked in lockstep, node by node.
//! Two cumulative counters hold the symbols consumed on each side; while
//! they agree the graphs place the same boundary and both sides advance.
//! Where graph A's counter falls behind, A has a boundary inside graph B's
//! current node - a split relative to B; the symmetric case is a merge.
//! A disagreement at a node listed as spurious is suppressed and counted
//! separately; the spurious sets are read-only inputs, so membership alone
//! decides, however often a name flanks a disagreement. Equality is judged
//! on cumulative length alone, never on node identity. A tokenizer that
//! runs dry before the validated total length is reached is a fatal
//! inconsistency for that path.

use vstd::prelude::*;
use crate::tables::{Table, has_key, assoc_get, contains_name};
use crate::tokenizer::{PathFormat, tokens_from, size_of_node, read_next_node, node_size,
    lemma_next_token_progress};
use crate::index_gfa_file::{GraphIndex, PathInfo, offsets_in_bounds};

verus! {

/// Which graph's boundary was absorbed by the other.
#[derive(Clone, Copy, Debug, PartialEq, Eq, Structural)]
pub enum EditKind {
    Merge,
    Split,
}

/// One reported disagreement between the two segmentations of a path.
#[derive(Debug)]
pub struct EditOperation {
    pub path: Vec<u8>,
    pub position: u128,
    pub kind: EditKind,
    pub node_a: Vec<u8>,
    pub node_b: Vec<u8>,
    pub breakpoint_a: u128,
    pub breakpoint_b: u128,
}

/// The mathematical content of one edit record.
#[verifier::ext_equal]
pub struct EditModel {
    pub position: int,
    pub kind: EditKind,
    pub node_a: Seq<u8>,
    pub node_b: Seq<u8>,
    pub breakpoint_a: int,
    pub breakpoint_b: int,
}

pub open spec fn edit_model(e: EditOperation) -> EditModel {
    EditModel {
        position: e.position as int,
        kind: e.kind,
        node_a: e.node_a@,
        node_b: e.node_b@,
        breakpoint_a: e.breakpoint_a as int,
        breakpoint_b: e.breakpoint_b as int,
    }
}

pub open spec fn edits_model(s: Seq<EditOperation>) -> Seq<EditModel> {
    s.map_values(|e: EditOperation| edit_model(e))
}

/// What one alignment run produces: the edit log, the event counts, and
/// whether the run reached the total length before a tokenizer ran dry.
#[verifier::ext_equal]
pub struct AlignLog {
    pub ok: bool,
    pub edits: Seq<EditModel>,
    pub equivalences: int,
    pub merges: int,
    pub splits: int,
    pub spurious: int,
}

pub open spec fn align_fail() -> AlignLog {
    AlignLog { ok: false, edits: Seq::empty(), equivalences: 0, merges: 0, splits: 0, spurious: 0 }
}

pub open spec fn align_done() -> AlignLog {
    AlignLog { ok: true, edits: Seq::empty(), equivalences: 0, merges: 0, splits: 0, spurious: 0 }
}

/// `pre`'s events followed by `post`'s.
pub open spec fn log_extend(pre: AlignLog, post: AlignLog) -> AlignLog {
    AlignLog {
        ok: post.ok,
        edits: pre.edits + post.edits,
        equivalences: pre.equivalences + post.equivalences,
        merges: pre.merges + post.merges,
        splits: pre.splits + post.splits,
        spurious: pre.spurious + post.spurious,
    }
}

/// The four-state alignment walk, from a mid-run state: `rem_a`/`rem_b`
/// are the node ids not yet read, `bpa`/`bpb` the symbols consumed so far,
/// `cur_a`/`cur_b` the node ids read last, and `spa`/`spb` the read-only
/// spurious names of each graph. The walk ends when `min(bpa, bpb)`
/// reaches `total`.
pub open spec fn align_from(
    rem_a: Seq<Seq<u8>>,
    rem_b: Seq<Seq<u8>>,
    sizes_a: Seq<(Seq<u8>, u64)>,
    sizes_b: Seq<(Seq<u8>, u64)>,
    total: int,
    bpa: int,
    bpb: int,
    cur_a: Seq<u8>,
    cur_b: Seq<u8>,
    spa: Seq<Seq<u8>>,
    spb: Seq<Seq<u8>>,
) -> AlignLog
    decreases rem_a.len() + rem_b.len(),
{
    let pos = if bpa < bpb {
        bpa
    } else {
        bpb
    };
    if pos >= total {
        align_done()
    } else if bpa == bpb {
        if rem_a.len() == 0 || rem_b.len() == 0 {
            align_fail()
        } else {
            let na = rem_a[0];
            let nb = rem_b[0];
            let rest = align_from(
                rem_a.drop_first(),
                rem_b.drop_first(),
                sizes_a,
                sizes_b,
                total,
                bpa + size_of_node(sizes_a, na),
                bpb + size_of_node(sizes_b, nb),
                na,
                nb,
                spa,
                spb,
            );
            AlignLog { equivalences: rest.equivalences + 1, ..rest }
        }
    } else if bpa < bpb {
        if rem_a.len() == 0 {
            align_fail()
        } else {
            let na = rem_a[0];
            let rest = align_from(
                rem_a.drop_first(),
                rem_b,
                sizes_a,
                sizes_b,
                total,
                bpa + size_of_node(sizes_a, na),
                bpb,
                na,
                cur_b,
                spa,
                spb,
            );
            if spb.contains(cur_b) {
                AlignLog { spurious: rest.spurious + 1, ..rest }
            } else {
                AlignLog {
                    splits: rest.splits + 1,
                    edits: seq![
                        EditModel {
                            position: pos,
                            kind: EditKind::Split,
                            node_a: cur_a,
                            node_b: cur_b,
                            breakpoint_a: bpa,
                            breakpoint_b: bpb,
                        },
                    ] + rest.edits,
                    ..rest
                }
            }
        }
    } else {
        if rem_b.len() == 0 {
            align_fail()
        } else {
            let nb = rem_b[0];
            let rest = align_from(
                rem_a,
                rem_b.drop_first(),
                sizes_a,
                sizes_b,
                total,
                bpa,
                bpb + size_of_node(sizes_b, nb),
                cur_a,
                nb,
                spa,
                spb,
            );
            if spa.contains(cur_a) {
                AlignLog { spurious: rest.spurious + 1, ..rest }
            } else {
                AlignLog {
                    merges: rest.merges + 1,
                    edits: seq![
                        EditModel {
                            position: pos,
                            kind: EditKind::Merge,
                            node_a: cur_a,
                            node_b: cur_b,
                            breakpoint_a: bpa,
                            breakpoint_b: bpb,
                        },
                    ] + rest.edits,
                    ..rest
                }
            }
        }
    }
}

/// A whole alignment run over two token lists.
pub open spec fn align_paths_spec(
    toks_a: Seq<Seq<u8>>,
    toks_b: Seq<Seq<u8>>,
    sizes_a: Seq<(Seq<u8>, u64)>,
    sizes_b: Seq<(Seq<u8>, u64)>,
    total: int,
    spa: Seq<Seq<u8>>,
    spb: Seq<Seq<u8>>,
) -> AlignLog {
    align_from(
        toks_a,
        toks_b,
        sizes_a,
        sizes_b,
        total,
        0,
        0,
        Seq::empty(),
        Seq::empty(),
        spa,
        spb,
    )
}

proof fn lemma_log_extend_assoc(a: AlignLog, b: AlignLog, c: AlignLog)
    ensures
        log_extend(a, log_extend(b, c)) == log_extend(log_extend(a, b), c),
{
    assert(log_extend(a, log_extend(b, c)) =~= log_extend(log_extend(a, b), c));
}

/// The counts and edits of one alignment run.
pub struct AlignResult {
    pub edits: Vec<EditOperation>,
    pub equivalences: u128,
    pub merges: u128,
    pub splits: u128,
    pub spurious: u128,
}

/// A tokenizer ran dry before the validated total length was reached: the
/// index and the byte stream disagree.
#[derive(Clone, Copy, Debug, PartialEq, Eq, Structural)]
pub enum AlignError {
    TokensExhausted,
}

pub open spec fn align_result_matches(res: AlignResult, log: AlignLog, path: Seq<u8>) -> bool {
    &&& edits_model(res.edits@) == log.edits
    &&& forall|i: int| 0 <= i < res.edits@.len() ==> (#[trigger] res.edits@[i]).path@ == path
    &&& res.equivalences as int == log.equivalences
    &&& res.merges as int == log.merges
    &&& res.splits as int == log.splits
    &&& res.spurious as int == log.spurious
}

/// Align one path across the two graphs, reading both node lists forward
/// from their offsets. `total` is the validated total length of both
/// sides. The spurious names are read-only: a disagreement is suppressed
/// whenever the other side's current node is listed, however often.
pub fn align_path(
    path_name: &Vec<u8>,
    data_a: &[u8],
    off_a: usize,
    fmt_a: PathFormat,
    sizes_a: &Table<u64>,
    data_b: &[u8],
    off_b: usize,
    fmt_b: PathFormat,
    sizes_b: &Table<u64>,
    total: u128,
    sp_a: &Vec<Vec<u8>>,
    sp_b: &Vec<Vec<u8>>,
) -> (r: Result<AlignResult, AlignError>)
    requires
        off_a <= data_a@.len(),
        off_b <= data_b@.len(),
    ensures
        ({
            let log = align_paths_spec(
                tokens_from(data_a@, off_a as int, fmt_a),
                tokens_from(data_b@, off_b as int, fmt_b),
                sizes_a@,
                sizes_b@,
                total as int,
                sp_a.deep_view(),
                sp_b.deep_view(),
            );
            match r {
                Ok(res) => log.ok && align_result_matches(res, log, path_name@),
                Err(e) => !log.ok && e == AlignError::TokensExhausted,
            }
        }),
{
    let ghost init_log = align_paths_spec(
        tokens_from(data_a@, off_a as int, fmt_a),
        tokens_from(data_b@, off_b as int, fmt_b),
        sizes_a@,
        sizes_b@,
        total as int,
        sp_a.deep_view(),
        sp_b.deep_view(),
    );
    let mut edits: Vec<EditOperation> = Vec::new();
    let mut equivalences: u128 = 0;
    let mut merges: u128 = 0;
    let mut splits: u128 = 0;
    let mut spurious: u128 = 0;
    let mut bpa: u128 = 0;
    let mut bpb: u128 = 0;
    let mut pos_a: usize = off_a;
    let mut pos_b: usize = off_b;
    let mut cur_a: Vec<u8> = Vec::new();
    let mut cur_b: Vec<u8> = Vec::new();
    let ghost mut rem_a = tokens_from(data_a@, off_a as int, fmt_a);
    let ghost mut rem_b = tokens_from(data_b@, off_b as int, fmt_b);
    let len_a: usize = data_a.len();
    let len_b: usize = data_b.len();
    proof {
        assert(edits_model(edits@) =~= Seq::<EditModel>::empty());
    }
    loop
        invariant
            off_a <= pos_a <= data_a@.len(),
            off_b <= pos_b <= data_b@.len(),
            data_a@.len() == len_a <= usize::MAX,
            data_b@.len() == len_b <= usize::MAX,
            init_log == align_paths_spec(
                tokens_from(data_a@, off_a as int, fmt_a),
                tokens_from(data_b@, off_b as int, fmt_b),
                sizes_a@,
                sizes_b@,
                total as int,
                sp_a.deep_view(),
                sp_b.deep_view(),
            ),
            rem_a == tokens_from(data_a@, pos_a as int, fmt_a),
            rem_b == tokens_from(data_b@, pos_b as int, fmt_b),
            bpa as int <= (pos_a - off_a) * 0xffff_ffff_ffff_ffff,
            bpb as int <= (pos_b - off_b) * 0xffff_ffff_ffff_ffff,
            equivalences as int + merges as int + splits as int + spurious as int <= (pos_a
                - off_a) + (pos_b - off_b),
            forall|i: int| 0 <= i < edits@.len() ==> (#[trigger] edits@[i]).path@ == path_name@,
            log_extend(
                AlignLog {
                    ok: true,
                    edits: edits_model(edits@),
                    equivalences: equivalences as int,
                    merges: merges as int,
                    splits: splits as int,
                    spurious: spurious as int,
                },
                align_from(
                    rem_a,
                    rem_b,
                    sizes_a@,
                    sizes_b@,
                    total as int,
                    bpa as int,
                    bpb as int,
                    cur_a@,
                    cur_b@,
                    sp_a.deep_view(),
                    sp_b.deep_view(),
                ),
            ) == init_log,
        decreases rem_a.len() + rem_b.len(),
    {
        let ghost partial = AlignLog {
            ok: true,
            edits: edits_model(edits@),
            equivalences: equivalences as int,
            merges: merges as int,
            splits: splits as int,
            spurious: spurious as int,
        };
        let ghost state_log = align_from(
            rem_a,
            rem_b,
            sizes_a@,
            sizes_b@,
            total as int,
            bpa as int,
            bpb as int,
            cur_a@,
            cur_b@,
            sp_a.deep_view(),
            sp_b.deep_view(),
        );
        let position = if bpa < bpb {
            bpa
        } else {
            bpb
        };
        if position >= total {
            proof {
                assert(state_log == align_done());
                assert(log_extend(partial, state_log) =~= partial);
            }
            return Ok(
                AlignResult { edits, equivalences, merges, splits, spurious },
            );
        }
        if bpa == bpb {
            let ghost pa0 = pos_a as int;
            let ghost pb0 = pos_b as int;
            let na = match read_next_node(data_a, &mut pos_a, fmt_a) {
                Some(t) => t,
                None => {
                    proof {
                        assert(rem_a.len() == 0);
                        assert(state_log == align_fail());
                    }
                    return Err(AlignError::TokensExhausted);
                },
            };
            let nb = match read_next_node(data_b, &mut pos_b, fmt_b) {
                Some(t) => t,
                None => {
                    proof {
                        assert(rem_b.len() == 0);
                        assert(state_log == align_fail());
                    }
                    return Err(AlignError::TokensExhausted);
                },
            };
            proof {
                lemma_next_token_progress(data_a@, pa0, fmt_a);
                lemma_next_token_progress(data_b@, pb0, fmt_b);
                assert(rem_a[0] == na@ && rem_a.drop_first() =~~= tokens_from(
                    data_a@,
                    pos_a as int,
                    fmt_a,
                ));
                assert(rem_b[0] == nb@ && rem_b.drop_first() =~~= tokens_from(
                    data_b@,
                    pos_b as int,
                    fmt_b,
                ));
            }
            let sa = node_size(sizes_a, na.as_slice());
            let sb = node_size(sizes_b, nb.as_slice());
            proof {
                assert((pos_a - off_a - 1) * 0xffff_ffff_ffff_ffff + 0xffff_ffff_ffff_ffff == (
                pos_a - off_a) * 0xffff_ffff_ffff_ffff) by (nonlinear_arith);
                assert((pos_b - off_b - 1) * 0xffff_ffff_ffff_ffff + 0xffff_ffff_ffff_ffff == (
                pos_b - off_b) * 0xffff_ffff_ffff_ffff) by (nonlinear_arith);
                assert((pos_a - off_a) * 0xffff_ffff_ffff_ffff
                    < 0xffff_ffff_ffff_ffff_ffff_ffff_ffff_ffff) by (nonlinear_arith)
                    requires
                        0 <= pos_a - off_a <= 0xffff_ffff_ffff_ffff,
                ;
                assert((pos_b - off_b) * 0xffff_ffff_ffff_ffff
                    < 0xffff_ffff_ffff_ffff_ffff_ffff_ffff_ffff) by (nonlinear_arith)
                    requires
                        0 <= pos_b - off_b <= 0xffff_ffff_ffff_ffff,
                ;
            }
            equivalences = equivalences + 1;
            bpa = bpa + (sa as u128);
            bpb = bpb + (sb as u128);
            proof {
                let step = AlignLog {
                    ok: true,
                    edits: Seq::empty(),
                    equivalences: 1,
                    merges: 0,
                    splits: 0,
                    spurious: 0,
                };
                let rest = align_from(
                    rem_a.drop_first(),
                    rem_b.drop_first(),
                    sizes_a@,
                    sizes_b@,
                    total as int,
                    bpa as int,
                    bpb as int,
                    na@,
                    nb@,
                    sp_a.deep_view(),
                    sp_b.deep_view(),
                );
                assert(state_log =~= log_extend(step, rest));
                lemma_log_extend_assoc(partial, step, rest);
                assert(log_extend(partial, step) =~= AlignLog {
                    ok: true,
                    edits: edits_model(edits@),
                    equivalences: equivalences as int,
                    merges: merges as int,
                    splits: splits as int,
                    spurious: spurious as int,
                });
                rem_a = rem_a.drop_first();
                rem_b = rem_b.drop_first();
            }
            cur_a = na;
            cur_b = nb;
        } else if bpa < bpb {
            let suppressed = contains_name(sp_b, cur_b.as_slice());
            if suppressed {
                spurious = spurious + 1;
            } else {
                splits = splits + 1;
                edits.push(
                    EditOperation {
                        path: path_name.clone(),
                        position,
                        kind: EditKind::Split,
                        node_a: cur_a.clone(),
                        node_b: cur_b.clone(),
                        breakpoint_a: bpa,
                        breakpoint_b: bpb,
                    },
                );
            }
            let ghost pa0 = pos_a as int;
            let na = match read_next_node(data_a, &mut pos_a, fmt_a) {
                Some(t) => t,
                None => {
                    proof {
                        assert(rem_a.len() == 0);
                        assert(state_log == align_fail());
                    }
                    return Err(AlignError::TokensExhausted);
                },
            };
            proof {
                lemma_next_token_progress(data_a@, pa0, fmt_a);
                assert(rem_a[0] == na@ && rem_a.drop_first() =~~= tokens_from(
                    data_a@,
                    pos_a as int,
                    fmt_a,
                ));
            }
            let sa = node_size(sizes_a, na.as_slice());
            proof {
                assert((pos_a - off_a - 1) * 0xffff_ffff_ffff_ffff + 0xffff_ffff_ffff_ffff == (
                pos_a - off_a) * 0xffff_ffff_ffff_ffff) by (nonlinear_arith);
                assert((pos_a - off_a) * 0xffff_ffff_ffff_ffff
                    < 0xffff_ffff_ffff_ffff_ffff_ffff_ffff_ffff) by (nonlinear_arith)
                    requires
                        0 <= pos_a - off_a <= 0xffff_ffff_ffff_ffff,
                ;
            }
            bpa = bpa + (sa as u128);
            proof {
                let step = if suppressed {
                    AlignLog {
                        ok: true,
                        edits: Seq::empty(),
                        equivalences: 0,
                        merges: 0,
                        splits: 0,
                        spurious: 1,
                    }
                } else {
                    AlignLog {
                        ok: true,
                        edits: seq![
                            EditModel {
                                position: position as int,
                                kind: EditKind::Split,
                                node_a: cur_a@,
                                node_b: cur_b@,
                                breakpoint_a: (bpa - sa) as int,
                                breakpoint_b: bpb as int,
                            },
                        ],
                        equivalences: 0,
                        merges: 0,
                        splits: 1,
                        spurious: 0,
                    }
                };
                let rest = align_from(
                    rem_a.drop_first(),
                    rem_b,
                    sizes_a@,
                    sizes_b@,
                    total as int,
                    bpa as int,
                    bpb as int,
                    na@,
                    cur_b@,
                    sp_a.deep_view(),
                    sp_b.deep_view(),
                );
                assert(state_log =~= log_extend(step, rest));
                lemma_log_extend_assoc(partial, step, rest);
                if !suppressed {
                    assert(edits_model(edits@) =~= partial.edits + step.edits);
                }
                assert(log_extend(partial, step) =~= AlignLog {
                    ok: true,
                    edits: edits_model(edits@),
                    equivalences: equivalences as int,
                    merges: merges as int,
                    splits: splits as int,
                    spurious: spurious as int,
                });
                rem_a = rem_a.drop_first();
            }
            cur_a = na;
        } else {
            let suppressed = contains_name(sp_a, cur_a.as_slice());
            if suppressed {
                spurious = spurious + 1;
            } else {
                merges = merges + 1;
                edits.push(
                    EditOperation {
                        path: path_name.clone(),
                        position,
                        kind: EditKind::Merge,
                        node_a: cur_a.clone(),
                        node_b: cur_b.clone(),
                        breakpoint_a: bpa,
                        breakpoint_b: bpb,
                    },
                );
            }
            let ghost pb0 = pos_b as int;
            let nb = match read_next_node(data_b, &mut pos_b, fmt_b) {
                Some(t) => t,
                None => {
                    proof {
                        assert(rem_b.len() == 0);
                        assert(state_log == align_fail());
                    }
                    return Err(AlignError::TokensExhausted);
                },
            };
            proof {
                lemma_next_token_progress(data_b@, pb0, fmt_b);
                assert(rem_b[0] == nb@ && rem_b.drop_first() =~~= tokens_from(
                    data_b@,
                    pos_b as int,
                    fmt_b,
                ));
            }
            let sb = node_size(sizes_b, nb.as_slice());
            proof {
                assert((pos_b - off_b - 1) * 0xffff_ffff_ffff_ffff + 0xffff_ffff_ffff_ffff == (
                pos_b - off_b) * 0xffff_ffff_ffff_ffff) by (nonlinear_arith);
                assert((pos_b - off_b) * 0xffff_ffff_ffff_ffff
                    < 0xffff_ffff_ffff_ffff_ffff_ffff_ffff_ffff) by (nonlinear_arith)
                    requires
                        0 <= pos_b - off_b <= 0xffff_ffff_ffff_ffff,
                ;
            }
            bpb = bpb + (sb as u128);
            proof {
                let step = if suppressed {
                    AlignLog {
                        ok: true,
                        edits: Seq::empty(),
                        equivalences: 0,
                        merges: 0,
                        splits: 0,
                        spurious: 1,
                    }
                } else {
                    AlignLog {
                        ok: true,
                        edits: seq![
                            EditModel {
                                position: position as int,
                                kind: EditKind::Merge,
                                node_a: cur_a@,
                                node_b: cur_b@,
                                breakpoint_a: bpa as int,
                                breakpoint_b: (bpb - sb) as int,
                            },
                        ],
                        equivalences: 0,
                        merges: 1,
                        splits: 0,
                        spurious: 0,
                    }
                };
                let rest = align_from(
                    rem_a,
                    rem_b.drop_first(),
                    sizes_a@,
                    sizes_b@,
                    total as int,
                    bpa as int,
                    bpb as int,
                    cur_a@,
                    nb@,
                    sp_a.deep_view(),
                    sp_b.deep_view(),
                );
                assert(state_log =~= log_extend(step, rest));
                lemma_log_extend_assoc(partial, step, rest);
                if !suppressed {
                    assert(edits_model(edits@) =~= partial.edits + step.edits);
                }
                assert(log_extend(partial, step) =~= AlignLog {
                    ok: true,
                    edits: edits_model(edits@),
                    equivalences: equivalences as int,
                    merges: merges as int,
                    splits: splits as int,
                    spurious: spurious as int,
                });
                rem_b = rem_b.drop_first();
            }
            cur_b = nb;
        }
    }
}

/// The outcome of one shared path: an alignment, a skip because the two
/// recorded total lengths differ, or a fatal per-path inconsistency.
pub enum PathOutcome {
    Aligned(AlignResult),
    LengthMismatch(u128, u128),
    Inconsistent,
}

/// The mathematical content of one outcome.
#[verifier::ext_equal]
pub enum OutcomeModel {
    Aligned { edits: Seq<EditModel>, equivalences: int, merges: int, splits: int, spurious: int },
    LengthMismatch(int, int),
    Inconsistent,
}

pub open spec fn outcome_model(o: PathOutcome) -> OutcomeModel {
    match o {
        PathOutcome::Aligned(res) => OutcomeModel::Aligned {
            edits: edits_model(res.edits@),
            equivalences: res.equivalences as int,
            merges: res.merges as int,
            splits: res.splits as int,
            spurious: res.spurious as int,
        },
        PathOutcome::LengthMismatch(la, lb) => OutcomeModel::LengthMismatch(la as int, lb as int),
        PathOutcome::Inconsistent => OutcomeModel::Inconsistent,
    }
}

/// The outcome of one shared path: mismatched totals skip the path, a
/// completed walk reports its log, a walk that ran dry is the per-path
/// fatal inconsistency.
pub open spec fn run_path_spec(
    data_a: Seq<u8>,
    data_b: Seq<u8>,
    sizes_a: Seq<(Seq<u8>, u64)>,
    sizes_b: Seq<(Seq<u8>, u64)>,
    info_a: PathInfo,
    info_b: PathInfo,
    spa: Seq<Seq<u8>>,
    spb: Seq<Seq<u8>>,
) -> OutcomeModel {
    if info_a.total_len != info_b.total_len {
        OutcomeModel::LengthMismatch(info_a.total_len as int, info_b.total_len as int)
    } else {
        let log = align_paths_spec(
            tokens_from(data_a, info_a.offset as int, info_a.fmt),
            tokens_from(data_b, info_b.offset as int, info_b.fmt),
            sizes_a,
            sizes_b,
            info_a.total_len as int,
            spa,
            spb,
        );
        if log.ok {
            OutcomeModel::Aligned {
                edits: log.edits,
                equivalences: log.equivalences,
                merges: log.merges,
                splits: log.splits,
                spurious: log.spurious,
            }
        } else {
            OutcomeModel::Inconsistent
        }
    }
}

/// The whole comparison from path `k` of graph A's table on: every path of
/// graph A whose comparison key graph B also holds is aligned, in table
/// order, each against the same read-only spurious sets.
pub open spec fn run_paths_spec(
    data_a: Seq<u8>,
    data_b: Seq<u8>,
    sizes_a: Seq<(Seq<u8>, u64)>,
    sizes_b: Seq<(Seq<u8>, u64)>,
    paths_a: Seq<(Seq<u8>, PathInfo)>,
    paths_b: Seq<(Seq<u8>, PathInfo)>,
    k: int,
    spa: Seq<Seq<u8>>,
    spb: Seq<Seq<u8>>,
) -> Seq<(Seq<u8>, OutcomeModel)>
    decreases paths_a.len() - k when 0 <= k <= paths_a.len()
{
    if k >= paths_a.len() {
        Seq::empty()
    } else {
        let entry = paths_a[k];
        let rest = run_paths_spec(
            data_a,
            data_b,
            sizes_a,
            sizes_b,
            paths_a,
            paths_b,
            k + 1,
            spa,
            spb,
        );
        if has_key(paths_b, entry.0) {
            let out = run_path_spec(
                data_a,
                data_b,
                sizes_a,
                sizes_b,
                entry.1,
                assoc_get(paths_b, entry.0),
                spa,
                spb,
            );
            seq![(entry.0, out)] + rest
        } else {
            rest
        }
    }
}

pub open spec fn reports_model(s: Seq<(Vec<u8>, PathOutcome)>) -> Seq<(Seq<u8>, OutcomeModel)> {
    s.map_values(|p: (Vec<u8>, PathOutcome)| (p.0@, outcome_model(p.1)))
}

/// Event counts summed over every aligned path: equivalences, merges,
/// splits, suppressed spurious events.
pub open spec fn totals_model(s: Seq<(Vec<u8>, PathOutcome)>) -> (int, int, int, int)
    decreases s.len(),
{
    if s.len() == 0 {
        (0, 0, 0, 0)
    } else {
        let t = totals_model(s.drop_last());
        match s.last().1 {
            PathOutcome::Aligned(res) => (
                t.0 + res.equivalences as int,
                t.1 + res.merges as int,
                t.2 + res.splits as int,
                t.3 + res.spurious as int,
            ),
            PathOutcome::LengthMismatch(la, lb) => t,
            PathOutcome::Inconsistent => t,
        }
    }
}

pub proof fn lemma_totals_mono(s: Seq<(Vec<u8>, PathOutcome)>, j: int)
    requires
        0 <= j <= s.len(),
    ensures
        0 <= totals_model(s.take(j)).0 <= totals_model(s).0,
        0 <= totals_model(s.take(j)).1 <= totals_model(s).1,
        0 <= totals_model(s.take(j)).2 <= totals_model(s).2,
        0 <= totals_model(s.take(j)).3 <= totals_model(s).3,
    decreases s.len(),
{
    if s.len() == 0 {
        assert(s.take(j) =~= s);
    } else if j == s.len() {
        assert(s.take(j) =~= s);
        lemma_totals_mono(s.drop_last(), s.len() - 1);
        assert(s.drop_last().take(s.len() - 1) =~= s.drop_last());
    } else {
        lemma_totals_mono(s.drop_last(), j);
        assert(s.drop_last().take(j) =~= s.take(j));
    }
}

/// The summary counts of a whole run; `distance` is merges plus splits.
pub struct Totals {
    pub equivalences: u128,
    pub merges: u128,
    pub splits: u128,
    pub spurious: u128,
    pub distance: u128,
}

pub open spec fn totals_match(s: Seq<(Vec<u8>, PathOutcome)>, t: Option<Totals>) -> bool {
    let m = totals_model(s);
    match t {
        Some(t) => {
            &&& t.equivalences as int == m.0
            &&& t.merges as int == m.1
            &&& t.splits as int == m.2
            &&& t.spurious as int == m.3
            &&& t.distance as int == m.1 + m.2
        },
        None => m.0 > u128::MAX || m.1 > u128::MAX || m.2 > u128::MAX || m.3 > u128::MAX || m.1
            + m.2 > u128::MAX,
    }
}

/// Sum the event counts over every aligned path; `None` when a sum does
/// not fit.
pub fn totals_of(reports: &Vec<(Vec<u8>, PathOutcome)>) -> (r: Option<Totals>)
    ensures
        totals_match(reports@, r),
{
    let mut equivalences: u128 = 0;
    let mut merges: u128 = 0;
    let mut splits: u128 = 0;
    let mut spurious: u128 = 0;
    let n = reports.len();
    let mut i: usize = 0;
    proof {
        assert(reports@.take(0) =~= Seq::<(Vec<u8>, PathOutcome)>::empty());
    }
    while i < n
        invariant
            i <= n,
            n == reports@.len(),
            equivalences as int == totals_model(reports@.take(i as int)).0,
            merges as int == totals_model(reports@.take(i as int)).1,
            splits as int == totals_model(reports@.take(i as int)).2,
            spurious as int == totals_model(reports@.take(i as int)).3,
        decreases n - i,
    {
        proof {
            assert(reports@.take(i as int + 1).drop_last() =~= reports@.take(i as int));
            assert(reports@.take(i as int + 1).last() == reports@[i as int]);
        }
        let entry = &reports[i];
        match &entry.1 {
            PathOutcome::Aligned(res) => {
                if res.equivalences > u128::MAX - equivalences || res.merges > u128::MAX - merges
                    || res.splits > u128::MAX - splits || res.spurious > u128::MAX - spurious {
                    proof {
                        lemma_totals_mono(reports@, i as int + 1);
                    }
                    return None;
                }
                equivalences = equivalences + res.equivalences;
                merges = merges + res.merges;
                splits = splits + res.splits;
                spurious = spurious + res.spurious;
            },
            PathOutcome::LengthMismatch(la, lb) => {
            },
            PathOutcome::Inconsistent => {
            },
        }
        i = i + 1;
    }
    proof {
        assert(reports@.take(n as int) =~= reports@);
    }
    if splits > u128::MAX - merges {
        return None;
    }
    Some(
        Totals { equivalences, merges, splits, spurious, distance: merges + splits },
    )
}

/// The per-path outcomes of one comparison, in graph A's table order, and
/// the summary counts.
pub struct DistanceReport {
    pub reports: Vec<(Vec<u8>, PathOutcome)>,
    pub totals: Option<Totals>,
}

/// Compare the two graphs path by path: every path of graph A whose
/// comparison key graph B also holds is walked in lockstep on both sides.
/// Paths whose recorded total lengths differ are skipped with a mismatch
/// outcome; a path whose node list runs dry is reported inconsistent. The
/// spurious sets are read-only inputs shared by every path of the run.
pub fn distance(
    data_a: &[u8],
    data_b: &[u8],
    index_a: &GraphIndex,
    index_b: &GraphIndex,
    spurious_a: &Vec<Vec<u8>>,
    spurious_b: &Vec<Vec<u8>>,
) -> (r: DistanceReport)
    requires
        offsets_in_bounds(index_a.paths@, data_a@),
        offsets_in_bounds(index_b.paths@, data_b@),
    ensures
        reports_model(r.reports@) == run_paths_spec(
            data_a@,
            data_b@,
            index_a.node_sizes@,
            index_b.node_sizes@,
            index_a.paths@,
            index_b.paths@,
            0,
            spurious_a.deep_view(),
            spurious_b.deep_view(),
        ),
        totals_match(r.reports@, r.totals),
{
    let ghost full = run_paths_spec(
        data_a@,
        data_b@,
        index_a.node_sizes@,
        index_b.node_sizes@,
        index_a.paths@,
        index_b.paths@,
        0,
        spurious_a.deep_view(),
        spurious_b.deep_view(),
    );
    let mut reports: Vec<(Vec<u8>, PathOutcome)> = Vec::new();
    let n = index_a.paths.len();
    let mut i: usize = 0;
    proof {
        assert(reports_model(reports@) =~~= Seq::<(Seq<u8>, OutcomeModel)>::empty());
    }
    while i < n
        invariant
            i <= n,
            n == index_a.paths@.len(),
            offsets_in_bounds(index_a.paths@, data_a@),
            offsets_in_bounds(index_b.paths@, data_b@),
            full == run_paths_spec(
                data_a@,
                data_b@,
                index_a.node_sizes@,
                index_b.node_sizes@,
                index_a.paths@,
                index_b.paths@,
                0,
                spurious_a.deep_view(),
                spurious_b.deep_view(),
            ),
            reports_model(reports@) + run_paths_spec(
                data_a@,
                data_b@,
                index_a.node_sizes@,
                index_b.node_sizes@,
                index_a.paths@,
                index_b.paths@,
                i as int,
                spurious_a.deep_view(),
                spurious_b.deep_view(),
            ) =~~= full,
        decreases n - i,
    {
        let ghost pre = reports_model(reports@);
        let name = index_a.paths.key_at(i).clone();
        let info_a = *index_a.paths.value_at(i);
        proof {
            assert(name@ =~= index_a.paths@[i as int].0);
        }
        match index_b.paths.get(name.as_slice()) {
            None => {
            },
            Some(info_b_ref) => {
                let info_b = *info_b_ref;
                let ghost out = run_path_spec(
                    data_a@,
                    data_b@,
                    index_a.node_sizes@,
                    index_b.node_sizes@,
                    info_a,
                    info_b,
                    spurious_a.deep_view(),
                    spurious_b.deep_view(),
                );
                proof {
                    crate::tables::lemma_key_index_from(index_b.paths@, 0, name@);
                    assert(index_a.paths@[i as int].1.offset <= data_a@.len());
                    assert(index_b.paths@[crate::tables::key_index(index_b.paths@, name@)].1.offset
                        <= data_b@.len());
                }
                if info_a.total_len != info_b.total_len {
                    reports.push(
                        (name, PathOutcome::LengthMismatch(info_a.total_len, info_b.total_len)),
                    );
                } else {
                    match align_path(
                        &name,
                        data_a,
                        info_a.offset,
                        info_a.fmt,
                        &index_a.node_sizes,
                        data_b,
                        info_b.offset,
                        info_b.fmt,
                        &index_b.node_sizes,
                        info_a.total_len,
                        spurious_a,
                        spurious_b,
                    ) {
                        Ok(res) => {
                            proof {
                                assert(outcome_model(PathOutcome::Aligned(res)) =~~= out);
                            }
                            reports.push((name, PathOutcome::Aligned(res)));
                        },
                        Err(_) => {
                            reports.push((name, PathOutcome::Inconsistent));
                        },
                    }
                }
                proof {
                    assert(reports_model(reports@) =~~= pre.push(
                        (index_a.paths@[i as int].0, out),
                    ));
                }
            },
        }
        proof {
            assert(reports_model(reports@) + run_paths_spec(
                data_a@,
                data_b@,
                index_a.node_sizes@,
                index_b.node_sizes@,
                index_a.paths@,
                index_b.paths@,
                i as int + 1,
                spurious_a.deep_view(),
                spurious_b.deep_view(),
            ) =~~= full);
        }
        i = i + 1;
    }
    proof {
        assert(reports_model(reports@) + Seq::<(Seq<u8>, OutcomeModel)>::empty() =~~=
            reports_model(reports@));
    }
    let totals = totals_of(&reports);
    DistanceReport { reports, totals }
}

/// One self-alignment step chain: from any agreed state, aligning a node
/// list against itself runs through the aligned state only.
proof fn lemma_self_align_from(
    rem: Seq<Seq<u8>>,
    sizes: Seq<(Seq<u8>, u64)>,
    total: int,
    c: int,
    cur_a: Seq<u8>,
    cur_b: Seq<u8>,
    spa: Seq<Seq<u8>>,
    spb: Seq<Seq<u8>>,
)
    requires
        c + crate::tokenizer::sum_sizes(rem, sizes) == total,
        rem.len() > 0 ==> size_of_node(sizes, rem.last()) > 0,
    ensures
        (align_from(rem, rem, sizes, sizes, total, c, c, cur_a, cur_b, spa, spb) == AlignLog {
            ok: true,
            edits: Seq::empty(),
            equivalences: rem.len() as int,
            merges: 0,
            splits: 0,
            spurious: 0,
        }),
    decreases rem.len(),
{
    crate::tokenizer::lemma_sum_sizes_bounds(rem, sizes);
    if rem.len() == 0 {
        assert(c == total);
        assert(align_from(rem, rem, sizes, sizes, total, c, c, cur_a, cur_b, spa, spb)
            == align_done());
    } else {
        crate::tokenizer::lemma_sum_sizes_first(rem, sizes);
        crate::tokenizer::lemma_sum_sizes_bounds(rem.drop_last(), sizes);
        assert(crate::tokenizer::sum_sizes(rem, sizes) >= size_of_node(sizes, rem.last()));
        assert(c < total);
        let na = rem[0];
        let c2 = c + size_of_node(sizes, na);
        if rem.len() > 1 {
            assert(rem.drop_first().last() == rem.last());
        }
        lemma_self_align_from(rem.drop_first(), sizes, total, c2, na, na, spa, spb);
        assert(align_from(rem, rem, sizes, sizes, total, c, c, cur_a, cur_b, spa, spb) =~~=
            AlignLog {
            ok: true,
            edits: Seq::empty(),
            equivalences: rem.len() as int,
            merges: 0,
            splits: 0,
            spurious: 0,
        });
    }
}

/// Law: aligning a path against itself yields no merge or split records,
/// suppresses nothing, and counts one equivalence per node. A path whose
/// last node has size zero reaches its total length before that node is
/// read, so such paths are left out.
pub proof fn lemma_no_op_identity(
    toks: Seq<Seq<u8>>,
    sizes: Seq<(Seq<u8>, u64)>,
    spa: Seq<Seq<u8>>,
    spb: Seq<Seq<u8>>,
)
    requires
        toks.len() > 0 ==> size_of_node(sizes, toks.last()) > 0,
    ensures
        (align_paths_spec(
            toks,
            toks,
            sizes,
            sizes,
            crate::tokenizer::sum_sizes(toks, sizes),
            spa,
            spb,
        ) == AlignLog {
            ok: true,
            edits: Seq::empty(),
            equivalences: toks.len() as int,
            merges: 0,
            splits: 0,
            spurious: 0,
        }),
{
    lemma_self_align_from(
        toks,
        sizes,
        crate::tokenizer::sum_sizes(toks, sizes),
        0,
        Seq::empty(),
        Seq::empty(),
        spa,
        spb,
    );
}

pub open spec fn mirror_kind(k: EditKind) -> EditKind {
    match k {
        EditKind::Merge => EditKind::Split,
        EditKind::Split => EditKind::Merge,
    }
}

/// The same disagreement seen from the other graph: the kind flips and the
/// two node and breakpoint columns swap; the position is unchanged.
pub open spec fn mirror_edit(e: EditModel) -> EditModel {
    EditModel {
        position: e.position,
        kind: mirror_kind(e.kind),
        node_a: e.node_b,
        node_b: e.node_a,
        breakpoint_a: e.breakpoint_b,
        breakpoint_b: e.breakpoint_a,
    }
}

/// A whole log seen from the other graph.
pub open spec fn mirror_log(l: AlignLog) -> AlignLog {
    AlignLog {
        ok: l.ok,
        edits: l.edits.map_values(|e: EditModel| mirror_edit(e)),
        equivalences: l.equivalences,
        merges: l.splits,
        splits: l.merges,
        spurious: l.spurious,
    }
}

proof fn lemma_mirror_align_from(
    rem_a: Seq<Seq<u8>>,
    rem_b: Seq<Seq<u8>>,
    sizes_a: Seq<(Seq<u8>, u64)>,
    sizes_b: Seq<(Seq<u8>, u64)>,
    total: int,
    bpa: int,
    bpb: int,
    cur_a: Seq<u8>,
    cur_b: Seq<u8>,
    spa: Seq<Seq<u8>>,
    spb: Seq<Seq<u8>>,
)
    ensures
        (align_from(rem_b, rem_a, sizes_b, sizes_a, total, bpb, bpa, cur_b, cur_a, spb, spa)
            == mirror_log(
            align_from(rem_a, rem_b, sizes_a, sizes_b, total, bpa, bpb, cur_a, cur_b, spa, spb),
        )),
    decreases rem_a.len() + rem_b.len(),
{
    let fwd = align_from(rem_a, rem_b, sizes_a, sizes_b, total, bpa, bpb, cur_a, cur_b, spa, spb);
    let swp = align_from(rem_b, rem_a, sizes_b, sizes_a, total, bpb, bpa, cur_b, cur_a, spb, spa);
    let pos = if bpa < bpb {
        bpa
    } else {
        bpb
    };
    if pos >= total {
        assert(swp =~~= mirror_log(fwd));
    } else if bpa == bpb {
        if rem_a.len() == 0 || rem_b.len() == 0 {
            assert(swp =~~= mirror_log(fwd));
        } else {
            let na = rem_a[0];
            let nb = rem_b[0];
            lemma_mirror_align_from(
                rem_a.drop_first(),
                rem_b.drop_first(),
                sizes_a,
                sizes_b,
                total,
                bpa + size_of_node(sizes_a, na),
                bpb + size_of_node(sizes_b, nb),
                na,
                nb,
                spa,
                spb,
            );
            assert(swp =~~= mirror_log(fwd));
        }
    } else if bpa < bpb {
        if rem_a.len() == 0 {
            assert(swp =~~= mirror_log(fwd));
        } else {
            let na = rem_a[0];
            lemma_mirror_align_from(
                rem_a.drop_first(),
                rem_b,
                sizes_a,
                sizes_b,
                total,
                bpa + size_of_node(sizes_a, na),
                bpb,
                na,
                cur_b,
                spa,
                spb,
            );
            assert(swp =~~= mirror_log(fwd));
        }
    } else {
        if rem_b.len() == 0 {
            assert(swp =~~= mirror_log(fwd));
        } else {
            let nb = rem_b[0];
            lemma_mirror_align_from(
                rem_a,
                rem_b.drop_first(),
                sizes_a,
                sizes_b,
                total,
                bpa,
                bpb + size_of_node(sizes_b, nb),
                cur_a,
                nb,
                spa,
                spb,
            );
            assert(swp =~~= mirror_log(fwd));
        }
    }
}

/// Law: swapping the two graphs mirrors the whole run. Every merge becomes
/// a split and every split a merge, at the same position, with the node
/// and breakpoint columns swapped; the equivalence and spurious counts are
/// unchanged.
pub proof fn lemma_symmetry(
    toks_a: Seq<Seq<u8>>,
    toks_b: Seq<Seq<u8>>,
    sizes_a: Seq<(Seq<u8>, u64)>,
    sizes_b: Seq<(Seq<u8>, u64)>,
    total: int,
    spa: Seq<Seq<u8>>,
    spb: Seq<Seq<u8>>,
)
    ensures
        (align_paths_spec(toks_b, toks_a, sizes_b, sizes_a, total, spb, spa) == mirror_log(
            align_paths_spec(toks_a, toks_b, sizes_a, sizes_b, total, spa, spb),
        )),
{
    lemma_mirror_align_from(
        toks_a,
        toks_b,
        sizes_a,
        sizes_b,
        total,
        0,
        0,
        Seq::empty(),
        Seq::empty(),
        spa,
        spb,
    );
}

} // verus!
