//! Detection of spurious breakpoints.
//!
//! A boundary between two nodes `X` and `Y` carries no topological
//! information when `Y` is the only node `X` points to and `X` is the only
//! node pointing to `Y`: the two form an isolated one-to-one chain link,
//! and the boundary between them is an artifact of segmentation. One pass
//! over a graph's adjacency records collects, deduplicated, who points to
//! whom; `filter_spurious` then lists every such `Y`.

use vstd::prelude::*;
use crate::bytes::{find_from, find_byte, split_by, split_fields, chop_cr, chop_cr_slice,
    lemma_find_from};
use crate::tables::{ListTable, has_key, assoc_get, assoc_insert, key_index, contains_name,
    unique_keys, lemma_key_index_from, lemma_key_index_of_entry, lemma_assoc_insert_unique,
    lemma_name_list_elem};

verus! {

/// The adjacency list of `key` extended with `value`, unless already
/// listed; a missing key gets a fresh single-name list.
pub open spec fn spec_add_relation(
    links: Seq<(Seq<u8>, Seq<Seq<u8>>)>,
    value: Seq<u8>,
    key: Seq<u8>,
) -> Seq<(Seq<u8>, Seq<Seq<u8>>)> {
    if has_key(links, key) {
        let l = assoc_get(links, key);
        if l.contains(value) {
            links
        } else {
            assoc_insert(links, key, l.push(value))
        }
    } else {
        links.push((key, seq![value]))
    }
}

/// Record that `key`'s adjacency list holds `value`, without duplicates.
pub fn add_relation(links: &mut ListTable, value: Vec<u8>, key: Vec<u8>)
    ensures
        final(links)@ =~~= spec_add_relation(old(links)@, value@, key@),
{
    let ghost s0 = links@;
    match links.index_of(key.as_slice()) {
        Some(i) => {
            let present = contains_name(links.list_at(i), value.as_slice());
            if !present {
                links.push_to_list(i, value);
                proof {
                    assert(links@ =~~= assoc_insert(s0, key@, assoc_get(s0, key@).push(value@)));
                }
            }
        },
        None => {
            links.push_entry(key, value);
        },
    }
}

/// One successor entry `(x, l)` names a spurious node: `x` points only at
/// `l[0]`, and `l[0]`'s sole recorded predecessor is `x`.
pub open spec fn spurious_entry(
    preds: Seq<(Seq<u8>, Seq<Seq<u8>>)>,
    entry: (Seq<u8>, Seq<Seq<u8>>),
) -> bool {
    &&& entry.1.len() == 1
    &&& has_key(preds, entry.1[0])
    &&& assoc_get(preds, entry.1[0]).len() == 1
    &&& assoc_get(preds, entry.1[0])[0] == entry.0
}

/// The spurious nodes, in the order of the successor table.
pub open spec fn spec_filter_spurious(
    preds: Seq<(Seq<u8>, Seq<Seq<u8>>)>,
    succs: Seq<(Seq<u8>, Seq<Seq<u8>>)>,
) -> Seq<Seq<u8>>
    decreases succs.len(),
{
    if succs.len() == 0 {
        Seq::empty()
    } else {
        let rest = spec_filter_spurious(preds, succs.drop_last());
        if spurious_entry(preds, succs.last()) {
            rest.push(succs.last().1[0])
        } else {
            rest
        }
    }
}

/// A node is listed as spurious exactly when some node points only at it
/// and is its sole recorded predecessor.
pub proof fn lemma_spurious_membership(
    preds: Seq<(Seq<u8>, Seq<Seq<u8>>)>,
    succs: Seq<(Seq<u8>, Seq<Seq<u8>>)>,
    y: Seq<u8>,
)
    ensures
        spec_filter_spurious(preds, succs).contains(y) <==> exists|i: int|
            0 <= i < succs.len() && spurious_entry(preds, #[trigger] succs[i]) && succs[i].1[0]
                == y,
    decreases succs.len(),
{
    if succs.len() > 0 {
        lemma_spurious_membership(preds, succs.drop_last(), y);
        let dl = succs.drop_last();
        let rest = spec_filter_spurious(preds, dl);
        assert(forall|i: int| 0 <= i < dl.len() ==> #[trigger] dl[i] == succs[i]);
        if spurious_entry(preds, succs.last()) {
            let r = rest.push(succs.last().1[0]);
            assert(r.contains(y) == (succs.last().1[0] == y || rest.contains(y))) by {
                if rest.contains(y) {
                    let i = choose|i: int| 0 <= i < rest.len() && rest[i] == y;
                    assert(r[i] == y);
                }
                assert(r[rest.len() as int] == succs.last().1[0]);
                if r.contains(y) {
                    let i = choose|i: int| 0 <= i < r.len() && r[i] == y;
                    if i < rest.len() {
                        assert(rest[i] == y);
                    }
                }
            }
            if succs.last().1[0] == y {
                assert(spurious_entry(preds, succs[succs.len() - 1]) && succs[succs.len() - 1].1[0]
                    == y);
            }
        }
        if exists|i: int|
            0 <= i < succs.len() && spurious_entry(preds, #[trigger] succs[i]) && succs[i].1[0]
                == y {
            let i = choose|i: int|
                0 <= i < succs.len() && spurious_entry(preds, #[trigger] succs[i])
                    && succs[i].1[0] == y;
            if i < succs.len() - 1 {
                assert(spurious_entry(preds, dl[i]) && dl[i].1[0] == y);
            }
        }
    }
}

/// List the spurious nodes: those whose sole recorded predecessor points
/// only at them.
pub fn filter_spurious(seq_predecessors: ListTable, seq_successors: ListTable) -> (r: Vec<Vec<u8>>)
    ensures
        r.deep_view() == spec_filter_spurious(seq_predecessors@, seq_successors@),
{
    let mut spurious_nodes: Vec<Vec<u8>> = Vec::new();
    let n = seq_successors.len();
    let mut i: usize = 0;
    while i < n
        invariant
            i <= n,
            n == seq_successors@.len(),
            spurious_nodes.deep_view() =~~= spec_filter_spurious(
                seq_predecessors@,
                seq_successors@.take(i as int),
            ),
        decreases n - i,
    {
        let ghost pre = seq_successors@.take(i as int);
        let ghost old_out = spurious_nodes.deep_view();
        let lst = seq_successors.list_at(i);
        if lst.len() == 1 {
            proof {
                lemma_name_list_elem(lst, 0);
            }
            let candidate = &lst[0];
            let hit = match seq_predecessors.get(candidate.as_slice()) {
                Some(pl) => {
                    if pl.len() == 1 {
                        proof {
                            lemma_name_list_elem(pl, 0);
                        }
                        crate::bytes::bytes_eq(pl[0].as_slice(), seq_successors.key_at(i).as_slice())
                    } else {
                        false
                    }
                },
                None => false,
            };
            if hit {
                let c = candidate.clone();
                proof {
                    assert(c@ =~= seq_successors@[i as int].1[0]);
                    assert(spurious_entry(seq_predecessors@, seq_successors@[i as int]));
                }
                spurious_nodes.push(c);
                proof {
                    assert(spurious_nodes.deep_view() =~~= old_out.push(
                        seq_successors@[i as int].1[0],
                    ));
                }
            } else {
                proof {
                    assert(!spurious_entry(seq_predecessors@, seq_successors@[i as int]));
                }
            }
        } else {
            proof {
                assert(!spurious_entry(seq_predecessors@, seq_successors@[i as int]));
            }
        }
        proof {
            let cur = seq_successors@.take(i as int + 1);
            assert(cur.drop_last() =~~= pre);
            assert(cur.last() == seq_successors@[i as int]);
            assert(spurious_nodes.deep_view() =~~= spec_filter_spurious(seq_predecessors@, cur));
        }
        i = i + 1;
    }
    proof {
        assert(seq_successors@.take(seq_successors@.len() as int) =~~= seq_successors@);
    }
    spurious_nodes
}

/// Effect of one adjacency record `E <from> .. <to> ..` on the two maps:
/// `to` is recorded as pointed to by `from`, and `from` as pointing at
/// `to`. Any other record changes nothing.
pub open spec fn adjacency_line(
    data: Seq<u8>,
    ls: int,
    preds: Seq<(Seq<u8>, Seq<Seq<u8>>)>,
    succs: Seq<(Seq<u8>, Seq<Seq<u8>>)>,
) -> (Seq<(Seq<u8>, Seq<Seq<u8>>)>, Seq<(Seq<u8>, Seq<Seq<u8>>)>)
    recommends
        0 <= ls <= data.len(),
{
    let le = find_from(data, ls, 10);
    let content = chop_cr(data.subrange(ls, le));
    let fs = split_by(content, 9);
    if content.len() > 0 && content[0] == 69 && fs.len() >= 4 {
        (spec_add_relation(preds, fs[1], fs[3]), spec_add_relation(succs, fs[3], fs[1]))
    } else {
        (preds, succs)
    }
}

/// The adjacency maps folded over every record from `ls` on.
pub open spec fn adjacency_from(
    data: Seq<u8>,
    ls: int,
    preds: Seq<(Seq<u8>, Seq<Seq<u8>>)>,
    succs: Seq<(Seq<u8>, Seq<Seq<u8>>)>,
) -> (Seq<(Seq<u8>, Seq<Seq<u8>>)>, Seq<(Seq<u8>, Seq<Seq<u8>>)>)
    decreases data.len() - ls when 0 <= ls <= data.len() via adjacency_from_decreases
{
    if ls >= data.len() {
        (preds, succs)
    } else {
        let le = find_from(data, ls, 10);
        let next = if le < data.len() {
            le + 1
        } else {
            le
        };
        let step = adjacency_line(data, ls, preds, succs);
        adjacency_from(data, next, step.0, step.1)
    }
}

#[via_fn]
proof fn adjacency_from_decreases(
    data: Seq<u8>,
    ls: int,
    preds: Seq<(Seq<u8>, Seq<Seq<u8>>)>,
    succs: Seq<(Seq<u8>, Seq<Seq<u8>>)>,
) {
    lemma_find_from(data, ls, 10);
}

/// The two adjacency maps of the whole file.
pub open spec fn adjacency_of(data: Seq<u8>) -> (
    Seq<(Seq<u8>, Seq<Seq<u8>>)>,
    Seq<(Seq<u8>, Seq<Seq<u8>>)>,
) {
    adjacency_from(data, 0, Seq::empty(), Seq::empty())
}

/// One pass over a graph's adjacency records, then the spurious-node
/// filter on the collected maps.
pub fn spurious_breakpoints(data: &[u8]) -> (r: Vec<Vec<u8>>)
    ensures
        r.deep_view() == spec_filter_spurious(adjacency_of(data@).0, adjacency_of(data@).1),
{
    let mut preds = ListTable::new();
    let mut succs = ListTable::new();
    let mut ls: usize = 0;
    proof {
        assert(preds@ =~~= Seq::<(Seq<u8>, Seq<Seq<u8>>)>::empty());
        assert(succs@ =~~= Seq::<(Seq<u8>, Seq<Seq<u8>>)>::empty());
    }
    while ls < data.len()
        invariant
            ls <= data@.len(),
            adjacency_from(data@, ls as int, preds@, succs@) == adjacency_of(data@),
        decreases data@.len() - ls,
    {
        let ghost p0 = preds@;
        let ghost s0 = succs@;
        let le = find_byte(data, ls, 10);
        proof {
            lemma_find_from(data@, ls as int, 10);
        }
        let content = chop_cr_slice(vstd::slice::slice_subrange(data, ls, le));
        let ghost cs = chop_cr(data@.subrange(ls as int, le as int));
        let next = if le < data.len() {
            le + 1
        } else {
            le
        };
        if content.len() > 0 && content[0] == 69 {
            let fields = split_fields(content, 9);
            let ghost fs = split_by(cs, 9);
            if fields.len() >= 4 {
                proof {
                    lemma_name_list_elem(&fields, 1);
                    lemma_name_list_elem(&fields, 3);
                }
                let from = fields[1].clone();
                let to = fields[3].clone();
                add_relation(&mut preds, from.clone(), to.clone());
                add_relation(&mut succs, to, from);
                proof {
                    assert(preds@ =~~= adjacency_line(data@, ls as int, p0, s0).0);
                    assert(succs@ =~~= adjacency_line(data@, ls as int, p0, s0).1);
                }
            }
        }
        proof {
            assert((preds@, succs@) == adjacency_line(data@, ls as int, p0, s0));
            assert(adjacency_from(data@, ls as int, p0, s0) == adjacency_from(
                data@,
                next as int,
                preds@,
                succs@,
            ));
        }
        ls = next;
    }
    filter_spurious(preds, succs)
}

/// Nodes `x` and `y` form an isolated one-to-one chain link: `y` is the
/// only node `x` points to, and `x` the only node pointing to `y`.
pub open spec fn spurious_link(
    preds: Seq<(Seq<u8>, Seq<Seq<u8>>)>,
    succs: Seq<(Seq<u8>, Seq<Seq<u8>>)>,
    x: Seq<u8>,
    y: Seq<u8>,
) -> bool {
    &&& has_key(succs, x)
    &&& assoc_get(succs, x) == seq![y]
    &&& has_key(preds, y)
    &&& assoc_get(preds, y) == seq![x]
}

/// Over maps without duplicate keys, membership in the spurious list is
/// exactly the chain-link condition: a statement over lookups alone, so
/// the set does not depend on the order in which records were seen.
pub proof fn lemma_spurious_set(
    preds: Seq<(Seq<u8>, Seq<Seq<u8>>)>,
    succs: Seq<(Seq<u8>, Seq<Seq<u8>>)>,
    y: Seq<u8>,
)
    requires
        unique_keys(succs),
    ensures
        spec_filter_spurious(preds, succs).contains(y) <==> exists|x: Seq<u8>|
            #[trigger] spurious_link(preds, succs, x, y),
{
    lemma_spurious_membership(preds, succs, y);
    if spec_filter_spurious(preds, succs).contains(y) {
        let i = choose|i: int|
            0 <= i < succs.len() && spurious_entry(preds, #[trigger] succs[i]) && succs[i].1[0]
                == y;
        let x = succs[i].0;
        lemma_key_index_of_entry(succs, i);
        assert(assoc_get(succs, x) =~= seq![y]);
        assert(assoc_get(preds, y) =~= seq![x]);
        assert(spurious_link(preds, succs, x, y));
    }
    if exists|x: Seq<u8>| #[trigger] spurious_link(preds, succs, x, y) {
        let x = choose|x: Seq<u8>| #[trigger] spurious_link(preds, succs, x, y);
        lemma_key_index_from(succs, 0, x);
        let i = key_index(succs, x);
        assert(succs[i].1[0] == y);
        assert(spurious_entry(preds, succs[i]));
    }
}

/// Recording a relation never introduces a duplicate key.
pub proof fn lemma_add_relation_unique(
    links: Seq<(Seq<u8>, Seq<Seq<u8>>)>,
    value: Seq<u8>,
    key: Seq<u8>,
)
    requires
        unique_keys(links),
    ensures
        unique_keys(spec_add_relation(links, value, key)),
{
    lemma_key_index_from(links, 0, key);
    if has_key(links, key) {
        if !assoc_get(links, key).contains(value) {
            lemma_assoc_insert_unique(links, key, assoc_get(links, key).push(value));
        }
    } else {
        let s2 = links.push((key, seq![value]));
        assert(forall|j: int| 0 <= j < links.len() ==> s2[j].0 == links[j].0 && links[j].0 != key);
        assert(s2[links.len() as int].0 == key);
    }
}

proof fn lemma_adjacency_from_unique(
    data: Seq<u8>,
    ls: int,
    preds: Seq<(Seq<u8>, Seq<Seq<u8>>)>,
    succs: Seq<(Seq<u8>, Seq<Seq<u8>>)>,
)
    requires
        0 <= ls <= data.len(),
        unique_keys(preds),
        unique_keys(succs),
    ensures
        unique_keys(adjacency_from(data, ls, preds, succs).0),
        unique_keys(adjacency_from(data, ls, preds, succs).1),
    decreases data.len() - ls,
{
    lemma_find_from(data, ls, 10);
    if ls < data.len() {
        let le = find_from(data, ls, 10);
        let next = if le < data.len() {
            le + 1
        } else {
            le
        };
        let content = chop_cr(data.subrange(ls, le));
        let fs = split_by(content, 9);
        if content.len() > 0 && content[0] == 69 && fs.len() >= 4 {
            lemma_add_relation_unique(preds, fs[1], fs[3]);
            lemma_add_relation_unique(succs, fs[3], fs[1]);
        }
        let step = adjacency_line(data, ls, preds, succs);
        lemma_adjacency_from_unique(data, next, step.0, step.1);
    }
}

/// Law: a node is in the detector's output for a file exactly when the
/// file's adjacency records give it a sole predecessor whose only
/// successor it is.
pub proof fn lemma_detector_membership(data: Seq<u8>, y: Seq<u8>)
    ensures
        spec_filter_spurious(adjacency_of(data).0, adjacency_of(data).1).contains(y) <==> exists|
            x: Seq<u8>,
        | #[trigger] spurious_link(adjacency_of(data).0, adjacency_of(data).1, x, y),
{
    lemma_adjacency_from_unique(data, 0, Seq::empty(), Seq::empty());
    lemma_spurious_set(adjacency_of(data).0, adjacency_of(data).1, y);
}

} // verus!
