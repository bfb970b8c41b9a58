//! One-shot parsing of a graph file into in-memory tables.
//!
//! Unlike the indexer, which records byte offsets for lazy replay, this
//! reader materializes per segment record the node's size, and per
//! comma-delimited path record the full node list, each node id with its
//! trailing orientation character removed.

use vstd::prelude::*;
use crate::bytes::{find_from, find_byte, split_by, split_fields, chop_cr, chop_cr_slice,
    lemma_find_from};
use crate::tables::{Table, ListTable, assoc_insert, lemma_name_list_elem};

verus! {

/// A node id with its one-character orientation suffix removed; an empty
/// token is kept empty.
pub open spec fn chop_token(t: Seq<u8>) -> Seq<u8> {
    if t.len() > 0 {
        t.drop_last()
    } else {
        t
    }
}

/// The node list of a comma-delimited path field.
pub open spec fn node_list_of(field: Seq<u8>) -> Seq<Seq<u8>> {
    split_by(field, 44).map_values(|t: Seq<u8>| chop_token(t))
}

/// What one record contributes: a segment record stores the node's size
/// (the byte length of its sequence field), a comma-delimited path record
/// stores the node list under the path's name.
pub open spec fn parse_line(
    data: Seq<u8>,
    ls: int,
    sizes: Seq<(Seq<u8>, u64)>,
    lists: Seq<(Seq<u8>, Seq<Seq<u8>>)>,
) -> (Seq<(Seq<u8>, u64)>, Seq<(Seq<u8>, Seq<Seq<u8>>)>)
    recommends
        0 <= ls <= data.len(),
{
    let le = find_from(data, ls, 10);
    let content = chop_cr(data.subrange(ls, le));
    let fs = split_by(content, 9);
    if content.len() > 0 && content[0] == 83 && fs.len() >= 3 {
        (assoc_insert(sizes, fs[1], fs[2].len() as u64), lists)
    } else if content.len() > 0 && content[0] == 80 && fs.len() >= 3 {
        (sizes, assoc_insert(lists, fs[1], node_list_of(fs[2])))
    } else {
        (sizes, lists)
    }
}

/// The parse folded over every record from `ls` on.
pub open spec fn parse_from(
    data: Seq<u8>,
    ls: int,
    sizes: Seq<(Seq<u8>, u64)>,
    lists: Seq<(Seq<u8>, Seq<Seq<u8>>)>,
) -> (Seq<(Seq<u8>, u64)>, Seq<(Seq<u8>, Seq<Seq<u8>>)>)
    decreases data.len() - ls when 0 <= ls <= data.len() via parse_from_decreases
{
    if ls >= data.len() {
        (sizes, lists)
    } else {
        let le = find_from(data, ls, 10);
        let next = if le < data.len() {
            le + 1
        } else {
            le
        };
        let step = parse_line(data, ls, sizes, lists);
        parse_from(data, next, step.0, step.1)
    }
}

#[via_fn]
proof fn parse_from_decreases(
    data: Seq<u8>,
    ls: int,
    sizes: Seq<(Seq<u8>, u64)>,
    lists: Seq<(Seq<u8>, Seq<Seq<u8>>)>,
) {
    lemma_find_from(data, ls, 10);
}

/// The parse of the whole file.
pub open spec fn parse_of(data: Seq<u8>) -> (Seq<(Seq<u8>, u64)>, Seq<(Seq<u8>, Seq<Seq<u8>>)>) {
    parse_from(data, 0, Seq::empty(), Seq::empty())
}

/// The node list of one comma-delimited path field.
fn node_list_exec(field: &[u8]) -> (r: Vec<Vec<u8>>)
    ensures
        r.deep_view() == node_list_of(field@),
{
    let raw = split_fields(field, 44);
    let mut out: Vec<Vec<u8>> = Vec::new();
    let n = raw.len();
    let mut i: usize = 0;
    proof {
        assert(out.deep_view() =~~= node_list_of(field@).take(0));
    }
    while i < n
        invariant
            i <= n,
            n == raw@.len(),
            raw.deep_view() == split_by(field@, 44),
            out.deep_view() =~~= node_list_of(field@).take(i as int),
        decreases n - i,
    {
        let ghost pre = out.deep_view();
        proof {
            lemma_name_list_elem(&raw, i as int);
        }
        let mut tok = raw[i].clone();
        proof {
            assert(tok@ =~= raw@[i as int]@);
        }
        if tok.len() > 0 {
            let ghost before = tok@;
            tok.pop();
            proof {
                assert(tok@ =~= before.drop_last());
            }
        }
        proof {
            assert(tok@ =~= chop_token(split_by(field@, 44)[i as int]));
        }
        out.push(tok);
        proof {
            assert(out.deep_view() =~~= pre.push(node_list_of(field@)[i as int]));
            assert(out.deep_view() =~~= node_list_of(field@).take(i as int + 1));
        }
        i = i + 1;
    }
    proof {
        assert(node_list_of(field@).take(node_list_of(field@).len() as int) =~~= node_list_of(
            field@,
        ));
    }
    out
}

/// Read a graph's segment sizes and comma-delimited path node lists.
pub fn read_gfa_file(data: &[u8]) -> (r: (Table<u64>, ListTable))
    ensures
        r.0@ == parse_of(data@).0,
        r.1@ == parse_of(data@).1,
{
    let mut seq_lengths: Table<u64> = Table::new();
    let mut node_lists: ListTable = ListTable::new();
    let mut ls: usize = 0;
    proof {
        assert(seq_lengths@ =~= Seq::<(Seq<u8>, u64)>::empty());
        assert(node_lists@ =~~= Seq::<(Seq<u8>, Seq<Seq<u8>>)>::empty());
    }
    while ls < data.len()
        invariant
            ls <= data@.len(),
            parse_from(data@, ls as int, seq_lengths@, node_lists@) == parse_of(data@),
        decreases data@.len() - ls,
    {
        let ghost sz0 = seq_lengths@;
        let ghost nl0 = node_lists@;
        let le = find_byte(data, ls, 10);
        proof {
            lemma_find_from(data@, ls as int, 10);
        }
        let content = chop_cr_slice(vstd::slice::slice_subrange(data, ls, le));
        let ghost cs = chop_cr(data@.subrange(ls as int, le as int));
        let next = if le < data.len() {
            le + 1
        } else {
            le
        };
        if content.len() > 0 {
            let tag = content[0];
            if tag == 83 || tag == 80 {
                let fields = split_fields(content, 9);
                let ghost fs = split_by(cs, 9);
                if fields.len() >= 3 {
                    proof {
                        lemma_name_list_elem(&fields, 1);
                        lemma_name_list_elem(&fields, 2);
                    }
                    if tag == 83 {
                        let name = fields[1].clone();
                        let sz: u64 = fields[2].len() as u64;
                        seq_lengths.insert(name, sz);
                        proof {
                            assert(seq_lengths@ =~= parse_line(data@, ls as int, sz0, nl0).0);
                        }
                    } else {
                        let name = fields[1].clone();
                        let list = node_list_exec(fields[2].as_slice());
                        node_lists.insert(name, list);
                        proof {
                            assert(node_lists@ =~~= parse_line(data@, ls as int, sz0, nl0).1);
                        }
                    }
                }
            }
        }
        proof {
            assert(seq_lengths@ == parse_line(data@, ls as int, sz0, nl0).0);
            assert(node_lists@ == parse_line(data@, ls as int, sz0, nl0).1);
            assert(parse_from(data@, ls as int, sz0, nl0) == parse_from(
                data@,
                next as int,
                seq_lengths@,
                node_lists@,
            ));
        }
        ls = next;
    }
    (seq_lengths, node_lists)
}

} // verus!
