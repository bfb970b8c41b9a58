//! Cumulative boundary coordinates of a node list held in memory.

use vstd::prelude::*;
use crate::tables::Table;
use crate::tokenizer::{sum_sizes, size_of_node, node_size, lemma_sum_sizes_bounds};

verus! {

/// The running sums of the listed nodes' sizes: one entry per node, each
/// the total size of the list up to and including that node. A node
/// missing from the size table contributes nothing.
pub fn compute_cumulative_sum(names: &Vec<Vec<u8>>, sizes: &Table<u64>) -> (r: Vec<u128>)
    ensures
        r@.len() == names@.len(),
        forall|i: int|
            0 <= i < names@.len() ==> #[trigger] r@[i] as int == sum_sizes(
                names.deep_view().take(i + 1),
                sizes@,
            ),
{
    let mut cumulative_sum: u128 = 0;
    let mut result: Vec<u128> = Vec::new();
    let n = names.len();
    let mut i: usize = 0;
    proof {
        assert(names.deep_view().take(0) =~~= Seq::<Seq<u8>>::empty());
    }
    while i < n
        invariant
            i <= n,
            n == names@.len(),
            result@.len() == i,
            cumulative_sum as int == sum_sizes(names.deep_view().take(i as int), sizes@),
            forall|j: int|
                0 <= j < i ==> #[trigger] result@[j] as int == sum_sizes(
                    names.deep_view().take(j + 1),
                    sizes@,
                ),
        decreases n - i,
    {
        proof {
            crate::tables::lemma_name_list_elem(names, i as int);
            assert(names.deep_view().take(i as int + 1).drop_last() =~~= names.deep_view().take(
                i as int,
            ));
            assert(names.deep_view().take(i as int + 1).last() == names.deep_view()[i as int]);
            lemma_sum_sizes_bounds(names.deep_view().take(i as int), sizes@);
            assert(names.deep_view().take(i as int).len() < 0x1_0000_0000_0000_0000);
            let gi: int = i as int;
            assert(gi * 0xffff_ffff_ffff_ffff + 0xffff_ffff_ffff_ffff
                < 0xffff_ffff_ffff_ffff_ffff_ffff_ffff_ffff) by (nonlinear_arith)
                requires
                    0 <= gi < 0x1_0000_0000_0000_0000,
            ;
        }
        let sz = node_size(sizes, names[i].as_slice());
        cumulative_sum = cumulative_sum + (sz as u128);
        result.push(cumulative_sum);
        i = i + 1;
    }
    result
}

} // verus!
