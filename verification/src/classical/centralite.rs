//! Centrality of the steps of a plan, for classical planning: link counts, and values grouped by
//! operator.
use vstd::prelude::*;
use crate::classical::state::Op;
use crate::explain::matrix::IntMatrix;
use crate::explain::centralite::{col_count, row_count, grouped, groups_v, read_len};

verus! {

/// For each row `k` of the support matrix: the number of links that enter step `k` (non-zero
/// entries in column `k`) and the number that leave it (non-zero entries in row `k`).
pub fn calculcentraliteglobal2(support: &IntMatrix) -> (res: Vec<(usize, usize)>)
    requires
        support.wf(),
        support@.len() <= support.spec_ncols(),
    ensures
        res@ == Seq::new(
            support@.len(),
            |k: int| (col_count(support@, k, support@.len() as int) as usize, row_count(support@, k, support.spec_ncols() as int) as usize),
        ),
{
    crate::explain::centralite::calculcentraliteglobal2(support)
}

/// The values `centra` grouped by the operator of their step: one group per operator, in the order
/// of first occurrence, with the values of its steps in order.
pub fn regroupementcentraliteaction<T: Copy>(centra: &Vec<T>, plan: &Vec<Op>) -> (res: Vec<(Op, Vec<T>)>)
    ensures
        groups_v(res@) == grouped(
            Seq::<Op>::empty(),
            plan@.take(read_len(centra@.len(), plan@.len())),
            centra@.take(read_len(centra@.len(), plan@.len())),
        ),
{
    crate::explain::centralite::regroupementcentraliteop(centra, plan)
}

} // verus!
