//! Differences between two states, two histories or two matrices.
use vstd::prelude::*;
use crate::classical::state::{SVId, State};
use crate::explain::state2::Resume;
use crate::explain::matrix::IntMatrix;

verus! {

/// How many of the first `k` variables differ between `a` and `b`.
pub open spec fn state_diff(a: Seq<bool>, b: Seq<bool>, k: int) -> nat
    decreases k,
{
    if k <= 0 {
        0
    } else {
        state_diff(a, b, k - 1) + if a[k - 1] != b[k - 1] {
            1nat
        } else {
            0nat
        }
    }
}

/// The number of variables (among those of both states) whose value differs between the two
/// states.
pub fn state_differences(initial_state: &State, inter_state: &State) -> (res: usize)
    ensures
        res == state_diff(
            initial_state@,
            inter_state@,
            if initial_state@.len() < inter_state@.len() {
                initial_state@.len() as int
            } else {
                inter_state@.len() as int
            },
        ),
{
    let n = if initial_state.size() < inter_state.size() {
        initial_state.size()
    } else {
        inter_state.size()
    };
    let mut diff: usize = 0;
    let mut v: usize = 0;
    while v < n
        invariant
            v <= n,
            n <= initial_state@.len(),
            n <= inter_state@.len(),
            diff == state_diff(initial_state@, inter_state@, v as int),
            diff <= v,
        decreases n - v,
    {
        if initial_state.is_set(SVId { id: v }) != inter_state.is_set(SVId { id: v }) {
            diff = diff + 1;
        }
        v = v + 1;
    }
    diff
}

/// How many records among the first `k` of `h2` are about another step than `r`.
pub open spec fn other_steps(r: Resume, h2: Seq<Resume>, k: int) -> nat
    decreases k,
{
    if k <= 0 {
        0
    } else {
        other_steps(r, h2, k - 1) + if r.spec_numero() != h2[k - 1].spec_numero() {
            1nat
        } else {
            0nat
        }
    }
}

/// How many pairs of a record among the first `k` of `h1` and a record of `h2` are about
/// different steps.
pub open spec fn history_diff(h1: Seq<Resume>, h2: Seq<Resume>, k: int) -> nat
    decreases k,
{
    if k <= 0 {
        0
    } else {
        history_diff(h1, h2, k - 1) + other_steps(h1[k - 1], h2, h2.len() as int)
    }
}

/// A count of pairs is at most the number of pairs.
proof fn lemma_other_steps(r: Resume, h2: Seq<Resume>, k: int)
    requires
        k >= 0,
    ensures
        other_steps(r, h2, k) <= k,
    decreases k,
{
    if k > 0 {
        lemma_other_steps(r, h2, k - 1);
    }
}

/// The number of pairs of a record of `h1` and a record of `h2` that are about different steps.
pub fn history_differences(h1: &Vec<Resume>, h2: &Vec<Resume>) -> (res: usize)
    requires
        h1@.len() * h2@.len() <= usize::MAX,
    ensures
        res == history_diff(h1@, h2@, h1@.len() as int),
{
    let mut diff: usize = 0;
    let mut i: usize = 0;
    while i < h1.len()
        invariant
            i <= h1@.len(),
            h1@.len() * h2@.len() <= usize::MAX,
            diff == history_diff(h1@, h2@, i as int),
            diff <= i * h2@.len(),
        decreases h1@.len() - i,
    {
        let mut j: usize = 0;
        let ghost base = diff;
        proof {
            assert(i * h2@.len() + h2@.len() <= h1@.len() * h2@.len()) by (nonlinear_arith)
                requires
                    i < h1@.len(),
            ;
        }
        while j < h2.len()
            invariant
                j <= h2@.len(),
                i < h1@.len(),
                base + h2@.len() <= usize::MAX,
                diff == base + other_steps(h1@[i as int], h2@, j as int),
                diff <= base + j,
            decreases h2@.len() - j,
        {
            if h1[i].numero() != h2[j].numero() {
                diff = diff + 1;
            }
            j = j + 1;
        }
        proof {
            assert((i + 1) * h2@.len() == i * h2@.len() + h2@.len()) by (nonlinear_arith);
        }
        i = i + 1;
    }
    diff
}

/// The entries that differ between the first `k` rows of two matrices of `ncols` columns, in
/// order: row, column, value in `a`, value in `b`.
pub open spec fn matrix_diff(a: Seq<Seq<i32>>, b: Seq<Seq<i32>>, ncols: int, k: int) -> Seq<(usize, usize, i32, i32)>
    decreases k,
{
    if k <= 0 {
        seq![]
    } else {
        matrix_diff(a, b, ncols, k - 1) + row_diff(a, b, k - 1, ncols)
    }
}

/// The entries that differ between the first `c` columns of row `r` of two matrices, in order.
pub open spec fn row_diff(a: Seq<Seq<i32>>, b: Seq<Seq<i32>>, r: int, c: int) -> Seq<(usize, usize, i32, i32)>
    decreases c,
{
    if c <= 0 {
        seq![]
    } else {
        row_diff(a, b, r, c - 1) + if a[r][c - 1] != b[r][c - 1] {
            seq![(r as usize, (c - 1) as usize, a[r][c - 1], b[r][c - 1])]
        } else {
            seq![]
        }
    }
}

/// The entries that differ between two matrices of the same size, in order (row, column, value
/// in each); none when their sizes differ.
pub fn matrix_differences(mat1: &IntMatrix, mat2: &IntMatrix) -> (res: Option<Vec<(usize, usize, i32, i32)>>)
    requires
        mat1.wf(),
        mat2.wf(),
    ensures
        match res {
            Some(v) => mat1@.len() == mat2@.len() && mat1.spec_ncols() == mat2.spec_ncols() && v@ == matrix_diff(
                mat1@,
                mat2@,
                mat1.spec_ncols() as int,
                mat1@.len() as int,
            ),
            None => mat1@.len() != mat2@.len() || mat1.spec_ncols() != mat2.spec_ncols(),
        },
{
    let i1 = mat1.nrows();
    let j1 = mat1.ncols();
    if i1 != mat2.nrows() || j1 != mat2.ncols() {
        return None;
    }
    let mut out: Vec<(usize, usize, i32, i32)> = Vec::new();
    let mut row: usize = 0;
    while row < i1
        invariant
            row <= i1,
            i1 == mat1@.len() == mat2@.len(),
            j1 == mat1.spec_ncols() == mat2.spec_ncols(),
            mat1.wf(),
            mat2.wf(),
            out@ == matrix_diff(mat1@, mat2@, j1 as int, row as int),
        decreases i1 - row,
    {
        let ghost base = out@;
        let mut col: usize = 0;
        while col < j1
            invariant
                col <= j1,
                row < i1,
                i1 == mat1@.len() == mat2@.len(),
                j1 == mat1.spec_ncols() == mat2.spec_ncols(),
                mat1.wf(),
                mat2.wf(),
                out@ == base + row_diff(mat1@, mat2@, row as int, col as int),
            decreases j1 - col,
        {
            let a = mat1.get(row, col);
            let b = mat2.get(row, col);
            if a != b {
                out.push((row, col, a, b));
            }
            proof {
                assert(out@ =~= base + row_diff(mat1@, mat2@, row as int, col + 1));
            }
            col = col + 1;
        }
        row = row + 1;
    }
    Some(out)
}

} // verus!
