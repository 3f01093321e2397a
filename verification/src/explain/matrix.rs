//! Dense matrices of integers, as the explanations of plans use them.
use vstd::prelude::*;

verus! {

/// A dense matrix of integers, stored row by row.
#[derive(Debug, Clone)]
pub struct IntMatrix {
    rows: Vec<Vec<i32>>,
    ncols: usize,
}

impl View for IntMatrix {
    type V = Seq<Seq<i32>>;

    closed spec fn view(&self) -> Seq<Seq<i32>> {
        self.rows@.map_values(|r: Vec<i32>| r@)
    }
}

impl IntMatrix {
    /// Number of columns.
    pub closed spec fn spec_ncols(&self) -> nat {
        self.ncols as nat
    }

    /// Every row has the same number of columns.
    pub open spec fn wf(&self) -> bool {
        forall|i: int| 0 <= i < self@.len() ==> (#[trigger] self@[i]).len() == self.spec_ncols()
    }

    /// The entry at row `i` and column `j`.
    pub open spec fn at(&self, i: int, j: int) -> i32 {
        self@[i][j]
    }

    /// The `nrows` by `ncols` matrix with `elt` on its diagonal and zero elsewhere.
    pub fn from_diagonal_element(nrows: usize, ncols: usize, elt: i32) -> (res: IntMatrix)
        ensures
            res.wf(),
            res@.len() == nrows,
            res.spec_ncols() == ncols,
            forall|i: int, j: int| 0 <= i < nrows && 0 <= j < ncols ==> #[trigger] res.at(i, j) == if i == j {
                elt
            } else {
                0
            },
    {
        let mut rows: Vec<Vec<i32>> = Vec::new();
        let mut i: usize = 0;
        while i < nrows
            invariant
                i <= nrows,
                rows@.len() == i,
                forall|a: int| 0 <= a < i ==> (#[trigger] rows@[a])@.len() == ncols,
                forall|a: int, b: int| 0 <= a < i && 0 <= b < ncols ==> #[trigger] rows@[a]@[b] == if a == b {
                    elt
                } else {
                    0
                },
            decreases nrows - i,
        {
            let mut row: Vec<i32> = Vec::new();
            let mut j: usize = 0;
            while j < ncols
                invariant
                    j <= ncols,
                    row@.len() == j,
                    forall|b: int| 0 <= b < j ==> #[trigger] row@[b] == if i == b {
                        elt
                    } else {
                        0
                    },
                decreases ncols - j,
            {
                if i == j {
                    row.push(elt);
                } else {
                    row.push(0);
                }
                j = j + 1;
            }
            rows.push(row);
            i = i + 1;
        }
        IntMatrix { rows, ncols }
    }

    /// Number of rows.
    pub fn nrows(&self) -> (res: usize)
        ensures
            res == self@.len(),
    {
        self.rows.len()
    }

    /// Number of columns.
    pub fn ncols(&self) -> (res: usize)
        ensures
            res == self.spec_ncols(),
    {
        self.ncols
    }

    /// The entry at row `i` and column `j`.
    pub fn get(&self, i: usize, j: usize) -> (res: i32)
        requires
            self.wf(),
            i < self@.len(),
            j < self.spec_ncols(),
        ensures
            res == self.at(i as int, j as int),
    {
        assert(self.rows@[i as int]@ == self@[i as int]);
        self.rows[i][j]
    }

    /// Sets the entry at row `i` and column `j` to `v`.
    pub fn set(&mut self, i: usize, j: usize, v: i32)
        requires
            old(self).wf(),
            i < old(self)@.len(),
            j < old(self).spec_ncols(),
        ensures
            final(self).wf(),
            final(self).spec_ncols() == old(self).spec_ncols(),
            final(self)@ == old(self)@.update(i as int, old(self)@[i as int].update(j as int, v)),
    {
        let mut row = self.rows[i].clone();
        assert(row@ =~= old(self)@[i as int]);
        row.set(j, v);
        self.rows.set(i, row);
        assert(self@ =~= old(self)@.update(i as int, old(self)@[i as int].update(j as int, v)));
    }

    /// The entry at row `i` and column `j`, if the matrix has one there.
    pub fn get_opt(&self, i: usize, j: usize) -> (res: Option<i32>)
        requires
            self.wf(),
        ensures
            if i < self@.len() && j < self.spec_ncols() {
                res == Some(self.at(i as int, j as int))
            } else {
                res is None
            },
    {
        if i < self.rows.len() && j < self.ncols {
            Some(self.get(i, j))
        } else {
            None
        }
    }

    /// A copy of the matrix.
    pub fn copy(&self) -> (res: IntMatrix)
        requires
            self.wf(),
        ensures
            res.wf(),
            res@ == self@,
            res.spec_ncols() == self.spec_ncols(),
    {
        let mut rows: Vec<Vec<i32>> = Vec::new();
        let mut i: usize = 0;
        while i < self.rows.len()
            invariant
                i <= self.rows@.len(),
                self.wf(),
                rows@.len() == i,
                forall|a: int| 0 <= a < i ==> (#[trigger] rows@[a])@ == self@[a],
            decreases self.rows@.len() - i,
        {
            let mut row: Vec<i32> = Vec::new();
            let mut j: usize = 0;
            let src = &self.rows[i];
            assert(src@ == self@[i as int]);
            while j < src.len()
                invariant
                    j <= src@.len(),
                    row@ == src@.subrange(0, j as int),
                decreases src@.len() - j,
            {
                row.push(src[j]);
                assert(row@ =~= src@.subrange(0, j + 1));
                j = j + 1;
            }
            assert(row@ =~= src@);
            rows.push(row);
            i = i + 1;
        }
        let res = IntMatrix { rows, ncols: self.ncols };
        assert(res@ =~= self@);
        res
    }
}

} // verus!
