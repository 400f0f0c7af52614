use vstd::prelude::*;

use crate::errors::CalcError;
use crate::rat::{q_eq, q_wf, q_zero, Q, Rat};

verus! {

/// Mathematical value of a matrix: its two dimensions and its cells. The
/// dimensions are carried beside the cells so that a matrix without rows
/// still knows how many columns it has.
pub ghost struct MatV {
    pub rows: int,
    pub cols: int,
    pub cells: Seq<Seq<Q>>,
}

/// There are exactly `rows` rows, every row has exactly `cols` cells, and
/// every cell is a well-formed fraction.
pub open spec fn mat_v_wf(v: MatV) -> bool {
    &&& v.rows >= 0
    &&& v.cols >= 0
    &&& v.cells.len() == v.rows
    &&& forall|i: int| 0 <= i < v.rows ==> (#[trigger] v.cells[i]).len() == v.cols
    &&& forall|i: int, j: int|
        0 <= i < v.rows && 0 <= j < v.cols ==> q_wf(#[trigger] v.cells[i][j])
}

/// Whether two matrix values have the same shape and denote the same
/// rational number in every cell.
pub open spec fn mat_eq_val(a: MatV, b: MatV) -> bool {
    &&& a.rows == b.rows
    &&& a.cols == b.cols
    &&& forall|i: int, j: int|
        0 <= i < a.rows && 0 <= j < a.cols ==> q_eq(#[trigger] a.cells[i][j], b.cells[i][j])
}

/// Dense, row-major, rectangular matrix of exact scalars.
#[derive(Debug)]
pub struct Matrix {
    pub m: usize,
    pub n: usize,
    pub data: Vec<Vec<Rat>>,
}

impl View for Matrix {
    type V = MatV;

    open spec fn view(&self) -> MatV {
        MatV { rows: self.m as int, cols: self.n as int, cells: self.data.deep_view() }
    }
}

impl Clone for Matrix {
    /// An exact copy: same dimensions, same value in every cell.
    fn clone(&self) -> (res: Matrix)
        ensures
            res.m == self.m,
            res.n == self.n,
            res@ == self@,
    {
        let mut data: Vec<Vec<Rat>> = Vec::new();
        let mut i: usize = 0;
        while i < self.data.len()
            invariant
                i <= self.data.len(),
                data@.len() == i,
                forall|a: int| 0 <= a < i ==> (#[trigger] data@[a])@ == self.data@[a]@,
            decreases self.data.len() - i,
        {
            let src = &self.data[i];
            let mut row: Vec<Rat> = Vec::new();
            let mut j: usize = 0;
            while j < src.len()
                invariant
                    j <= src.len(),
                    row@.len() == j,
                    forall|b: int| 0 <= b < j ==> row@[b] == src@[b],
                decreases src.len() - j,
            {
                row.push(src[j]);
                j = j + 1;
            }
            proof {
                assert(row@ =~= src@);
            }
            data.push(row);
            i = i + 1;
        }
        let res = Matrix { m: self.m, n: self.n, data };
        proof {
            assert forall|a: int| 0 <= a < res.data@.len() implies (#[trigger] res.data@[a]).deep_view()
                =~= self.data@[a].deep_view() by {
                assert(res.data@[a]@ == self.data@[a]@);
            }
            assert(res@.cells =~~= self@.cells);
        }
        res
    }
}

impl Matrix {
    /// The representation matches the declared dimensions and every cell is
    /// a well-formed scalar.
    pub open spec fn wf(&self) -> bool {
        mat_v_wf(self@)
    }

    /// An all-zero matrix of the given shape.
    pub fn new_empty(rows: usize, cols: usize) -> (r: Matrix)
        ensures
            r.wf(),
            r.m == rows,
            r.n == cols,
            forall|i: int, j: int|
                0 <= i < rows && 0 <= j < cols ==> r@.cells[i][j] == q_zero(),
    {
        let mut data: Vec<Vec<Rat>> = Vec::new();
        let mut i: usize = 0;
        while i < rows
            invariant
                i <= rows,
                data@.len() == i,
                forall|a: int| 0 <= a < i ==> (#[trigger] data@[a])@.len() == cols,
                forall|a: int, b: int|
                    0 <= a < i && 0 <= b < cols ==> (#[trigger] data@[a]@[b]).wf()
                        && data@[a]@[b]@ == q_zero(),
            decreases rows - i,
        {
            let mut row: Vec<Rat> = Vec::new();
            let mut j: usize = 0;
            while j < cols
                invariant
                    j <= cols,
                    row@.len() == j,
                    forall|b: int| 0 <= b < j ==> (#[trigger] row@[b]).wf() && row@[b]@ == q_zero(),
                decreases cols - j,
            {
                row.push(Rat::zero());
                j = j + 1;
            }
            data.push(row);
            i = i + 1;
        }
        Matrix { m: rows, n: cols, data }
    }

    /// A matrix built from literal rows; fails unless there are exactly
    /// `rows` rows of exactly `cols` cells each.
    pub fn new_from(rows: usize, cols: usize, arr: &Vec<Vec<Rat>>) -> (r: Result<
        Matrix,
        CalcError,
    >)
        requires
            forall|i: int, j: int|
                0 <= i < arr@.len() && 0 <= j < arr@[i]@.len() ==> (#[trigger] arr@[i]@[j]).wf(),
        ensures
            match r {
                Ok(mat) => {
                    &&& arr@.len() == rows
                    &&& forall|i: int| 0 <= i < rows ==> (#[trigger] arr@[i])@.len() == cols
                    &&& mat.wf()
                    &&& mat.m == rows
                    &&& mat.n == cols
                    &&& mat@.cells == arr.deep_view()
                },
                Err(e) => {
                    &&& e == CalcError::DimensionMismatch
                    &&& (arr@.len() != rows || exists|i: int|
                        0 <= i < rows && (#[trigger] arr@[i])@.len() != cols)
                },
            },
    {
        if arr.len() != rows {
            return Err(CalcError::DimensionMismatch);
        }
        let mut data: Vec<Vec<Rat>> = Vec::new();
        let mut i: usize = 0;
        while i < rows
            invariant
                i <= rows,
                rows == arr@.len(),
                data@.len() == i,
                forall|i2: int, j: int|
                    0 <= i2 < arr@.len() && 0 <= j < arr@[i2]@.len() ==> (#[trigger] arr@[i2]@[j]).wf(),
                forall|a: int| 0 <= a < i ==> (#[trigger] arr@[a])@.len() == cols,
                forall|a: int| 0 <= a < i ==> (#[trigger] data@[a])@ == arr@[a]@,
            decreases rows - i,
        {
            let src = &arr[i];
            if src.len() != cols {
                return Err(CalcError::DimensionMismatch);
            }
            let mut row: Vec<Rat> = Vec::new();
            let mut j: usize = 0;
            while j < cols
                invariant
                    j <= cols,
                    cols == src@.len(),
                    row@.len() == j,
                    forall|b: int| 0 <= b < j ==> row@[b] == src@[b],
                decreases cols - j,
            {
                row.push(src[j]);
                j = j + 1;
            }
            proof {
                assert(row@ =~= src@);
            }
            data.push(row);
            i = i + 1;
        }
        let mat = Matrix { m: rows, n: cols, data };
        proof {
            assert forall|a: int| 0 <= a < rows implies (#[trigger] mat.data@[a]).deep_view()
                =~= arr@[a].deep_view() by {
                assert(mat.data@[a]@ == arr@[a]@);
            }
            assert(mat@.cells =~~= arr.deep_view());
        }
        Ok(mat)
    }

    /// Overwrites every cell with the given scalar, keeping the shape.
    pub fn fill(&mut self, num: Rat)
        requires
            old(self).wf(),
            num.wf(),
        ensures
            final(self).wf(),
            final(self).m == old(self).m,
            final(self).n == old(self).n,
            forall|i: int, j: int|
                0 <= i < old(self).m && 0 <= j < old(self).n ==> final(self)@.cells[i][j] == num@,
    {
        let rows = self.m;
        let cols = self.n;
        let mut i: usize = 0;
        while i < rows
            invariant
                i <= rows,
                self.wf(),
                self.m == rows,
                self.n == cols,
                num.wf(),
                forall|a: int, b: int|
                    0 <= a < i && 0 <= b < cols ==> self@.cells[a][b] == num@,
            decreases rows - i,
        {
            let mut j: usize = 0;
            while j < cols
                invariant
                    i < rows,
                    j <= cols,
                    self.wf(),
                    self.m == rows,
                    self.n == cols,
                    num.wf(),
                    forall|a: int, b: int|
                        0 <= a < i && 0 <= b < cols ==> self@.cells[a][b] == num@,
                    forall|b: int| 0 <= b < j ==> self@.cells[i as int][b] == num@,
                decreases cols - j,
            {
                self.set(i, j, num);
                j = j + 1;
            }
            i = i + 1;
        }
    }

    /// Whether the two matrices have the same shape and denote the same
    /// rational number in every cell.
    pub fn equals(&self, other: &Matrix) -> (r: bool)
        requires
            self.wf(),
            other.wf(),
        ensures
            r == mat_eq_val(self@, other@),
    {
        if self.m != other.m || self.n != other.n {
            return false;
        }
        let mut i: usize = 0;
        while i < self.m
            invariant
                i <= self.m,
                self.wf(),
                other.wf(),
                self.m == other.m,
                self.n == other.n,
                forall|a: int, b: int|
                    0 <= a < i && 0 <= b < self.n ==> q_eq(
                        #[trigger] self@.cells[a][b],
                        other@.cells[a][b],
                    ),
            decreases self.m - i,
        {
            let mut j: usize = 0;
            while j < self.n
                invariant
                    i < self.m,
                    j <= self.n,
                    self.wf(),
                    other.wf(),
                    self.m == other.m,
                    self.n == other.n,
                    forall|a: int, b: int|
                        0 <= a < i && 0 <= b < self.n ==> q_eq(
                            #[trigger] self@.cells[a][b],
                            other@.cells[a][b],
                        ),
                    forall|b: int|
                        0 <= b < j ==> q_eq(
                            #[trigger] self@.cells[i as int][b],
                            other@.cells[i as int][b],
                        ),
                decreases self.n - j,
            {
                let x = self.get(i, j);
                let y = other.get(i, j);
                if !x.eq_val(&y) {
                    return false;
                }
                j = j + 1;
            }
            i = i + 1;
        }
        true
    }

    /// Writes one cell.
    pub fn set(&mut self, m: usize, n: usize, value: Rat)
        requires
            old(self).wf(),
            m < old(self).m,
            n < old(self).n,
            value.wf(),
        ensures
            final(self).wf(),
            final(self).m == old(self).m,
            final(self).n == old(self).n,
            final(self)@.cells == old(self)@.cells.update(
                m as int,
                old(self)@.cells[m as int].update(n as int, value@),
            ),
    {
        proof {
            assert(self@.cells[m as int] == self.data@[m as int].deep_view());
        }
        self.data[m][n] = value;
        proof {
            assert(self@.cells =~~= old(self)@.cells.update(
                m as int,
                old(self)@.cells[m as int].update(n as int, value@),
            ));
        }
    }

    /// Reads one cell.
    pub fn get(&self, m: usize, n: usize) -> (r: Rat)
        requires
            self.wf(),
            m < self.m,
            n < self.n,
        ensures
            r.wf(),
            r@ == self@.cells[m as int][n as int],
    {
        proof {
            assert(self@.cells[m as int] == self.data@[m as int].deep_view());
            assert(q_wf(self@.cells[m as int][n as int]));
        }
        self.data[m][n]
    }

    pub fn is_squared(&self) -> (r: bool)
        ensures
            r == (self.m == self.n),
    {
        self.m == self.n
    }
}

} // verus!
