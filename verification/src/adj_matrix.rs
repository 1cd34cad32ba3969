//! A dense adjacency matrix over integer-indexed vertices.

use vstd::prelude::*;

verus! {

/// A rectangular boolean matrix; `matrix[row][col]` records an adjacency.
#[derive(Debug)]
pub struct AdjacencyMatrix {
    pub matrix: Vec<Vec<bool>>,
}

impl AdjacencyMatrix {
    /// Every row has the same width.
    pub open spec fn wf(&self) -> bool {
        forall|r: int| 0 <= r < self.matrix@.len() ==> (#[trigger] self.matrix@[r])@.len()
            == self.cols()
    }

    pub open spec fn rows(&self) -> int {
        self.matrix@.len() as int
    }

    pub open spec fn cols(&self) -> int {
        if self.matrix@.len() == 0 {
            0
        } else {
            self.matrix@[0]@.len() as int
        }
    }

    pub open spec fn adj(&self, row: int, col: int) -> bool {
        self.matrix@[row]@[col]
    }

    /// A matrix of the given dimensions with no adjacency set.
    pub fn new(cols: usize, rows: usize) -> (m: AdjacencyMatrix)
        ensures
            m.wf(),
            m.rows() == rows,
            rows > 0 ==> m.cols() == cols,
            forall|r: int, c: int| 0 <= r < rows && 0 <= c < m.cols() ==> !m.adj(r, c),
    {
        let mut matrix: Vec<Vec<bool>> = Vec::new();
        let mut r: usize = 0;
        while r < rows
            invariant
                r == matrix@.len() <= rows,
                forall|i: int| 0 <= i < r ==> (#[trigger] matrix@[i])@ == Seq::new(
                    cols as nat,
                    |j: int| false,
                ),
            decreases rows - r,
        {
            let mut line: Vec<bool> = Vec::new();
            let mut c: usize = 0;
            while c < cols
                invariant
                    c == line@.len() <= cols,
                    forall|j: int| 0 <= j < c ==> !(#[trigger] line@[j]),
                decreases cols - c,
            {
                line.push(false);
                c = c + 1;
            }
            proof {
                assert(line@ =~= Seq::new(cols as nat, |j: int| false));
            }
            matrix.push(line);
            r = r + 1;
        }
        AdjacencyMatrix { matrix }
    }

    /// Sets the adjacency at `(row, col)`; all other cells are kept.
    pub fn set_adjacency(&mut self, row: usize, col: usize)
        requires
            old(self).wf(),
            row < old(self).rows(),
            col < old(self).cols(),
        ensures
            final(self).wf(),
            final(self).rows() == old(self).rows(),
            final(self).cols() == old(self).cols(),
            final(self).adj(row as int, col as int),
            forall|r: int, c: int|
                0 <= r < old(self).rows() && 0 <= c < old(self).cols() && !(r == row && c == col)
                    ==> final(self).adj(r, c) == old(self).adj(r, c),
    {
        let line: &mut Vec<bool> = &mut self.matrix[row];
        line[col] = true;
    }

    /// Clears the adjacency at `(row, col)`; all other cells are kept.
    pub fn clear_adjacency(&mut self, row: usize, col: usize)
        requires
            old(self).wf(),
            row < old(self).rows(),
            col < old(self).cols(),
        ensures
            final(self).wf(),
            final(self).rows() == old(self).rows(),
            final(self).cols() == old(self).cols(),
            !final(self).adj(row as int, col as int),
            forall|r: int, c: int|
                0 <= r < old(self).rows() && 0 <= c < old(self).cols() && !(r == row && c == col)
                    ==> final(self).adj(r, c) == old(self).adj(r, c),
    {
        let line: &mut Vec<bool> = &mut self.matrix[row];
        line[col] = false;
    }

    /// The full adjacency row for one vertex.
    pub fn get_adjacency(&self, row: usize) -> (line: &Vec<bool>)
        requires
            row < self.rows(),
        ensures
            line@.len() == self.matrix@[row as int]@.len(),
            forall|c: int| 0 <= c < line@.len() ==> line@[c] == self.adj(row as int, c),
    {
        &self.matrix[row]
    }
}

} // verus!
