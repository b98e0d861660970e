//! A fixed-size square map addressed by cell index.

use vstd::prelude::*;

use crate::grid::CellIndex;

verus! {

/// An N-by-N grid of values, indexed by a cell whose coordinates may lie
/// outside the stored square (such lookups answer `None`).
pub struct Map2D<const N: usize, T: Copy> {
    data: Vec<T>,
}

impl<const N: usize, T: Copy> Map2D<N, T> {
    /// Structural invariant: one entry per cell.
    pub closed spec fn wf(self) -> bool {
        self.data.len() == N * N
    }

    /// The stored value at column x, row y.
    pub closed spec fn at(self, x: int, y: int) -> T
        recommends
            0 <= x < N,
            0 <= y < N,
    {
        self.data[x * N + y]
    }

    proof fn lemma_at_range(self, x: int, y: int)
        requires
            0 <= x < N,
            0 <= y < N,
        ensures
            0 <= x * N + y < N * N,
    {
        assert(0 <= x * (N as int) && x * (N as int) + y < (N as int) * (N as int))
            by (nonlinear_arith)
            requires
                0 <= x < N,
                0 <= y < N,
        ;
    }

    proof fn lemma_at_inj(self, x1: int, y1: int, x2: int, y2: int)
        requires
            0 <= x1 < N,
            0 <= y1 < N,
            0 <= x2 < N,
            0 <= y2 < N,
            x1 * N + y1 == x2 * N + y2,
        ensures
            x1 == x2 && y1 == y2,
    {
        assert(x1 == x2 && y1 == y2) by (nonlinear_arith)
            requires
                0 <= x1 < N,
                0 <= y1 < N,
                0 <= x2 < N,
                0 <= y2 < N,
                x1 * (N as int) + y1 == x2 * (N as int) + y2,
        ;
    }

    /// A map with every entry set to `fill_with`.
    pub fn new(fill_with: T) -> (r: Self)
        requires
            N <= 32768,
        ensures
            r.wf(),
            forall|x: int, y: int| 0 <= x < N && 0 <= y < N ==> r.at(x, y) == fill_with,
    {
        proof {
            assert(N * N <= 32768 * 32768) by (nonlinear_arith)
                requires
                    N <= 32768,
            ;
        }
        let n = N * N;
        let mut data: Vec<T> = Vec::new();
        let mut i: usize = 0;
        while i < n
            invariant
                i <= n,
                data.len() == i,
                forall|j: int| 0 <= j < i ==> data[j] == fill_with,
            decreases n - i,
        {
            data.push(fill_with);
            i = i + 1;
        }
        let r = Map2D { data };
        assert forall|x: int, y: int| 0 <= x < N && 0 <= y < N implies r.at(x, y) == fill_with by {
            r.lemma_at_range(x, y);
        }
        r
    }

    /// The value at `index`, or `None` outside the square.
    pub fn get(&self, index: CellIndex) -> (r: Option<T>)
        requires
            self.wf(),
        ensures
            match r {
                Some(v) => 0 <= index.x < N && 0 <= index.y < N && v == self.at(
                    index.x as int,
                    index.y as int,
                ),
                None => !(0 <= index.x < N && 0 <= index.y < N),
            },
    {
        if index.x < 0 || index.y < 0 {
            return None;
        }
        let x = index.x as usize;
        let y = index.y as usize;
        if x >= N || y >= N {
            return None;
        }
        proof {
            self.lemma_at_range(x as int, y as int);
        }
        Some(self.data[x * N + y])
    }

    /// Store `value` at `index`; a cell outside the square is left alone.
    pub fn set(&mut self, index: CellIndex, value: T)
        requires
            old(self).wf(),
        ensures
            final(self).wf(),
            0 <= index.x < N && 0 <= index.y < N ==> final(self).at(
                index.x as int,
                index.y as int,
            ) == value,
            forall|x: int, y: int|
                0 <= x < N && 0 <= y < N && !(x == index.x as int && y == index.y as int)
                    ==> final(self).at(x, y) == old(self).at(x, y),
    {
        if index.x < 0 || index.y < 0 {
            return;
        }
        let x = index.x as usize;
        let y = index.y as usize;
        if x < N && y < N {
            proof {
                self.lemma_at_range(x as int, y as int);
            }
            self.data.set(x * N + y, value);
            assert forall|x2: int, y2: int|
                0 <= x2 < N && 0 <= y2 < N && !(x2 == index.x as int && y2
                    == index.y as int) implies self.at(x2, y2) == old(self).at(x2, y2) by {
                self.lemma_at_range(x2, y2);
                if x2 * N + y2 == x as int * N + y as int {
                    self.lemma_at_inj(x2, y2, x as int, y as int);
                }
            }
        }
    }
}

} // verus!
