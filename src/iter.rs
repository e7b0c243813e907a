//! Row-major traversal of a grid, shared and exclusive.
use vstd::prelude::*;
use crate::grid::Grid;
use crate::index::{extent_product, false_index, unflatten};

verus! {

/// A forward walk over the cells of a grid in buffer (row-major) order.
pub struct GridIter<'a, T: Clone> {
    grid: &'a [T],
    dimensions: &'a [usize],
    pos: usize,
}

impl<'a, T: Clone> GridIter<'a, T> {
    /// All cells of the grid walked, in buffer order.
    pub closed spec fn cells(&self) -> Seq<T> {
        self.grid@
    }

    /// The extents of the grid walked.
    pub closed spec fn extents(&self) -> Seq<usize> {
        self.dimensions@
    }

    /// The linear offset of the next cell to hand out.
    pub closed spec fn pos(&self) -> nat {
        self.pos as nat
    }

    /// The cells match the extents and the walk has not run past the end.
    pub open spec fn wf(&self) -> bool {
        &&& self.cells().len() == extent_product(self.extents())
        &&& self.pos() <= self.cells().len()
    }

    /// A walk from the first cell of `grid`.
    pub(crate) fn new(grid: &'a Grid<T>) -> (r: Self)
        requires
            grid.wf(),
        ensures
            r.wf(),
            r.cells() == grid.cells(),
            r.extents() == grid.extents(),
            r.pos() == 0,
    {
        let dimensions = grid.dimensions();
        let cells = grid.as_slice();
        GridIter { grid: cells, dimensions, pos: 0 }
    }

    /// The next cell, or `None` once every cell has been handed out.
    pub fn next(&mut self) -> (r: Option<&'a T>)
        requires
            old(self).wf(),
        ensures
            final(self).wf(),
            final(self).cells() == old(self).cells(),
            final(self).extents() == old(self).extents(),
            old(self).pos() < old(self).cells().len() ==> {
                &&& r == Some(&old(self).cells()[old(self).pos() as int])
                &&& final(self).pos() == old(self).pos() + 1
            },
            old(self).pos() == old(self).cells().len() ==> {
                &&& r is None
                &&& final(self).pos() == old(self).pos()
            },
    {
        if self.pos < self.grid.len() {
            let item = &self.grid[self.pos];
            self.pos = self.pos + 1;
            Some(item)
        } else {
            None
        }
    }

    /// Walks on to the first cell that satisfies `predicate` and returns its
    /// multi-index, leaving the walk just past it; `None`, with the walk at its
    /// end, when no remaining cell does.
    pub fn position<P: Fn(&'a T) -> bool>(&mut self, predicate: P) -> (r: Option<Vec<usize>>)
        requires
            old(self).wf(),
            forall|x: &'a T| #[trigger] predicate.requires((x,)),
        ensures
            final(self).wf(),
            final(self).cells() == old(self).cells(),
            final(self).extents() == old(self).extents(),
            old(self).pos() <= final(self).pos(),
            forall|j: int|
                old(self).pos() <= j < final(self).pos() - (if r is Some { 1int } else { 0int })
                    ==> predicate.ensures((&#[trigger] old(self).cells()[j],), false),
            match r {
                Some(idx) => {
                    &&& old(self).pos() < final(self).pos()
                    &&& predicate.ensures((&old(self).cells()[final(self).pos() - 1],), true)
                    &&& idx@ == unflatten((final(self).pos() - 1) as nat, old(self).extents())
                },
                None => final(self).pos() == old(self).cells().len(),
            },
    {
        while self.pos < self.grid.len()
            invariant
                self.wf(),
                self.cells() == old(self).cells(),
                self.extents() == old(self).extents(),
                old(self).pos() <= self.pos(),
                forall|x: &'a T| #[trigger] predicate.requires((x,)),
                forall|j: int|
                    old(self).pos() <= j < self.pos() ==> predicate.ensures((&#[trigger] old(self).cells()[j],), false),
            decreases self.cells().len() - self.pos(),
        {
            let k = self.pos;
            let item = &self.grid[k];
            self.pos = k + 1;
            if predicate(item) {
                return Some(false_index(k, self.dimensions));
            }
        }
        None
    }

    /// The multi-index and the cell of every remaining cell, in buffer order.
    pub fn enumerate(self) -> (r: Vec<(Vec<usize>, &'a T)>)
        requires
            self.wf(),
        ensures
            r@.len() == self.cells().len() - self.pos(),
            forall|k: int| 0 <= k < r@.len() ==> {
                &&& (#[trigger] r@[k]).0@ == unflatten((self.pos() + k) as nat, self.extents())
                &&& r@[k].1 == self.cells()[self.pos() + k]
            },
    {
        let dimensions = self.dimensions;
        let cells = self.grid;
        let start = self.pos;
        let mut res: Vec<(Vec<usize>, &'a T)> = Vec::with_capacity(cells.len() - start);
        let mut i: usize = start;
        while i < cells.len()
            invariant
                start <= i <= cells@.len(),
                cells@.len() == extent_product(dimensions@),
                res@.len() == i - start,
                forall|k: int| 0 <= k < res@.len() ==> {
                    &&& (#[trigger] res@[k]).0@ == unflatten((start + k) as nat, dimensions@)
                    &&& res@[k].1 == cells@[start + k]
                },
            decreases cells@.len() - i,
        {
            let idx = false_index(i, dimensions);
            res.push((idx, &cells[i]));
            i = i + 1;
        }
        res
    }
}

/// A forward walk over the cells of a grid in buffer (row-major) order, handing
/// out exclusive access to each cell once.
pub struct GridIterMut<'a, T: Clone> {
    grid: &'a mut [T],
    dimensions: &'a [usize],
}

impl<'a, T: Clone> GridIterMut<'a, T> {
    /// The cells not yet handed out, in buffer order.
    pub closed spec fn remaining(&self) -> Seq<T> {
        self.grid@
    }

    /// The extents of the grid walked.
    pub closed spec fn extents(&self) -> Seq<usize> {
        self.dimensions@
    }

    /// A walk from the first cell of `grid`.
    pub(crate) fn new(grid: &'a mut Grid<T>) -> (r: Self)
        ensures
            r.remaining() == old(grid).cells(),
            r.extents() == old(grid).extents(),
            final(grid).extents() == old(grid).extents(),
            final(grid).axis_count() == old(grid).axis_count(),
    {
        let (cells, dimensions) = grid.split_mut();
        GridIterMut { grid: cells, dimensions }
    }

    /// Exclusive access to the next cell, or `None` once every cell has been handed out.
    pub fn next(&mut self) -> (r: Option<&'a mut T>)
        ensures
            final(self).extents() == old(self).extents(),
            old(self).remaining().len() > 0 ==> {
                &&& r is Some
                &&& *r->Some_0 == old(self).remaining()[0]
                &&& final(self).remaining() == old(self).remaining().drop_first()
            },
            old(self).remaining().len() == 0 ==> r is None && final(self).remaining().len() == 0,
    {
        let mut rest: &'a mut [T] = &mut [];
        std::mem::swap(&mut self.grid, &mut rest);
        if rest.len() == 0 {
            return None;
        }
        let (head, tail) = rest.split_at_mut(1);
        self.grid = tail;
        head.first_mut()
    }
}

} // verus!
