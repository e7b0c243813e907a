//! The grid container and its element access.
use vstd::prelude::*;
use crate::iter::{GridIter, GridIterMut};
use crate::index::{in_bounds, unflatten, lemma_offset_in_range, lemma_round_trip, clamped_product, extent_product, row_major_offset, saturate, lemma_saturate_add, lemma_saturate_mul, saturating_product};

verus! {

/// Why a multi-index addresses no cell of a grid.
#[derive(Debug, Clone, Copy, PartialEq, Eq, Structural)]
pub enum IndexError {
    /// The multi-index has `got` coordinates where the grid has `expected` axes.
    DimensionMismatch { got: usize, expected: usize },
    /// The multi-index flattens to `offset` (clamped to the largest `usize`),
    /// which is not below the number of cells, `size`.
    OutOfBounds { offset: usize, size: usize },
}

/// An N-dimensional grid of cells held in one buffer, the last axis varying fastest.
#[derive(Debug, Clone)]
pub struct Grid<T: Clone> {
    grid: Vec<T>,
    axes: usize,
    dimensions: Vec<usize>,
}

impl<T: Clone> Grid<T> {
    /// The cells in buffer order.
    pub closed spec fn cells(&self) -> Seq<T> {
        self.grid@
    }

    /// The extent of each axis.
    pub closed spec fn extents(&self) -> Seq<usize> {
        self.dimensions@
    }

    /// The number of axes.
    pub closed spec fn axis_count(&self) -> nat {
        self.axes as nat
    }

    /// There is one extent per axis.
    pub open spec fn axes_match(&self) -> bool {
        self.axis_count() == self.extents().len()
    }

    /// The buffer holds one cell per multi-index, and there is one extent per axis.
    pub open spec fn wf(&self) -> bool {
        &&& self.cells().len() == extent_product(self.extents())
        &&& self.axes_match()
        &&& self.cells().len() <= usize::MAX
    }

    /// Where `target` lands in the buffer, or why it lands nowhere.
    pub open spec fn locate(&self, target: Seq<usize>) -> Result<usize, IndexError> {
        let off = row_major_offset(target, self.extents());
        if target.len() != self.axis_count() {
            Err(IndexError::DimensionMismatch { got: target.len() as usize, expected: self.axis_count() as usize })
        } else if off >= self.cells().len() {
            Err(IndexError::OutOfBounds { offset: saturate(off) as usize, size: self.cells().len() as usize })
        } else {
            Ok(off as usize)
        }
    }

    /// The row-major offset of `target`, checked against the axis count and the buffer length.
    pub fn translate_index(&self, target: &[usize]) -> (r: Result<usize, IndexError>)
        requires
            self.axes_match(),
        ensures
            r == self.locate(target@),
    {
        if target.len() != self.axes {
            return Err(IndexError::DimensionMismatch { got: target.len(), expected: self.axes });
        }
        let mut index: usize = 0;
        let mut k: usize = 0;
        while k < target.len()
            invariant
                k <= target@.len(),
                target@.len() == self.axes,
                self.axes == self.dimensions@.len(),
                index as nat == saturate(row_major_offset(target@.subrange(0, k as int), self.dimensions@.subrange(0, k as int))),
            decreases target@.len() - k,
        {
            proof {
                let t = target@.subrange(0, k as int + 1);
                let d = self.dimensions@.subrange(0, k as int + 1);
                assert(t.drop_last() == target@.subrange(0, k as int));
                assert(d.drop_last() == self.dimensions@.subrange(0, k as int));
                let prev = row_major_offset(target@.subrange(0, k as int), self.dimensions@.subrange(0, k as int));
                lemma_saturate_mul(prev, self.dimensions@[k as int] as nat);
                lemma_saturate_add(prev * self.dimensions@[k as int] as nat, target@[k as int] as nat);
                lemma_saturate_add(saturate(prev * self.dimensions@[k as int] as nat), target@[k as int] as nat);
                assert(saturate(saturate(prev * self.dimensions@[k as int] as nat) + target@[k as int] as nat)
                    == saturate(prev * self.dimensions@[k as int] as nat + target@[k as int] as nat));
            }
            index = saturating_product(index, self.dimensions[k]).saturating_add(target[k]);
            k = k + 1;
        }
        proof {
            assert(target@.subrange(0, k as int) == target@);
            assert(self.dimensions@.subrange(0, k as int) == self.dimensions@);
        }
        if index >= self.grid.len() {
            return Err(IndexError::OutOfBounds { offset: index, size: self.grid.len() });
        }
        Ok(index)
    }

    /// The cell at `target`.
    pub fn get(&self, target: &[usize]) -> (r: Result<&T, IndexError>)
        requires
            self.axes_match(),
        ensures
            match self.locate(target@) {
                Ok(o) => r == Ok::<&T, IndexError>(&self.cells()[o as int]),
                Err(e) => r == Err::<&T, IndexError>(e),
            },
    {
        let target = self.translate_index(target)?;
        let val = &self.grid[target];
        Ok(val)
    }

    /// Exclusive access to the cell at `target`; whatever is written through it
    /// becomes that cell, and nothing else changes.
    pub fn get_mut(&mut self, target: &[usize]) -> (r: Result<&mut T, IndexError>)
        requires
            old(self).axes_match(),
        ensures
            final(self).extents() == old(self).extents(),
            final(self).axis_count() == old(self).axis_count(),
            old(self).wf() ==> final(self).wf(),
            match old(self).locate(target@) {
                Ok(o) => {
                    &&& r is Ok
                    &&& *r->Ok_0 == old(self).cells()[o as int]
                    &&& final(self).cells() == old(self).cells().update(o as int, *final(r->Ok_0))
                },
                Err(e) => r is Err && r->Err_0 == e && final(self).cells() == old(self).cells(),
            },
    {
        let target = self.translate_index(target)?;
        let val = &mut self.grid[target];
        Ok(val)
    }

    /// Writes `val` into the cell at `target`.
    pub fn set(&mut self, target: &[usize], val: T) -> (r: Result<(), IndexError>)
        requires
            old(self).axes_match(),
        ensures
            final(self).extents() == old(self).extents(),
            final(self).axis_count() == old(self).axis_count(),
            old(self).wf() ==> final(self).wf(),
            match old(self).locate(target@) {
                Ok(o) => r is Ok && final(self).cells() == old(self).cells().update(o as int, val),
                Err(e) => r == Err::<(), IndexError>(e) && final(self).cells() == old(self).cells(),
            },
    {
        let target = self.translate_index(target)?;
        self.grid.set(target, val);
        Ok(())
    }

    /// The cells in buffer (row-major) order.
    pub fn as_slice(&self) -> (r: &[T])
        ensures
            r@ == self.cells(),
    {
        self.grid.as_slice()
    }

    /// The extent of each axis.
    pub fn dimensions(&self) -> (r: &[usize])
        ensures
            r@ == self.extents(),
    {
        self.dimensions.as_slice()
    }

    /// A walk over the cells in buffer (row-major) order.
    pub fn iter(&self) -> (r: GridIter<'_, T>)
        requires
            self.wf(),
        ensures
            r.wf(),
            r.cells() == self.cells(),
            r.extents() == self.extents(),
            r.pos() == 0,
    {
        GridIter::new(self)
    }

    /// A walk over the cells in buffer (row-major) order, with exclusive access to each.
    pub fn iter_mut(&mut self) -> (r: GridIterMut<'_, T>)
        requires
            old(self).axes_match(),
        ensures
            r.remaining() == old(self).cells(),
            r.extents() == old(self).extents(),
            final(self).extents() == old(self).extents(),
            final(self).axis_count() == old(self).axis_count(),
    {
        GridIterMut::new(self)
    }

    /// The cells, open to writing, beside the extents.
    pub(crate) fn split_mut(&mut self) -> ((cells, dims): (&mut [T], &[usize]))
        ensures
            cells@ == old(self).cells(),
            dims@ == old(self).extents(),
            final(self).cells() == final(cells)@,
            final(self).extents() == old(self).extents(),
            final(self).axis_count() == old(self).axis_count(),
    {
        (self.grid.as_mut_slice(), self.dimensions.as_slice())
    }

    /// A grid with the given extents whose every cell is a clone of `default_value`.
    pub fn new(default_value: T, dimensions: Vec<usize>) -> (r: Self)
        requires
            extent_product(dimensions@) <= usize::MAX,
        ensures
            r.wf(),
            r.extents() == dimensions@,
            r.cells().len() == extent_product(dimensions@),
            forall|i: int| 0 <= i < r.cells().len() ==> cloned(default_value, #[trigger] r.cells()[i]),
    {
        let axes = dimensions.len();
        let size = clamped_product(dimensions.as_slice());
        let mut grid: Vec<T> = Vec::with_capacity(size);
        let mut n: usize = 0;
        while n < size
            invariant
                n <= size,
                grid@.len() == n,
                forall|i: int| 0 <= i < n ==> cloned(default_value, #[trigger] grid@[i]),
            decreases size - n,
        {
            grid.push(default_value.clone());
            n = n + 1;
        }
        Grid { grid, axes, dimensions }
    }
}

/// A multi-index with the wrong number of coordinates addresses no cell: every
/// access reports the mismatch.
pub proof fn lemma_wrong_arity_fails<T: Clone>(g: Grid<T>, target: Seq<usize>)
    requires
        g.wf(),
        target.len() != g.axis_count(),
    ensures
        g.locate(target) == Err::<usize, IndexError>(
            IndexError::DimensionMismatch { got: target.len() as usize, expected: g.axis_count() as usize },
        ),
{
}

/// A multi-index whose offset is not below the number of cells addresses no
/// cell: every access reports the offset and the size.
pub proof fn lemma_past_end_fails<T: Clone>(g: Grid<T>, target: Seq<usize>)
    requires
        g.wf(),
        target.len() == g.axis_count(),
        row_major_offset(target, g.extents()) >= g.cells().len(),
    ensures
        g.locate(target) is Err,
        g.locate(target)->Err_0 is OutOfBounds,
        g.locate(target)->Err_0->OutOfBounds_size == g.cells().len(),
        g.locate(target)->Err_0->OutOfBounds_offset == saturate(row_major_offset(target, g.extents())),
{
}

/// After `set(target, v)` has changed `before` into `after`, reading `target`
/// gives `v`, or the same error as before.
pub proof fn lemma_set_then_get<T: Clone>(before: Grid<T>, after: Grid<T>, target: Seq<usize>, v: T)
    requires
        before.wf(),
        after.extents() == before.extents(),
        after.axis_count() == before.axis_count(),
        match before.locate(target) {
            Ok(o) => after.cells() == before.cells().update(o as int, v),
            Err(_) => after.cells() == before.cells(),
        },
    ensures
        after.wf(),
        after.locate(target) == before.locate(target),
        after.locate(target) is Ok ==> after.cells()[after.locate(target)->Ok_0 as int] == v,
{
}

/// Every in-bounds multi-index addresses a cell, and going back from that cell's
/// offset gives the multi-index.
pub proof fn lemma_locate_round_trip<T: Clone>(g: Grid<T>, target: Seq<usize>)
    requires
        g.wf(),
        in_bounds(target, g.extents()),
    ensures
        g.locate(target) is Ok,
        unflatten(g.locate(target)->Ok_0 as nat, g.extents()) == target,
{
    lemma_offset_in_range(target, g.extents());
    lemma_round_trip(target, g.extents());
}

} // verus!
