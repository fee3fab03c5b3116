//! The sequential cursor over a run of offsets.

use crate::dim::Dim;
use vstd::prelude::*;

verus! {

/// A double-ended, exact-size cursor over the cells that the offsets
/// `offset..offset_back` of a domain address.
///
/// Pulling from the front takes the cell at `offset` and moves `offset` up;
/// pulling from the back moves `offset_back` down and takes the cell it then
/// stands on. The cursor is exhausted when the two meet.
pub struct DimIterator<'a> {
    dim: &'a Dim,
    offset: usize,
    offset_back: usize,
}

impl<'a> View for DimIterator<'a> {
    type V = Seq<(i32, i32)>;

    /// The cells still to come, from the front to the back.
    open spec fn view(&self) -> Seq<(i32, i32)> {
        self.domain().coords(self.offset() as int, self.offset_back() as int)
    }
}

impl Dim {
    /// A cursor over all the cells of the domain.
    pub fn into_iter(&self) -> (it: DimIterator<'_>)
        requires
            self.wf(),
        ensures
            it.wf(),
            it.domain() == *self,
            it.offset() == 0,
            it.offset_back() == self.spec_len(),
            it@ == self.all_coords(),
    {
        DimIterator::new(self)
    }
}

impl<'a> DimIterator<'a> {
    /// The domain whose cells the cursor yields.
    pub closed spec fn domain(&self) -> Dim {
        *self.dim
    }

    /// The offset of the next cell from the front.
    pub closed spec fn spec_offset(&self) -> usize {
        self.offset
    }

    /// The offset just behind the next cell from the back.
    pub closed spec fn spec_offset_back(&self) -> usize {
        self.offset_back
    }

    /// The two ends never cross and never leave the domain.
    #[verifier::type_invariant]
    pub open spec fn wf(&self) -> bool {
        &&& self.domain().wf()
        &&& self.offset() <= self.offset_back() <= self.domain().spec_len()
    }

    /// A cursor over the whole domain.
    pub fn new(dim: &'a Dim) -> (it: Self)
        requires
            dim.wf(),
        ensures
            it.wf(),
            it.domain() == *dim,
            it.offset() == 0,
            it.offset_back() == dim.spec_len(),
            it@ == dim.all_coords(),
    {
        Self::with_bounds(dim, 0, dim.len())
    }

    /// A cursor over the offsets `from..to` of the domain.
    pub fn with_bounds(dim: &'a Dim, from: usize, to: usize) -> (it: Self)
        requires
            dim.wf(),
            from <= to <= dim.spec_len(),
        ensures
            it.wf(),
            it.domain() == *dim,
            it.offset() == from,
            it.offset_back() == to,
            it@ == dim.coords(from as int, to as int),
    {
        Self { dim, offset: from, offset_back: to }
    }

    /// The offset of the next cell from the front.
    #[verifier::when_used_as_spec(spec_offset)]
    pub fn offset(&self) -> (n: usize)
        ensures
            n == self.offset(),
    {
        self.offset
    }

    /// The offset just behind the next cell from the back.
    #[verifier::when_used_as_spec(spec_offset_back)]
    pub fn offset_back(&self) -> (n: usize)
        ensures
            n == self.offset_back(),
    {
        self.offset_back
    }

    /// Takes the next cell from the front, or `None` once the cursor is
    /// exhausted. An exhausted cursor stays as it is.
    pub fn next(&mut self) -> (item: Option<(i32, i32)>)
        ensures
            final(self).wf(),
            final(self).domain() == old(self).domain(),
            final(self).offset_back() == old(self).offset_back(),
            (match item {
                Some(cell) => {
                    &&& old(self).offset() < old(self).offset_back()
                    &&& cell == old(self).domain().coord(old(self).offset() as int)
                    &&& old(self).domain().contains(cell)
                    &&& final(self).offset() == old(self).offset() + 1
                    &&& cell == old(self)@.first()
                    &&& final(self)@ == old(self)@.drop_first()
                    &&& final(self)@.len() == old(self)@.len() - 1
                },
                None => {
                    &&& old(self).offset() == old(self).offset_back()
                    &&& old(self)@.len() == 0
                    &&& *final(self) == *old(self)
                },
            }),
    {
        proof {
            use_type_invariant(&*self);
        }
        if self.offset >= self.offset_back {
            return None;
        }
        let index = self.offset;
        let cell = self.dim.coordinate(index);
        self.offset += 1;
        proof {
            assert(final(self)@ =~= old(self)@.drop_first());
        }
        Some(cell)
    }

    /// Takes the next cell from the back, or `None` once the cursor is
    /// exhausted. An exhausted cursor stays as it is.
    pub fn next_back(&mut self) -> (item: Option<(i32, i32)>)
        ensures
            final(self).wf(),
            final(self).domain() == old(self).domain(),
            final(self).offset() == old(self).offset(),
            (match item {
                Some(cell) => {
                    &&& old(self).offset() < old(self).offset_back()
                    &&& cell == old(self).domain().coord(old(self).offset_back() - 1)
                    &&& old(self).domain().contains(cell)
                    &&& final(self).offset_back() == old(self).offset_back() - 1
                    &&& cell == old(self)@.last()
                    &&& final(self)@ == old(self)@.drop_last()
                    &&& final(self)@.len() == old(self)@.len() - 1
                },
                None => {
                    &&& old(self).offset() == old(self).offset_back()
                    &&& old(self)@.len() == 0
                    &&& *final(self) == *old(self)
                },
            }),
    {
        proof {
            use_type_invariant(&*self);
        }
        if self.offset_back == self.offset {
            return None;
        }
        self.offset_back -= 1;
        let index = self.offset_back;
        let cell = self.dim.coordinate(index);
        proof {
            assert(final(self)@ =~= old(self)@.drop_last());
        }
        Some(cell)
    }

    /// The number of cells still to come, as a lower and an upper bound that
    /// agree.
    pub fn size_hint(&self) -> (hint: (usize, Option<usize>))
        ensures
            hint.0 == self@.len(),
            hint.0 == self.offset_back() - self.offset(),
            hint.1 == Some(hint.0),
    {
        let size = self.len();
        (size, Some(size))
    }

    /// The number of cells still to come.
    pub fn len(&self) -> (n: usize)
        ensures
            n == self@.len(),
            n == self.offset_back() - self.offset(),
    {
        proof {
            use_type_invariant(self);
        }
        self.offset_back - self.offset
    }

    /// Pulls from the front until the cursor is exhausted and returns the
    /// cells in the order they came: one for each offset between the ends,
    /// each of them inside the domain and no cell twice.
    pub fn collect(self) -> (cells: Vec<(i32, i32)>)
        ensures
            cells@ == self@,
            cells@.len() == self.offset_back() - self.offset(),
            cells@.no_duplicates(),
            forall|i: int| 0 <= i < cells@.len() ==> self.domain().contains(#[trigger] cells@[i]),
    {
        proof {
            use_type_invariant(&self);
            self.lemma_cells_distinct();
        }
        let ghost all = self@;
        let mut it = self;
        let mut cells: Vec<(i32, i32)> = Vec::new();
        loop
            invariant
                it.wf(),
                cells@ + it@ == all,
            ensures
                cells@ == all,
            decreases it@.len(),
        {
            let ghost before = it@;
            match it.next() {
                Some(cell) => {
                    cells.push(cell);
                    assert(cells@ + it@ =~= all) by {
                        assert(before =~= seq![cell] + before.drop_first());
                    }
                },
                None => {
                    assert(cells@ + it@ =~= cells@);
                    break ;
                },
            }
        }
        cells
    }

    /// A cursor holds as many cells as there are offsets between its ends,
    /// each of them inside the domain and no cell twice; they are the cells
    /// that the traversal of the domain has at those offsets. A cursor over
    /// the whole domain holds `width * height` cells, those of the traversal.
    pub proof fn lemma_cells_distinct(self)
        requires
            self.wf(),
        ensures
            self@.len() == self.offset_back() - self.offset(),
            forall|i: int| 0 <= i < self@.len() ==> self.domain().contains(#[trigger] self@[i]),
            self@.no_duplicates(),
            self@ == self.domain().all_coords().subrange(
                self.offset() as int,
                self.offset_back() as int,
            ),
            self.offset() == 0 && self.offset_back() == self.domain().spec_len() ==> self@.len()
                == self.domain().width * self.domain().height && self@
                == self.domain().all_coords(),
    {
        self.domain().lemma_coords_distinct(self.offset() as int, self.offset_back() as int);
    }

    /// A cursor over a domain without columns or without rows is exhausted
    /// from the start, so that it yields nothing from either end.
    pub proof fn lemma_empty_domain_is_exhausted(self)
        requires
            self.wf(),
            self.domain().width == 0 || self.domain().height == 0,
        ensures
            self.offset() == self.offset_back(),
            self@.len() == 0,
    {
        self.domain().lemma_empty_domain();
    }
}

} // verus!
