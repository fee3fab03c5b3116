//! The splittable producer that a work-stealing scheduler divides.

use crate::dim::Dim;
use crate::iter::DimIterator;
use vstd::prelude::*;
use vstd::std_specs::convert::FromSpecImpl;

verus! {

/// The whole domain as a unit of parallel work whose size is known up front.
pub struct DimParallelIterator<'a> {
    dim: &'a Dim,
}

impl<'a> View for DimParallelIterator<'a> {
    type V = Seq<(i32, i32)>;

    /// The cells of the domain in the order of their offsets.
    open spec fn view(&self) -> Seq<(i32, i32)> {
        self.domain().all_coords()
    }
}

impl<'a> DimParallelIterator<'a> {
    /// The domain whose cells are to be visited.
    pub closed spec fn domain(&self) -> Dim {
        *self.dim
    }

    /// The domain is well formed.
    #[verifier::type_invariant]
    pub open spec fn wf(&self) -> bool {
        self.domain().wf()
    }

    /// The number of cells, which is always known.
    pub fn opt_len(&self) -> (n: Option<usize>)
        ensures
            n == Some(self.domain().spec_len() as usize),
            n->0 == self@.len(),
    {
        Some(self.len())
    }

    /// The number of cells.
    pub fn len(&self) -> (n: usize)
        ensures
            n == self.domain().spec_len(),
            n == self@.len(),
    {
        proof {
            use_type_invariant(self);
        }
        self.dim.len()
    }
}

impl Dim {
    /// The domain as a unit of parallel work.
    pub fn into_par_iter(&self) -> (par: DimParallelIterator<'_>)
        requires
            self.wf(),
        ensures
            par.wf(),
            par.domain() == *self,
            par@ == self.all_coords(),
    {
        DimParallelIterator { dim: self }
    }
}

/// A divisible handle on the offsets `start..end` of a domain.
///
/// A producer can be cut in two at any offset of its range, and each part can
/// be turned into a cursor over its own cells.
pub struct DimProducer<'a> {
    from: usize,
    to: usize,
    dim: &'a Dim,
}

impl<'a> View for DimProducer<'a> {
    type V = Seq<(i32, i32)>;

    /// The cells of the range in the order of their offsets.
    open spec fn view(&self) -> Seq<(i32, i32)> {
        self.domain().coords(self.spec_start() as int, self.spec_end() as int)
    }
}

impl<'a> DimProducer<'a> {
    /// The domain whose cells the producer hands out.
    pub closed spec fn domain(&self) -> Dim {
        *self.dim
    }

    /// The first offset of the range.
    pub closed spec fn spec_start(&self) -> usize {
        self.from
    }

    /// The offset just behind the range.
    pub closed spec fn spec_end(&self) -> usize {
        self.to
    }

    /// The range is ordered and lies inside the domain.
    #[verifier::type_invariant]
    pub open spec fn wf(&self) -> bool {
        &&& self.domain().wf()
        &&& self.spec_start() <= self.spec_end() <= self.domain().spec_len()
    }

    /// The two producers that a cut at `index` cells behind the start gives.
    pub closed spec fn spec_split_at(self, index: int) -> (Self, Self) {
        (
            DimProducer { from: self.from, to: (self.from + index) as usize, dim: self.dim },
            DimProducer { from: (self.from + index) as usize, to: self.to, dim: self.dim },
        )
    }

    /// A producer for the offsets `from..to` of the domain.
    pub fn new(from: usize, to: usize, dim: &'a Dim) -> (producer: Self)
        requires
            dim.wf(),
            from <= to <= dim.spec_len(),
        ensures
            producer.wf(),
            producer.domain() == *dim,
            producer.start() == from,
            producer.end() == to,
            producer@ == dim.coords(from as int, to as int),
    {
        Self { from, to, dim }
    }

    /// The first offset of the range.
    #[verifier::when_used_as_spec(spec_start)]
    pub fn start(&self) -> (n: usize)
        ensures
            n == self.spec_start(),
    {
        self.from
    }

    /// The offset just behind the range.
    #[verifier::when_used_as_spec(spec_end)]
    pub fn end(&self) -> (n: usize)
        ensures
            n == self.spec_end(),
    {
        self.to
    }

    /// The number of cells in the range.
    pub fn item_count(&self) -> (n: usize)
        ensures
            n == self.end() - self.start(),
            n == self@.len(),
    {
        proof {
            use_type_invariant(self);
        }
        self.to - self.from
    }

    /// The cursor over the cells of the range.
    pub fn into_iter(self) -> (it: DimIterator<'a>)
        ensures
            it.wf(),
            it.domain() == self.domain(),
            it.offset() == self.start(),
            it.offset_back() == self.end(),
            it@ == self@,
    {
        proof {
            use_type_invariant(&self);
        }
        DimIterator::with_bounds(self.dim, self.from, self.to)
    }

    /// Cuts the range `index` cells behind its start. The first producer
    /// keeps the cells before the cut, the second those from the cut on. A
    /// cut at either end is in order and leaves one producer empty.
    pub fn split_at(self, index: usize) -> (halves: (Self, Self))
        requires
            index <= self.end() - self.start(),
        ensures
            halves == self.spec_split_at(index as int),
            halves.0.wf(),
            halves.1.wf(),
            halves.0.domain() == self.domain(),
            halves.1.domain() == self.domain(),
            halves.0.start() == self.start(),
            halves.0.end() == self.start() + index,
            halves.1.start() == self.start() + index,
            halves.1.end() == self.end(),
            halves.0@ + halves.1@ == self@,
            halves.0@ == self@.take(index as int),
            halves.1@ == self@.skip(index as int),
    {
        proof {
            use_type_invariant(&self);
            self.lemma_split_partitions(index as int);
        }
        (
            Self::new(self.from, self.from + index, self.dim),
            Self::new(self.from + index, self.to, self.dim),
        )
    }

    /// A producer holds as many cells as its range has offsets, each of them
    /// inside the domain and no cell twice.
    pub proof fn lemma_cells_distinct(self)
        requires
            self.wf(),
        ensures
            self@.len() == self.end() - self.start(),
            forall|i: int| 0 <= i < self@.len() ==> self.domain().contains(#[trigger] self@[i]),
            self@.no_duplicates(),
    {
        self.domain().lemma_coords_distinct(self.start() as int, self.end() as int);
    }

    /// A producer over a domain without columns or without rows has no
    /// cells.
    pub proof fn lemma_empty_domain_has_no_items(self)
        requires
            self.wf(),
            self.domain().width == 0 || self.domain().height == 0,
        ensures
            self.start() == self.end(),
            self@.len() == 0,
    {
        self.domain().lemma_empty_domain();
    }

    /// What a cut gives: the first producer covers the offsets up to the
    /// cut, the second those from the cut on, both over the same domain.
    pub proof fn lemma_split_ranges(self, index: int)
        requires
            self.wf(),
            0 <= index <= self.end() - self.start(),
        ensures
            ({
                let (left, right) = self.spec_split_at(index);
                &&& left.wf()
                &&& right.wf()
                &&& left.domain() == self.domain()
                &&& right.domain() == self.domain()
                &&& left.start() == self.start()
                &&& left.end() == self.start() + index
                &&& right.start() == self.start() + index
                &&& right.end() == self.end()
            }),
    {
    }

    /// A cut partitions the cells: those of the two producers, the first's
    /// before the second's, are the cells of the producer that was cut, in
    /// the same order, and no cell belongs to both.
    pub proof fn lemma_split_partitions(self, index: int)
        requires
            self.wf(),
            0 <= index <= self.end() - self.start(),
        ensures
            ({
                let (left, right) = self.spec_split_at(index);
                &&& left@ + right@ == self@
                &&& left@ == self@.take(index)
                &&& right@ == self@.skip(index)
                &&& forall|i: int, j: int|
                    0 <= i < left@.len() && 0 <= j < right@.len() ==> left@[i] != right@[j]
                &&& left@.to_set().disjoint(right@.to_set())
                &&& left@.to_set().union(right@.to_set()) == self@.to_set()
            }),
    {
        let (left, right) = self.spec_split_at(index);
        let dim = self.domain();
        let start = self.start() as int;
        self.lemma_split_ranges(index);
        assert(left@ =~= self@.take(index));
        assert(right@ =~= self@.skip(index));
        assert(left@ + right@ =~= self@);
        assert forall|i: int, j: int|
            0 <= i < left@.len() && 0 <= j < right@.len() implies left@[i] != right@[j] by {
            if left@[i] == right@[j] {
                dim.lemma_coord_injective(start + i, start + index + j);
            }
        }
        assert forall|p: (i32, i32)|
            !(left@.to_set().contains(p) && right@.to_set().contains(p)) by {
            if left@.contains(p) && right@.contains(p) {
                let i = choose|i: int| 0 <= i < left@.len() && left@[i] == p;
                let j = choose|j: int| 0 <= j < right@.len() && right@[j] == p;
                assert(left@[i] != right@[j]);
            }
        }
        assert(left@.to_set().union(right@.to_set()) =~= self@.to_set()) by {
            assert forall|p: (i32, i32)|
                self@.to_set().contains(p) implies left@.to_set().contains(p)
                || right@.to_set().contains(p) by {
                let k = choose|k: int| 0 <= k < self@.len() && self@[k] == p;
                if k < index {
                    assert(left@[k] == p);
                } else {
                    assert(right@[k - index] == p);
                }
            }
            assert forall|p: (i32, i32)|
                left@.to_set().contains(p) || right@.to_set().contains(p) implies self@.to_set().contains(
                p,
            ) by {
                if left@.contains(p) {
                    let i = choose|i: int| 0 <= i < left@.len() && left@[i] == p;
                    assert(self@[i] == p);
                } else {
                    let j = choose|j: int| 0 <= j < right@.len() && right@[j] == p;
                    assert(self@[index + j] == p);
                }
            }
        }
    }

    /// A cut at the start leaves the first producer empty and the second
    /// equal to the producer that was cut; a cut behind the last cell does
    /// the reverse.
    pub proof fn lemma_split_at_ends(self)
        requires
            self.wf(),
        ensures
            self.spec_split_at(0).0@.len() == 0,
            self.spec_split_at(0).0.start() == self.start(),
            self.spec_split_at(0).0.end() == self.start(),
            self.spec_split_at(0).1 == self,
            self.spec_split_at(self.end() - self.start()).0 == self,
            self.spec_split_at(self.end() - self.start()).1@.len() == 0,
            self.spec_split_at(self.end() - self.start()).1.start() == self.end(),
            self.spec_split_at(self.end() - self.start()).1.end() == self.end(),
    {
    }
}

impl<'a> From<DimParallelIterator<'a>> for DimProducer<'a> {
    /// The producer for all the cells of the domain.
    fn from(value: DimParallelIterator<'a>) -> (producer: Self)
        ensures
            producer.wf(),
            producer.domain() == value.domain(),
            producer.start() == 0,
            producer.end() == value.domain().spec_len(),
            producer@ == value@,
    {
        proof {
            use_type_invariant(&value);
        }
        Self::new(0, value.dim.len(), value.dim)
    }
}

impl<'a> FromSpecImpl<DimParallelIterator<'a>> for DimProducer<'a> {
    open spec fn obeys_from_spec() -> bool {
        true
    }

    closed spec fn from_spec(value: DimParallelIterator<'a>) -> Self {
        DimProducer { from: 0, to: value.dim.spec_len() as usize, dim: value.dim }
    }
}

} // verus!
