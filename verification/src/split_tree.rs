//! Every way of dividing a producer visits each of its cells once.
//!
//! A scheduler cuts a producer, cuts the parts again as it sees fit, and
//! drains each part that it leaves whole with a cursor. Whatever it decides,
//! the cursors together yield the cells of the first producer, each cell
//! once, and in the order of the offsets when the parts are taken from left
//! to right.

use crate::producer::DimProducer;
use vstd::prelude::*;
use vstd::seq_lib::lemma_flatten_concat;

verus! {

/// The cuts that a scheduler makes in one producer.
pub enum SplitTree {
    /// The producer is left whole and drained by its cursor.
    Leaf,
    /// The producer is cut `index` cells behind its start, and the two parts
    /// are divided further.
    Cut { index: nat, left: Box<SplitTree>, right: Box<SplitTree> },
}

impl SplitTree {
    /// Whether every cut of the tree lies inside the range it cuts.
    pub open spec fn fits(self, producer: DimProducer<'_>) -> bool
        decreases self,
    {
        match self {
            SplitTree::Leaf => true,
            SplitTree::Cut { index, left, right } => {
                &&& index <= producer@.len()
                &&& left.fits(producer.spec_split_at(index as int).0)
                &&& right.fits(producer.spec_split_at(index as int).1)
            },
        }
    }

    /// The producers that are left whole, from left to right.
    pub open spec fn parts<'a>(self, producer: DimProducer<'a>) -> Seq<DimProducer<'a>>
        decreases self,
    {
        match self {
            SplitTree::Leaf => seq![producer],
            SplitTree::Cut { index, left, right } => left.parts(
                producer.spec_split_at(index as int).0,
            ) + right.parts(producer.spec_split_at(index as int).1),
        }
    }

    /// The cells that the cursors of the parts yield, one part after the
    /// other.
    pub open spec fn cells(self, producer: DimProducer<'_>) -> Seq<(i32, i32)> {
        self.parts(producer).map_values(|part: DimProducer<'_>| part@).flatten()
    }

    /// Whatever cuts are made, every part is a well-formed producer over the
    /// domain of the first one, and the cursors of the parts, taken from left
    /// to right, yield the cells of the first producer in their order: no
    /// cell is left out and none comes twice.
    pub proof fn lemma_parts_yield_each_cell_once(self, producer: DimProducer<'_>)
        requires
            producer.wf(),
            self.fits(producer),
        ensures
            forall|k: int|
                0 <= k < self.parts(producer).len() ==> (#[trigger] self.parts(producer)[k]).wf()
                    && self.parts(producer)[k].domain() == producer.domain(),
            self.cells(producer) == producer@,
            self.cells(producer).no_duplicates(),
        decreases self,
    {
        let view = |part: DimProducer<'_>| part@;
        producer.domain().lemma_coords_distinct(producer.start() as int, producer.end() as int);
        match self {
            SplitTree::Leaf => {
                let runs = self.parts(producer).map_values(view);
                runs.lemma_flatten_one_element();
                assert(runs.first() == producer@);
            },
            SplitTree::Cut { index, left, right } => {
                let (first, second) = producer.spec_split_at(index as int);
                producer.lemma_split_ranges(index as int);
                producer.lemma_split_partitions(index as int);
                left.lemma_parts_yield_each_cell_once(first);
                right.lemma_parts_yield_each_cell_once(second);
                let head = left.parts(first).map_values(view);
                let tail = right.parts(second).map_values(view);
                assert(self.parts(producer).map_values(view) =~= head + tail);
                lemma_flatten_concat(head, tail);
            },
        }
    }
}

} // verus!
