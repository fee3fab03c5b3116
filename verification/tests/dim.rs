use pixel_grid::dim::Dim;
use pixel_grid::iter::DimIterator;
use pixel_grid::producer::{DimParallelIterator, DimProducer};
use rayon::iter::plumbing::{bridge, Consumer, Producer, ProducerCallback, UnindexedConsumer};
use rayon::iter::{IndexedParallelIterator, ParallelIterator};

/// The cursor as a std iterator, for rayon to drain.
struct Cells<'a>(DimIterator<'a>);

impl<'a> Iterator for Cells<'a> {
    type Item = (i32, i32);

    fn next(&mut self) -> Option<Self::Item> {
        self.0.next()
    }

    fn size_hint(&self) -> (usize, Option<usize>) {
        self.0.size_hint()
    }
}

impl<'a> DoubleEndedIterator for Cells<'a> {
    fn next_back(&mut self) -> Option<Self::Item> {
        self.0.next_back()
    }
}

impl<'a> ExactSizeIterator for Cells<'a> {}

/// The producer as rayon splits it.
struct CellProducer<'a>(DimProducer<'a>);

impl<'a> Producer for CellProducer<'a> {
    type Item = (i32, i32);
    type IntoIter = Cells<'a>;

    fn into_iter(self) -> Self::IntoIter {
        Cells(self.0.into_iter())
    }

    fn split_at(self, index: usize) -> (Self, Self) {
        assert!(index <= self.0.item_count());
        let (left, right) = self.0.split_at(index);
        (CellProducer(left), CellProducer(right))
    }
}

/// The domain as a parallel iterator of rayon.
struct ParCells<'a>(DimParallelIterator<'a>);

impl<'a> ParallelIterator for ParCells<'a> {
    type Item = (i32, i32);

    fn drive_unindexed<C>(self, consumer: C) -> C::Result
    where
        C: UnindexedConsumer<Self::Item>,
    {
        bridge(self, consumer)
    }

    fn opt_len(&self) -> Option<usize> {
        self.0.opt_len()
    }
}

impl<'a> IndexedParallelIterator for ParCells<'a> {
    fn len(&self) -> usize {
        self.0.len()
    }

    fn drive<C: Consumer<Self::Item>>(self, consumer: C) -> C::Result {
        bridge(self, consumer)
    }

    fn with_producer<CB: ProducerCallback<Self::Item>>(self, callback: CB) -> CB::Output {
        callback.callback(CellProducer(DimProducer::from(self.0)))
    }
}

#[test]
fn iterates_over_empty() {
    let dim = Dim::new(0, 0);
    assert_eq!(0, dim.len());

    let producer = DimProducer::from(dim.into_par_iter());
    let mut iter = producer.into_iter();
    assert_eq!(0, iter.offset());
    assert_eq!(0, iter.offset_back());
    assert_eq!(None, iter.next());
    assert_eq!(None, iter.next_back());

    let vec = ParCells(dim.into_par_iter()).collect::<Vec<(i32, i32)>>();
    assert_eq!(Vec::<(i32, i32)>::new(), vec);
}

#[test]
fn iterates_over_non_empty() {
    let dim = Dim::new(2, 3);
    assert_eq!(6, dim.len());

    let producer = DimProducer::from(dim.into_par_iter());
    let mut iter = producer.into_iter();
    assert_eq!(0, iter.offset());
    assert_eq!(6, iter.offset_back());
    assert_eq!((6, Some(6)), iter.size_hint());

    assert_eq!(Some((0, 0)), iter.next());
    assert_eq!((5, Some(5)), iter.size_hint());

    assert_eq!(Some((0, 1)), iter.next());
    assert_eq!((4, Some(4)), iter.size_hint());

    assert_eq!(Some((0, 2)), iter.next());
    assert_eq!((3, Some(3)), iter.size_hint());

    assert_eq!(Some((1, 0)), iter.next());
    assert_eq!((2, Some(2)), iter.size_hint());

    assert_eq!(Some((1, 2)), iter.next_back());
    assert_eq!((1, Some(1)), iter.size_hint());

    assert_eq!(Some((1, 1)), iter.next_back());
    assert_eq!((0, Some(0)), iter.size_hint());
    assert_eq!(None, iter.next_back());
    assert_eq!(None, iter.next());
}

#[test]
fn it_collects() {
    let dim = Dim::new(2, 3);

    let vec = ParCells(dim.into_par_iter()).collect::<Vec<(i32, i32)>>();
    assert_eq!(vec![(0, 0), (0, 1), (0, 2), (1, 0), (1, 1), (1, 2)], vec);
}

#[test]
fn producer_can_be_split() {
    let dim = Dim::new(2, 3);
    assert_eq!(6, dim.len());

    let producer = DimProducer::from(dim.into_par_iter());
    let (prod1, prod2) = producer.split_at(2);
    assert_eq!(0, prod1.start());
    assert_eq!(2, prod1.end());
    assert_eq!(2, prod2.start());
    assert_eq!(6, prod2.end());

    let vec1 = prod1.into_iter().collect();
    let vec2 = prod2.into_iter().collect();
    assert_eq!(vec![(0, 0), (0, 1)], vec1);
    assert_eq!(vec![(0, 2), (1, 0), (1, 1), (1, 2)], vec2);
}

#[test]
fn producer_can_be_split_at_0() {
    let dim = Dim::new(2, 3);
    assert_eq!(6, dim.len());

    let producer = DimProducer::from(dim.into_par_iter());
    let (prod1, prod2) = producer.split_at(0);
    assert_eq!(0, prod1.start());
    assert_eq!(0, prod1.end());
    assert_eq!(0, prod2.start());
    assert_eq!(6, prod2.end());

    let vec1 = prod1.into_iter().collect();
    let vec2 = prod2.into_iter().collect();
    assert_eq!(Vec::<(i32, i32)>::new(), vec1);
    assert_eq!(vec![(0, 0), (0, 1), (0, 2), (1, 0), (1, 1), (1, 2)], vec2);
}

#[test]
fn producer_can_be_split_at_n() {
    let dim = Dim::new(2, 3);
    assert_eq!(6, dim.len());

    let producer = DimProducer::from(dim.into_par_iter());
    let (prod1, prod2) = producer.split_at(6);
    assert_eq!(0, prod1.start());
    assert_eq!(6, prod1.end());
    assert_eq!(6, prod2.start());
    assert_eq!(6, prod2.end());

    let vec1 = prod1.into_iter().collect();
    let vec2 = prod2.into_iter().collect();
    assert_eq!(vec![(0, 0), (0, 1), (0, 2), (1, 0), (1, 1), (1, 2)], vec1);
    assert_eq!(Vec::<(i32, i32)>::new(), vec2);
}

#[test]
fn rayon_collects_every_cell_of_a_large_domain_in_order() {
    let dim = Dim::new(37, 53);
    let expected = dim.into_iter().collect();

    let vec = ParCells(dim.into_par_iter()).collect::<Vec<(i32, i32)>>();
    assert_eq!(37 * 53, vec.len());
    assert_eq!(expected, vec);
}

#[test]
fn rayon_maps_each_cell_exactly_once() {
    let dim = Dim::new(16, 9);

    let offsets = ParCells(dim.into_par_iter())
        .map(|(x, y)| x as usize * 9 + y as usize)
        .collect::<Vec<usize>>();
    assert_eq!((0..16 * 9).collect::<Vec<usize>>(), offsets);

    let sum = ParCells(dim.into_par_iter()).map(|(x, y)| (x + y) as i64).sum::<i64>();
    assert_eq!(9 * (15 * 16 / 2) + 16 * (8 * 9 / 2), sum);
}

#[test]
fn rayon_reports_the_exact_length() {
    let dim = Dim::new(5, 4);
    let par = ParCells(dim.into_par_iter());
    assert_eq!(Some(20), par.opt_len());
    assert_eq!(20, IndexedParallelIterator::len(&par));
}

#[test]
fn rayon_zips_cells_with_their_offsets() {
    let dim = Dim::new(7, 11);
    let offsets = (0..77usize).collect::<Vec<usize>>();
    let pairs = ParCells(dim.into_par_iter())
        .zip(rayon::iter::IntoParallelIterator::into_par_iter(offsets))
        .collect::<Vec<((i32, i32), usize)>>();
    assert_eq!(77, pairs.len());
    for ((x, y), offset) in pairs {
        assert_eq!(offset, x as usize * 11 + y as usize);
    }
}
