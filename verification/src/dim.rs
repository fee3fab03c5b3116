//! The rectangular domain and its linearization.
//!
//! The cells of a domain are numbered column by column: the offset
//! `x * height + y` addresses the cell in column `x` and row `y`, so the rows
//! of one column lie next to each other.

use vstd::arithmetic::div_mod::{
    lemma_div_pos_is_pos, lemma_fundamental_div_mod, lemma_fundamental_div_mod_converse,
    lemma_mod_bound, lemma_multiply_divide_lt,
};
use vstd::prelude::*;

verus! {

/// A rectangular extent of `width` columns and `height` rows.
#[derive(Debug, Clone, Copy)]
pub struct Dim {
    pub width: i32,
    pub height: i32,
}

impl Dim {
    /// A domain is well formed when neither side is negative and the number
    /// of its cells can be held in a `usize`, the type of an offset.
    pub open spec fn wf(&self) -> bool {
        &&& 0 <= self.width
        &&& 0 <= self.height
        &&& self.width * self.height <= usize::MAX
    }

    /// The number of cells, `width * height`.
    pub open spec fn spec_len(&self) -> nat {
        (self.width * self.height) as nat
    }

    /// Whether `p` names a cell of the domain.
    pub open spec fn contains(&self, p: (i32, i32)) -> bool {
        0 <= p.0 < self.width && 0 <= p.1 < self.height
    }

    /// The cell that a linear offset addresses: column `offset / height`, row
    /// `offset % height`.
    pub open spec fn coord(&self, offset: int) -> (i32, i32)
        recommends
            self.wf(),
            0 <= offset < self.spec_len(),
    {
        ((offset / self.height as int) as i32, (offset % self.height as int) as i32)
    }

    /// The linear offset that addresses the cell `p`: `x * height + y`.
    pub open spec fn offset_of(&self, p: (i32, i32)) -> int {
        p.0 * self.height + p.1
    }

    /// The cells addressed by the offsets `from..to`, in that order.
    pub open spec fn coords(&self, from: int, to: int) -> Seq<(i32, i32)>
        recommends
            0 <= from <= to <= self.spec_len(),
    {
        Seq::new((to - from) as nat, |i: int| self.coord(from + i))
    }

    /// The cells of the whole domain in the order of their offsets.
    pub open spec fn all_coords(&self) -> Seq<(i32, i32)> {
        self.coords(0, self.spec_len() as int)
    }

    /// The domain of the given size. A side of zero is in order and gives a
    /// domain without cells.
    pub fn new(width: i32, height: i32) -> (dim: Self)
        requires
            0 <= width,
            0 <= height,
            width * height <= usize::MAX,
        ensures
            dim.width == width,
            dim.height == height,
            dim.wf(),
    {
        Self { width, height }
    }

    /// Whether the domain is well formed.
    pub fn is_valid(&self) -> (ok: bool)
        ensures
            ok == self.wf(),
    {
        if self.width < 0 || self.height < 0 {
            return false;
        }
        let width = self.width as u64;
        let height = self.height as u64;
        assert(width * height <= 0x7fff_ffff * 0x7fff_ffff) by (nonlinear_arith)
            requires
                width <= 0x7fff_ffff,
                height <= 0x7fff_ffff,
        ;
        width * height <= usize::MAX as u64
    }

    /// The number of linear offsets that address a cell of the domain.
    pub fn len(&self) -> (n: usize)
        requires
            self.wf(),
        ensures
            n == self.spec_len(),
            n == self.width * self.height,
    {
        self.width as usize * self.height as usize
    }

    /// The cell that `offset` addresses.
    pub fn coordinate(&self, offset: usize) -> (p: (i32, i32))
        requires
            self.wf(),
            offset < self.spec_len(),
        ensures
            p == self.coord(offset as int),
            self.contains(p),
            self.offset_of(p) == offset,
    {
        proof {
            self.lemma_coord_of_offset(offset as int);
        }
        let x = offset / self.height as usize;
        let y = offset % self.height as usize;
        (x as i32, y as i32)
    }

    /// A domain that has an offset has columns and rows.
    pub proof fn lemma_offset_needs_cells(&self, offset: int)
        requires
            self.wf(),
            0 <= offset < self.spec_len(),
        ensures
            0 < self.width,
            0 < self.height,
    {
        assert(self.width == 0 || self.height == 0 ==> self.width * self.height == 0)
            by (nonlinear_arith);
    }

    /// An offset of the domain addresses a cell inside the domain, in column
    /// `offset / height` and row `offset % height`, and that cell's offset is
    /// the offset itself.
    pub proof fn lemma_coord_of_offset(&self, offset: int)
        requires
            self.wf(),
            0 <= offset < self.spec_len(),
        ensures
            self.contains(self.coord(offset)),
            self.coord(offset).0 == offset / (self.height as int),
            self.coord(offset).1 == offset % (self.height as int),
            self.offset_of(self.coord(offset)) == offset,
    {
        let w = self.width as int;
        let h = self.height as int;
        self.lemma_offset_needs_cells(offset);
        lemma_fundamental_div_mod(offset, h);
        lemma_mod_bound(offset, h);
        lemma_div_pos_is_pos(offset, h);
        assert(offset / h < w) by {
            assert(w * h == h * w) by (nonlinear_arith);
            lemma_multiply_divide_lt(offset, h, w);
        }
        assert((offset / h) * h == h * (offset / h)) by (nonlinear_arith);
    }

    /// A cell of the domain has an offset of the domain, and that offset
    /// addresses the cell.
    pub proof fn lemma_offset_of_coord(&self, p: (i32, i32))
        requires
            self.wf(),
            self.contains(p),
        ensures
            0 <= self.offset_of(p) < self.spec_len(),
            self.coord(self.offset_of(p)) == p,
    {
        let w = self.width as int;
        let h = self.height as int;
        let x = p.0 as int;
        let y = p.1 as int;
        assert(0 <= x * h && x * h + h <= w * h) by (nonlinear_arith)
            requires
                0 <= x < w,
                0 < h,
        ;
        lemma_fundamental_div_mod_converse(x * h + y, h, x, y);
    }

    /// Two offsets of the domain that address the same cell are the same
    /// offset.
    pub proof fn lemma_coord_injective(&self, a: int, b: int)
        requires
            self.wf(),
            0 <= a < self.spec_len(),
            0 <= b < self.spec_len(),
            self.coord(a) == self.coord(b),
        ensures
            a == b,
    {
        self.lemma_coord_of_offset(a);
        self.lemma_coord_of_offset(b);
    }

    /// The cells of a run of offsets: as many as the offsets, each of them
    /// inside the domain, no cell twice, and the same cells that the traversal
    /// of the whole domain has at those offsets.
    pub proof fn lemma_coords_distinct(&self, from: int, to: int)
        requires
            self.wf(),
            0 <= from <= to <= self.spec_len(),
        ensures
            self.coords(from, to).len() == to - from,
            forall|i: int|
                0 <= i < to - from ==> self.contains(#[trigger] self.coords(from, to)[i]),
            self.coords(from, to).no_duplicates(),
            self.coords(from, to) == self.all_coords().subrange(from, to),
    {
        let run = self.coords(from, to);
        assert forall|i: int| 0 <= i < to - from implies self.contains(#[trigger] run[i]) by {
            self.lemma_coord_of_offset(from + i);
        }
        assert forall|i: int, j: int| 0 <= i < run.len() && 0 <= j < run.len() && i != j implies run[i]
            != run[j] by {
            if run[i] == run[j] {
                self.lemma_coord_injective(from + i, from + j);
            }
        }
        assert(run =~= self.all_coords().subrange(from, to));
    }

    /// Offsets and cells correspond one to one: the traversal of a domain
    /// lists `width * height` cells, each of them inside the domain, no cell
    /// twice, and every cell of the domain is listed.
    pub proof fn lemma_traversal_is_bijection(&self)
        requires
            self.wf(),
        ensures
            self.all_coords().len() == self.width * self.height,
            forall|i: int|
                0 <= i < self.all_coords().len() ==> self.contains(#[trigger] self.all_coords()[i]),
            self.all_coords().no_duplicates(),
            forall|p: (i32, i32)| self.contains(p) <==> self.all_coords().contains(p),
    {
        let all = self.all_coords();
        self.lemma_coords_distinct(0, self.spec_len() as int);
        assert forall|p: (i32, i32)| self.contains(p) implies all.contains(p) by {
            self.lemma_offset_of_coord(p);
            assert(all[self.offset_of(p)] == p);
        }
    }

    /// A domain without columns or without rows has no offsets, and its
    /// traversal lists nothing.
    pub proof fn lemma_empty_domain(&self)
        requires
            self.wf(),
            self.width == 0 || self.height == 0,
        ensures
            self.spec_len() == 0,
            self.all_coords() =~= Seq::<(i32, i32)>::empty(),
    {
        assert(self.width * self.height == 0) by (nonlinear_arith)
            requires
                self.width == 0 || self.height == 0,
        ;
    }
}

} // verus!
