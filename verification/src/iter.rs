//! Reading a compressed-row matrix edge by edge.

use crate::coo::CooEntry;
use crate::csr::{extent_sum, lemma_extent_sum_monotone, lemma_row_from, CsrMatrix};
use vstd::prelude::*;

verus! {

/// A cursor over the edges of a matrix, row after row and inside a row in
/// storage order. Rows without edges are passed over. The cursor runs once,
/// from the first edge to the last.
pub struct CsrIterator<'a, V> {
    mat: &'a CsrMatrix<V>,
    row: usize,
    offset: usize,
    col_idx: usize,
}

impl<'a, V: Copy> CsrIterator<'a, V> {
    /// The matrix that the cursor reads.
    pub closed spec fn matrix(&self) -> CsrMatrix<V> {
        *self.mat
    }

    /// The number of edges handed out so far.
    pub closed spec fn position(&self) -> int {
        self.offset + self.col_idx
    }

    /// The cursor stands inside its matrix: `offset` is where its row starts
    /// and `col_idx` counts the edges of that row already handed out.
    pub closed spec fn wf(&self) -> bool {
        let ext = self.mat.row_extents@;
        &&& self.mat.wf()
        &&& self.row <= ext.len()
        &&& self.offset == extent_sum(ext, self.row as int)
        &&& self.col_idx == 0 || (self.row < ext.len() && self.col_idx < ext[self.row as int])
    }

    /// The edges still to come.
    pub open spec fn remaining(&self) -> Seq<CooEntry<V>> {
        self.matrix().triples().skip(self.position())
    }

    /// A cursor in front of the first edge of `mat`.
    pub fn new(mat: &'a CsrMatrix<V>) -> (it: Self)
        requires
            mat.wf(),
        ensures
            it.wf(),
            it.matrix() == *mat,
            it.position() == 0,
            it.remaining() == mat.triples(),
    {
        CsrIterator { mat, row: 0, offset: 0, col_idx: 0 }
    }

    /// Hands out the next edge with its row, or `None` after the last one.
    pub fn next(&mut self) -> (r: Option<CooEntry<V>>)
        requires
            old(self).wf(),
        ensures
            final(self).wf(),
            final(self).matrix() == old(self).matrix(),
            0 <= old(self).position() <= old(self).matrix().triples().len(),
            match r {
                Some(e) => {
                    &&& old(self).remaining().len() > 0
                    &&& e == old(self).remaining()[0]
                    &&& final(self).position() == old(self).position() + 1
                    &&& final(self).remaining() == old(self).remaining().skip(1)
                },
                None => {
                    &&& old(self).remaining().len() == 0
                    &&& final(self).position() == old(self).position()
                },
            },
    {
        let ghost ext = self.mat.row_extents@;
        let ghost total = self.mat.values@.len();
        proof {
            assert(self.mat.values.len() <= usize::MAX);
            lemma_extent_sum_monotone(ext, self.row as int, ext.len() as int);
            if self.col_idx > 0 {
                lemma_extent_sum_monotone(ext, self.row + 1, ext.len() as int);
            }
        }
        while self.row < self.mat.row_extents.len() && self.mat.row_extents[self.row] < 1
            invariant
                self.wf(),
                self.mat == old(self).mat,
                self.position() == old(self).position(),
                ext == self.mat.row_extents@,
            decreases ext.len() - self.row,
        {
            self.row += 1;
        }
        if self.row >= self.mat.row_extents.len() {
            return None;
        }
        proof {
            lemma_extent_sum_monotone(ext, self.row + 1, ext.len() as int);
            assert(extent_sum(ext, self.row + 1) == self.offset + ext[self.row as int]);
            assert(self.offset + ext[self.row as int] <= total);
        }
        let value_idx: usize = self.offset + self.col_idx;
        let entry = CooEntry {
            i: self.row,
            j: self.mat.col_indices[value_idx],
            value: self.mat.values[value_idx],
        };
        proof {
            lemma_row_from(ext, value_idx as int, 0, self.row as int);
            assert(self.mat.triples()[value_idx as int] == entry);
        }
        self.col_idx += 1;
        if self.col_idx >= self.mat.row_extents[self.row] {
            self.col_idx = 0;
            self.offset += self.mat.row_extents[self.row];
            self.row += 1;
        }
        proof {
            assert(self.remaining() == old(self).remaining().skip(1));
        }
        Some(entry)
    }
}

impl<'a, V: Copy> CsrIterator<'a, V> {
    /// Runs the cursor to the end and returns the edges it passes, in order.
    pub fn collect(self) -> (out: Vec<CooEntry<V>>)
        requires
            self.wf(),
        ensures
            out@ == self.remaining(),
    {
        let ghost all = self.remaining();
        let mut it = self;
        let mut out: Vec<CooEntry<V>> = Vec::new();
        let mut next = it.next();
        while next.is_some()
            invariant
                it.wf(),
                out@.len() <= all.len(),
                out@ == all.take(out@.len() as int),
                match next {
                    Some(e) => out@.len() < all.len() && e == all[out@.len() as int]
                        && it.remaining() == all.skip(out@.len() as int + 1),
                    None => out@.len() == all.len(),
                },
            decreases all.len() - out@.len(),
        {
            let entry = next.unwrap();
            out.push(entry);
            proof {
                assert(out@ == all.take(out@.len() as int));
            }
            next = it.next();
            proof {
                let rest = all.skip(out@.len() as int);
                if rest.len() > 0 {
                    assert(rest[0] == all[out@.len() as int]);
                    assert(rest.skip(1) == all.skip(out@.len() as int + 1));
                }
            }
        }
        proof {
            assert(all.take(out@.len() as int) == all);
        }
        out
    }
}

impl<V: Copy> CsrMatrix<V> {
    /// A cursor over the edges of this matrix, in front of the first one.
    pub fn into_iter<'a>(&'a self) -> (it: CsrIterator<'a, V>)
        requires
            self.wf(),
        ensures
            it.wf(),
            it.matrix() == *self,
            it.position() == 0,
            it.remaining() == self.triples(),
    {
        CsrIterator::new(self)
    }
}

} // verus!
