//! The coordinate form of a sparse matrix: edges in the order they were added.

use crate::sample::index_below;
use crate::scalar::{computes2, total2};
use vstd::prelude::*;

verus! {

/// One weighted edge: row `i`, column `j`, weight `value`.
#[derive(Debug)]
pub struct CooEntry<V> {
    pub i: usize,
    pub j: usize,
    pub value: V,
}

impl<V: Copy> Copy for CooEntry<V> {

}

impl<V: Copy> Clone for CooEntry<V> {
    fn clone(&self) -> (c: Self)
        ensures
            c == *self,
    {
        *self
    }
}

/// A sparse matrix as an insertion-ordered list of edges. The same pair
/// `(i, j)` may occur more than once; the contributions then add up.
#[derive(Debug)]
pub struct CooMatrix<V>(Vec<CooEntry<V>>);

impl<V> View for CooMatrix<V> {
    type V = Seq<CooEntry<V>>;

    closed spec fn view(&self) -> Seq<CooEntry<V>> {
        self.0@
    }
}

/// What `mult_into` leaves in the result buffer: starting from `r`, each edge
/// in turn adds `value * v[j]` to slot `i`.
pub open spec fn accumulated<V>(
    entries: Seq<CooEntry<V>>,
    v: Seq<V>,
    r: Seq<V>,
    plus: spec_fn(V, V) -> V,
    times: spec_fn(V, V) -> V,
) -> Seq<V>
    decreases entries.len(),
{
    if entries.len() == 0 {
        r
    } else {
        let e = entries.last();
        let before = accumulated(entries.drop_last(), v, r, plus, times);
        before.update(e.i as int, plus(before[e.i as int], times(e.value, v[e.j as int])))
    }
}

/// Every edge names a row below `rows` and a column below `cols`.
pub open spec fn within<V>(entries: Seq<CooEntry<V>>, rows: int, cols: int) -> bool {
    forall|k: int| 0 <= k < entries.len() ==> (#[trigger] entries[k]).i < rows && entries[k].j < cols
}

impl<V: Copy> CooMatrix<V> {
    /// A matrix without edges.
    pub fn new() -> (m: Self)
        ensures
            m@ == Seq::<CooEntry<V>>::empty(),
    {
        CooMatrix(Vec::new())
    }

    /// The number of edges.
    pub fn len(&self) -> (n: usize)
        ensures
            n == self@.len(),
    {
        self.0.len()
    }

    /// The edges, in insertion order.
    pub fn entries(&self) -> (e: &Vec<CooEntry<V>>)
        ensures
            e@ == self@,
    {
        &self.0
    }

    /// Whether every edge names a row below `rows` and a column below `cols`.
    pub fn fits(&self, rows: usize, cols: usize) -> (ok: bool)
        ensures
            ok == within(self@, rows as int, cols as int),
    {
        let mut k: usize = 0;
        while k < self.0.len()
            invariant
                k <= self@.len(),
                within(self@.take(k as int), rows as int, cols as int),
            decreases self@.len() - k,
        {
            if self.0[k].i >= rows || self.0[k].j >= cols {
                return false;
            }
            k += 1;
            assert forall|q: int| 0 <= q < k implies (#[trigger] self@.take(k as int)[q]).i < rows
                && self@.take(k as int)[q].j < cols by {
                if q < k - 1 {
                    assert(self@.take(k as int)[q] == self@.take(k - 1)[q]);
                }
            }
        }
        assert(self@.take(k as int) == self@);
        true
    }

    /// Appends the edge `(i, j, value)`. Indices are not checked against any
    /// bound.
    pub fn push(&mut self, i: usize, j: usize, value: V)
        ensures
            final(self)@ == old(self)@.push(CooEntry { i, j, value }),
    {
        self.0.push(CooEntry { i, j, value });
    }

    /// Replaces the contents by `entries` random edges: rows drawn uniformly
    /// below `i`, columns below `j`, each weight by one call of `weight`.
    pub fn random<W: Fn() -> V>(&mut self, i: usize, j: usize, entries: usize, weight: W)
        requires
            entries > 0 ==> i > 0 && j > 0,
            call_requires(weight, ()),
        ensures
            final(self)@.len() == entries,
            within(final(self)@, i as int, j as int),
            forall|k: int|
                0 <= k < entries ==> call_ensures(weight, (), (#[trigger] final(self)@[k]).value),
    {
        let mut rng = rand::thread_rng();
        self.0.clear();
        let mut n: usize = 0;
        while n < entries
            invariant
                n <= entries,
                entries > 0 ==> i > 0 && j > 0,
                call_requires(weight, ()),
                self@.len() == n,
                within(self@, i as int, j as int),
                forall|k: int| 0 <= k < n ==> call_ensures(weight, (), (#[trigger] self@[k]).value),
            decreases entries - n,
        {
            let row = index_below(&mut rng, i);
            let col = index_below(&mut rng, j);
            let value = weight();
            self.0.push(CooEntry { i: row, j: col, value });
            n += 1;
        }
    }

    /// Adds the product of this matrix with the vector `v` onto `r`:
    /// `r[i] += value * v[j]` for each edge in insertion order. `r` is not
    /// cleared first, so several matrices can accumulate into one buffer.
    pub fn mult_into<A: Fn(V, V) -> V, M: Fn(V, V) -> V>(
        &self,
        v: &Vec<V>,
        r: &mut Vec<V>,
        plus: A,
        times: M,
    )
        requires
            within(self@, old(r)@.len() as int, v@.len() as int),
            total2(plus),
            total2(times),
        ensures
            final(r)@.len() == old(r)@.len(),
            forall|plus_of: spec_fn(V, V) -> V, times_of: spec_fn(V, V) -> V|
                computes2(plus, plus_of) && computes2(times, times_of) ==> final(r)@ == #[trigger] accumulated(
                    self@,
                    v@,
                    old(r)@,
                    plus_of,
                    times_of,
                ),
    {
        let mut k: usize = 0;
        while k < self.0.len()
            invariant
                k <= self@.len(),
                r@.len() == old(r)@.len(),
                within(self@, r@.len() as int, v@.len() as int),
                total2(plus),
                total2(times),
                forall|plus_of: spec_fn(V, V) -> V, times_of: spec_fn(V, V) -> V|
                    computes2(plus, plus_of) && computes2(times, times_of) ==> r@ == #[trigger] accumulated(
                        self@.take(k as int),
                        v@,
                        old(r)@,
                        plus_of,
                        times_of,
                    ),
            decreases self@.len() - k,
        {
            let entry = self.0[k];
            let ghost before = r@;
            let product = times(entry.value, v[entry.j]);
            let total = plus(r[entry.i], product);
            r.set(entry.i, total);
            proof {
                let prefix = self@.take(k + 1);
                assert(prefix.drop_last() == self@.take(k as int));
                assert(prefix.last() == entry);
                assert forall|plus_of: spec_fn(V, V) -> V, times_of: spec_fn(V, V) -> V|
                    computes2(plus, plus_of) && computes2(times, times_of) implies r@
                    == #[trigger] accumulated(prefix, v@, old(r)@, plus_of, times_of) by {
                    assert(before == accumulated(self@.take(k as int), v@, old(r)@, plus_of, times_of));
                }
            }
            k += 1;
        }
        proof {
            assert(self@.take(k as int) == self@);
        }
    }
}

} // verus!
