//! The compressed-row form of a sparse matrix and its construction from the
//! coordinate form.

use crate::coo::{CooEntry, CooMatrix};
use crate::order::{
    below, lemma_rearranged, lemma_stable_order, ordered, precedes, sort_positions, stable_order,
};
use vstd::prelude::*;
use vstd::seq_lib::{to_multiset_build, to_multiset_contains};

verus! {

/// A sparse matrix grouped by row. `row_extents[r]` is the number of edges in
/// row `r`; `col_indices` and `values` run in parallel and hold the edges row
/// after row, so row `r` occupies the `row_extents[r]` slots that start at
/// the sum of the extents before it.
#[derive(Debug)]
pub struct CsrMatrix<V> {
    pub row_extents: Vec<usize>,
    pub col_indices: Vec<usize>,
    pub values: Vec<V>,
}

/// A copy of `v`.
fn copied<T: Copy>(v: &Vec<T>) -> (c: Vec<T>)
    ensures
        c@ == v@,
{
    let mut c: Vec<T> = Vec::new();
    let mut k: usize = 0;
    while k < v.len()
        invariant
            k <= v@.len(),
            c@ == v@.take(k as int),
        decreases v@.len() - k,
    {
        c.push(v[k]);
        k += 1;
        assert(c@ == v@.take(k as int));
    }
    assert(v@.take(k as int) == v@);
    c
}

impl<V: Copy> Clone for CsrMatrix<V> {
    fn clone(&self) -> (c: Self)
        ensures
            c.row_extents@ == self.row_extents@,
            c.col_indices@ == self.col_indices@,
            c.values@ == self.values@,
    {
        CsrMatrix {
            row_extents: copied(&self.row_extents),
            col_indices: copied(&self.col_indices),
            values: copied(&self.values),
        }
    }
}

/// The sum of the first `r` extents: the slot at which row `r` starts.
pub open spec fn extent_sum(ext: Seq<usize>, r: int) -> int
    decreases r,
{
    if r <= 0 {
        0
    } else {
        extent_sum(ext, r - 1) + ext[r - 1]
    }
}

/// The first row from `r` on whose slots end after slot `p`.
pub open spec fn row_from(ext: Seq<usize>, p: int, r: int) -> int
    decreases ext.len() - r,
{
    if r >= ext.len() || p < extent_sum(ext, r + 1) {
        r
    } else {
        row_from(ext, p, r + 1)
    }
}

/// The rows of the edges, in the edges' order.
pub open spec fn rows_of<V>(m: Seq<CooEntry<V>>) -> Seq<usize> {
    m.map_values(|e: CooEntry<V>| e.i)
}

/// The largest row that an edge names; 0 without edges.
pub open spec fn largest_row<V>(m: Seq<CooEntry<V>>) -> int
    decreases m.len(),
{
    if m.len() == 0 {
        0
    } else if largest_row(m.drop_last()) >= m.last().i {
        largest_row(m.drop_last())
    } else {
        m.last().i as int
    }
}

/// The number of edges in row `r`.
pub open spec fn row_census<V>(m: Seq<CooEntry<V>>, r: usize) -> nat {
    rows_of(m).to_multiset().count(r)
}

/// The edges grouped by row: rows ascending, and inside a row the edges in
/// the order in which `m` holds them.
pub open spec fn by_rows<V>(m: Seq<CooEntry<V>>) -> Seq<CooEntry<V>> {
    stable_order(rows_of(m)).map_values(|k: usize| m[k as int])
}

/// The edges with every index pair `(i, j)` replaced by `f(i, j)`.
pub open spec fn transformed<V>(
    m: Seq<CooEntry<V>>,
    f: spec_fn(usize, usize) -> (usize, usize),
) -> Seq<CooEntry<V>> {
    m.map_values(|e: CooEntry<V>| CooEntry { i: f(e.i, e.j).0, j: f(e.i, e.j).1, value: e.value })
}

/// The edges with rows and columns exchanged.
pub open spec fn transposed<V>(m: Seq<CooEntry<V>>) -> Seq<CooEntry<V>> {
    m.map_values(|e: CooEntry<V>| CooEntry { i: e.j, j: e.i, value: e.value })
}

/// The executable index map `f` computes the function `g`.
pub open spec fn computes_map<F: Fn(usize, usize) -> (usize, usize)>(
    f: F,
    g: spec_fn(usize, usize) -> (usize, usize),
) -> bool {
    forall|i: usize, j: usize, r: (usize, usize)| #[trigger] call_ensures(f, (i, j), r) ==> r == g(i, j)
}

impl<V> CsrMatrix<V> {
    /// The three sequences fit together: one column per value, and the
    /// extents add up to the number of edges.
    pub open spec fn wf(&self) -> bool {
        &&& self.col_indices@.len() == self.values@.len()
        &&& extent_sum(self.row_extents@, self.row_extents@.len() as int) == self.values@.len()
    }

    /// The row of the edge in slot `p`.
    pub open spec fn row_of(&self, p: int) -> int {
        row_from(self.row_extents@, p, 0)
    }

    /// The edges in storage order, each with its row.
    pub open spec fn triples(&self) -> Seq<CooEntry<V>> {
        Seq::new(
            self.values@.len(),
            |p: int| CooEntry { i: self.row_of(p) as usize, j: self.col_indices@[p], value: self.values@[p] },
        )
    }

    /// This matrix is the compressed form of the edge list `m`: it has one
    /// extent for each row up to the largest that `m` names, each extent is
    /// the number of edges of `m` in that row, and the edges are those of `m`
    /// grouped by row.
    pub open spec fn represents(&self, m: Seq<CooEntry<V>>) -> bool {
        &&& self.wf()
        &&& self.row_extents@.len() == largest_row(m) + 1
        &&& forall|r: int|
            0 <= r < self.row_extents@.len() ==> (#[trigger] self.row_extents@[r]) == row_census(m, r as usize)
        &&& self.triples() == by_rows(m)
    }
}

/// Rows start no earlier than the rows before them.
pub proof fn lemma_extent_sum_monotone(ext: Seq<usize>, a: int, b: int)
    requires
        a <= b,
    ensures
        extent_sum(ext, a) <= extent_sum(ext, b),
    decreases b - a,
{
    if a < b {
        lemma_extent_sum_monotone(ext, a, b - 1);
    }
}

/// Where a row starts depends on the extents before it alone.
pub proof fn lemma_extent_sum_push(ext: Seq<usize>, x: usize, r: int)
    requires
        r <= ext.len(),
    ensures
        extent_sum(ext.push(x), r) == extent_sum(ext, r),
    decreases r,
{
    if r > 0 {
        lemma_extent_sum_push(ext, x, r - 1);
        assert(ext.push(x)[r - 1] == ext[r - 1]);
    }
}

/// A slot inside the slice of row `r` belongs to row `r`.
pub proof fn lemma_row_from(ext: Seq<usize>, p: int, start: int, r: int)
    requires
        0 <= start <= r < ext.len(),
        extent_sum(ext, r) <= p < extent_sum(ext, r + 1),
    ensures
        row_from(ext, p, start) == r,
    decreases r - start,
{
    if start < r {
        lemma_extent_sum_monotone(ext, start + 1, r);
        lemma_row_from(ext, p, start + 1, r);
    }
}

/// Every slot lies inside the slice of its row.
pub proof fn lemma_row_from_bounds(ext: Seq<usize>, p: int, start: int)
    requires
        0 <= start <= ext.len(),
        extent_sum(ext, start) <= p < extent_sum(ext, ext.len() as int),
    ensures
        start <= row_from(ext, p, start) < ext.len(),
        extent_sum(ext, row_from(ext, p, start)) <= p < extent_sum(ext, row_from(ext, p, start) + 1),
    decreases ext.len() - start,
{
    if start < ext.len() && p >= extent_sum(ext, start + 1) {
        lemma_row_from_bounds(ext, p, start + 1);
    }
}

/// No edge names a row above the largest, and with edges one names it.
pub proof fn lemma_largest_row<V>(m: Seq<CooEntry<V>>)
    ensures
        forall|k: int| 0 <= k < m.len() ==> (#[trigger] m[k]).i <= largest_row(m),
        m.len() > 0 ==> exists|k: int| 0 <= k < m.len() && (#[trigger] m[k]).i == largest_row(m),
    decreases m.len(),
{
    if m.len() > 0 {
        let front = m.drop_last();
        lemma_largest_row(front);
        assert forall|k: int| 0 <= k < m.len() implies (#[trigger] m[k]).i <= largest_row(m) by {
            if k < front.len() {
                assert(front[k] == m[k]);
            }
        }
        if largest_row(front) >= m.last().i && front.len() > 0 {
            let k = choose|k: int| 0 <= k < front.len() && (#[trigger] front[k]).i == largest_row(front);
            assert(m[k] == front[k]);
        } else {
            assert(m[m.len() - 1].i == largest_row(m));
        }
    }
}

/// The compressed form keeps what the edge list holds. Its extents add up to
/// the number of edges. Its edges are those of the list, each as often; rows
/// never decrease along them; each comes from a position of the list of its
/// own, and of two edges in one row the one that the list holds first comes
/// first.
pub proof fn lemma_round_trip<V>(csr: CsrMatrix<V>, m: Seq<CooEntry<V>>)
    requires
        csr.represents(m),
    ensures
        extent_sum(csr.row_extents@, csr.row_extents@.len() as int) == m.len(),
        csr.triples().len() == m.len(),
        csr.triples().to_multiset() == m.to_multiset(),
        forall|p: int, q: int|
            0 <= p <= q < m.len() ==> (#[trigger] csr.triples()[p]).i <= (#[trigger] csr.triples()[q]).i,
        stable_order(rows_of(m)).len() == m.len(),
        stable_order(rows_of(m)).no_duplicates(),
        forall|p: int|
            0 <= p < m.len() ==> 0 <= #[trigger] stable_order(rows_of(m))[p] < m.len()
                && csr.triples()[p] == m[stable_order(rows_of(m))[p] as int],
        forall|p: int, q: int|
            0 <= p < q < m.len() && csr.triples()[p].i == csr.triples()[q].i ==> (
            #[trigger] stable_order(rows_of(m))[p]) < (#[trigger] stable_order(rows_of(m))[q]),
{
    let keys = rows_of(m);
    let order = stable_order(keys);
    assert(m.len() <= usize::MAX) by {
        assert(csr.values.len() <= usize::MAX);
        assert(csr.triples().len() == csr.values@.len());
        assert(order.len() == by_rows(m).len());
        lemma_sort_keeps_length(keys);
    }
    lemma_stable_order(keys);
    lemma_rearranged(keys, m);
    assert(by_rows(m) == order.map_values(|k: usize| m[k as int]));
    assert(csr.triples().len() == csr.values@.len());
    assert(by_rows(m).len() == m.len());
    assert forall|p: int, q: int| 0 <= p <= q < m.len() implies (#[trigger] csr.triples()[p]).i <= (
    #[trigger] csr.triples()[q]).i by {
        if p < q {
            assert(precedes(keys, order[p], order[q]));
        }
    }
}

/// The stable order has as many positions as there are keys, however many.
proof fn lemma_sort_keeps_length(keys: Seq<usize>)
    ensures
        stable_order(keys).len() == keys.len(),
{
    let all = crate::order::positions(0, keys.len() as int);
    crate::order::lemma_key_order_total(keys);
    all.lemma_sort_by_ensures(crate::order::key_order(keys));
    vstd::seq_lib::to_multiset_len(all);
    vstd::seq_lib::to_multiset_len(stable_order(keys));
}

/// The compressed form of the transposed list holds exactly the edges
/// `(j, i, w)` for the edges `(i, j, w)` of the list: each as often as the
/// list holds it, and so the same set.
pub proof fn lemma_transpose<V>(csr: CsrMatrix<V>, m: Seq<CooEntry<V>>)
    requires
        csr.represents(transposed(m)),
    ensures
        csr.triples().to_multiset() == transposed(m).to_multiset(),
        csr.triples().to_set() == transposed(m).to_set(),
        forall|k: int|
            0 <= k < m.len() ==> csr.triples().contains(
                CooEntry { i: (#[trigger] m[k]).j, j: m[k].i, value: m[k].value },
            ),
        forall|p: int|
            0 <= p < csr.triples().len() ==> exists|k: int|
                0 <= k < m.len() && (#[trigger] csr.triples()[p]) == (CooEntry {
                    i: (#[trigger] m[k]).j,
                    j: m[k].i,
                    value: m[k].value,
                }),
{
    let t = transposed(m);
    let s = csr.triples();
    lemma_round_trip(csr, t);
    assert forall|e: CooEntry<V>| s.contains(e) <==> t.contains(e) by {
        to_multiset_contains(s, e);
        to_multiset_contains(t, e);
    }
    assert(s.to_set() =~= t.to_set());
    assert forall|k: int| 0 <= k < m.len() implies s.contains(
        CooEntry { i: (#[trigger] m[k]).j, j: m[k].i, value: m[k].value },
    ) by {
        assert(t[k] == CooEntry { i: m[k].j, j: m[k].i, value: m[k].value });
        assert(t.contains(t[k]));
    }
    assert forall|p: int| 0 <= p < s.len() implies exists|k: int|
        0 <= k < m.len() && (#[trigger] s[p]) == (CooEntry {
            i: (#[trigger] m[k]).j,
            j: m[k].i,
            value: m[k].value,
        }) by {
        assert(s.contains(s[p]));
        assert(t.contains(s[p]));
        let k = choose|k: int| 0 <= k < t.len() && t[k] == s[p];
        assert(t[k] == CooEntry { i: m[k].j, j: m[k].i, value: m[k].value });
    }
}

/// The compressed form of a list without edges is one row of extent 0, and
/// holds no edge.
pub proof fn lemma_empty<V>(csr: CsrMatrix<V>, m: Seq<CooEntry<V>>)
    requires
        csr.represents(m),
        m.len() == 0,
    ensures
        csr.row_extents@ == seq![0usize],
        csr.col_indices@.len() == 0,
        csr.values@.len() == 0,
        csr.triples() == Seq::<CooEntry<V>>::empty(),
{
    lemma_round_trip(csr, m);
    to_multiset_contains(rows_of(m), 0usize);
    assert(csr.row_extents@[0] == row_census(m, 0usize));
    assert(csr.row_extents@ =~= seq![0usize]);
    assert(csr.triples() =~= Seq::<CooEntry<V>>::empty());
}

/// With every edge in a row below `rows`, the compressed form has at most
/// `rows` rows.
pub proof fn lemma_row_count<V>(csr: CsrMatrix<V>, m: Seq<CooEntry<V>>, rows: int)
    requires
        csr.represents(m),
        rows > 0,
        forall|k: int| 0 <= k < m.len() ==> (#[trigger] m[k]).i < rows,
    ensures
        csr.row_extents@.len() <= rows,
{
    lemma_largest_row(m);
}

/// The keys read along `order`.
spec fn keys_along(keys: Seq<usize>, order: Seq<usize>) -> Seq<usize> {
    order.map_values(|p: usize| keys[p as int])
}

/// The first `t` edges of the arrangement lie in rows up to `row`, those of
/// the rows before `row` inside their slices, those of `row` after its start.
spec fn placed(ext: Seq<usize>, sk: Seq<usize>, t: int, row: int) -> bool {
    forall|p: int|
        0 <= p < t ==> {
            let r = (#[trigger] sk[p]) as int;
            &&& r <= row
            &&& r < row ==> extent_sum(ext, r) <= p < extent_sum(ext, r + 1)
            &&& r == row ==> extent_sum(ext, row) <= p
        }
}

/// The extents of the rows before `row` count the keys seen so far.
spec fn counted(ext: Seq<usize>, seen: Seq<usize>, row: int) -> bool {
    forall|r: int| 0 <= r < row ==> (#[trigger] ext[r]) == seen.to_multiset().count(r as usize)
}

/// Closing row `row` with `extent` edges keeps the bookkeeping of the sweep.
proof fn lemma_close_row(ext: Seq<usize>, extent: usize, sk: Seq<usize>, t: int, row: int)
    requires
        ext.len() == row,
        row <= usize::MAX,
        0 <= t <= sk.len(),
        placed(ext, sk, t, row),
        extent_sum(ext, row) + extent == t,
        counted(ext, sk.take(t), row),
        extent == sk.take(t).to_multiset().count(row as usize),
    ensures
        placed(ext.push(extent), sk, t, row + 1),
        extent_sum(ext.push(extent), row + 1) == t,
        counted(ext.push(extent), sk.take(t), row + 1),
        row < usize::MAX ==> sk.take(t).to_multiset().count((row + 1) as usize) == 0,
{
    let next = ext.push(extent);
    lemma_extent_sum_push(ext, extent, row);
    assert(next[row] == extent);
    assert forall|p: int| 0 <= p < t implies {
        let r = (#[trigger] sk[p]) as int;
        &&& r <= row + 1
        &&& r < row + 1 ==> extent_sum(next, r) <= p < extent_sum(next, r + 1)
        &&& r == row + 1 ==> extent_sum(next, row + 1) <= p
    } by {
        let r = sk[p] as int;
        if r < row {
            lemma_extent_sum_push(ext, extent, r);
            lemma_extent_sum_push(ext, extent, r + 1);
        }
    }
    assert forall|r: int| 0 <= r < row + 1 implies (#[trigger] next[r]) == sk.take(t).to_multiset().count(
        r as usize,
    ) by {
        if r < row {
            assert(next[r] == ext[r]);
        }
    }
    if row < usize::MAX {
        let above = (row + 1) as usize;
        to_multiset_contains(sk.take(t), above);
        if sk.take(t).contains(above) {
            let p = choose|p: int| 0 <= p < sk.take(t).len() && sk.take(t)[p] == above;
            assert(sk[p] == above);
        }
    }
}

/// Laying the next edge into the open row keeps the count of the sweep.
proof fn lemma_count_next(ext: Seq<usize>, extent: usize, sk: Seq<usize>, t: int, row: int)
    requires
        0 <= row <= usize::MAX,
        0 <= t < sk.len(),
        sk[t] == row,
        counted(ext, sk.take(t), row),
        extent == sk.take(t).to_multiset().count(row as usize),
    ensures
        counted(ext, sk.take(t + 1), row),
        extent + 1 == sk.take(t + 1).to_multiset().count(row as usize),
{
    broadcast use vstd::multiset::group_multiset_axioms;

    assert(sk.take(t + 1) == sk.take(t).push(sk[t]));
    to_multiset_build(sk.take(t), sk[t]);
    assert forall|r: int| 0 <= r < row implies (#[trigger] ext[r]) == sk.take(t + 1).to_multiset().count(
        r as usize,
    ) by {
        assert(r as usize != sk[t]);
    }
}

impl<V: Copy> CsrMatrix<V> {
    /// A matrix without rows.
    pub fn new() -> (m: Self)
        ensures
            m.row_extents@.len() == 0,
            m.col_indices@.len() == 0,
            m.values@.len() == 0,
            m.wf(),
    {
        CsrMatrix { row_extents: Vec::new(), col_indices: Vec::new(), values: Vec::new() }
    }

    /// Whether the three sequences fit together.
    pub fn is_wf(&self) -> (ok: bool)
        ensures
            ok == self.wf(),
    {
        let n: usize = self.values.len();
        if self.col_indices.len() != n {
            return false;
        }
        let mut sum: usize = 0;
        let mut r: usize = 0;
        while r < self.row_extents.len()
            invariant
                r <= self.row_extents@.len(),
                n == self.values@.len(),
                sum == extent_sum(self.row_extents@, r as int),
                sum <= n,
            decreases self.row_extents@.len() - r,
        {
            let extent: usize = self.row_extents[r];
            if extent > n - sum {
                proof {
                    lemma_extent_sum_monotone(self.row_extents@, r + 1, self.row_extents@.len() as int);
                }
                return false;
            }
            sum += extent;
            r += 1;
        }
        sum == n
    }

    /// Rebuilds this matrix from the edges of `coo`, each index pair first
    /// sent through `idx_map`. The edges are arranged by their new row, edges
    /// of one row in the order of `coo`, and swept once to count the rows.
    /// `rows` is a capacity hint and does not change the result: the matrix
    /// gets one extent per row up to the largest row that occurs, a single
    /// extent 0 if there is no edge.
    pub fn from_coo_transformed<F: Fn(usize, usize) -> (usize, usize)>(
        &mut self,
        coo: &CooMatrix<V>,
        rows: usize,
        idx_map: F,
    )
        requires
            forall|k: int|
                #![trigger coo@[k]]
                0 <= k < coo@.len() ==> call_requires(idx_map, (coo@[k].i, coo@[k].j)),
        ensures
            forall|f: spec_fn(usize, usize) -> (usize, usize)|
                computes_map(idx_map, f) ==> final(self).represents(#[trigger] transformed(coo@, f)),
    {
        let edges = coo.entries();
        let n: usize = edges.len();
        let mut keys: Vec<usize> = Vec::new();
        let mut cols: Vec<usize> = Vec::new();
        let mut k: usize = 0;
        while k < n
            invariant
                n == edges@.len(),
                edges@ == coo@,
                k <= n,
                keys@.len() == k,
                cols@.len() == k,
                forall|q: int|
                    #![trigger coo@[q]]
                    0 <= q < coo@.len() ==> call_requires(idx_map, (coo@[q].i, coo@[q].j)),
                forall|q: int|
                    #![trigger edges@[q]]
                    0 <= q < k ==> call_ensures(idx_map, (edges@[q].i, edges@[q].j), (keys@[q], cols@[q])),
            decreases n - k,
        {
            let e = edges[k];
            let (i, j) = idx_map(e.i, e.j);
            keys.push(i);
            cols.push(j);
            k += 1;
        }
        let order = sort_positions(&keys);
        let ghost m = Seq::new(
            n as nat,
            |q: int| CooEntry { i: keys@[q], j: cols@[q], value: edges@[q].value },
        );
        let ghost sk = keys_along(keys@, order@);
        proof {
            assert(rows_of(m) == keys@);
            lemma_stable_order(keys@);
        }

        self.row_extents.clear();
        let _ = self.row_extents.try_reserve(rows);
        self.col_indices.clear();
        let _ = self.col_indices.try_reserve(n);
        self.values.clear();
        let _ = self.values.try_reserve(n);

        let mut row: usize = 0;
        let mut row_extent: usize = 0;
        let mut t: usize = 0;
        proof {
            to_multiset_contains(sk.take(0), 0usize);
        }
        while t < n
            invariant
                t <= n,
                row_extent <= t,
                n == edges@.len(),
                n == keys@.len(),
                n == cols@.len(),
                order@ == stable_order(keys@),
                order@.len() == n,
                below(order@, n as int),
                ordered(keys@, order@),
                sk == keys_along(keys@, order@),
                self.row_extents@.len() == row,
                self.col_indices@.len() == t,
                self.values@.len() == t,
                placed(self.row_extents@, sk, t as int, row as int),
                extent_sum(self.row_extents@, row as int) + row_extent == t,
                counted(self.row_extents@, sk.take(t as int), row as int),
                row_extent == sk.take(t as int).to_multiset().count(row),
                t == 0 ==> row == 0,
                t > 0 ==> row == sk[t - 1],
                forall|p: int|
                    0 <= p < t ==> (#[trigger] self.col_indices@[p]) == cols@[order@[p] as int],
                forall|p: int|
                    0 <= p < t ==> (#[trigger] self.values@[p]) == edges@[order@[p] as int].value,
            decreases n - t,
        {
            let at: usize = order[t];
            let e = edges[at];
            let i: usize = keys[at];
            let j: usize = cols[at];
            proof {
                assert(sk[t as int] == i);
                if t > 0 {
                    assert(precedes(keys@, order@[t - 1], order@[t as int]));
                }
            }
            while row < i
                invariant
                    row <= i,
                    t < n,
                    row_extent <= t,
                    sk.len() == n,
                    order@.len() == n,
                    below(order@, n as int),
                    n == edges@.len(),
                    n == cols@.len(),
                    self.row_extents@.len() == row,
                    self.col_indices@.len() == t,
                    self.values@.len() == t,
                    placed(self.row_extents@, sk, t as int, row as int),
                    extent_sum(self.row_extents@, row as int) + row_extent == t,
                    counted(self.row_extents@, sk.take(t as int), row as int),
                    row_extent == sk.take(t as int).to_multiset().count(row),
                    forall|p: int|
                        0 <= p < t ==> (#[trigger] self.col_indices@[p]) == cols@[order@[p] as int],
                    forall|p: int|
                        0 <= p < t ==> (#[trigger] self.values@[p]) == edges@[order@[p] as int].value,
                decreases i - row,
            {
                proof {
                    lemma_close_row(self.row_extents@, row_extent, sk, t as int, row as int);
                }
                self.row_extents.push(row_extent);
                row_extent = 0;
                row += 1;
            }
            proof {
                lemma_count_next(self.row_extents@, row_extent, sk, t as int, row as int);
            }
            self.values.push(e.value);
            self.col_indices.push(j);
            row_extent += 1;
            t += 1;
        }
        proof {
            lemma_close_row(self.row_extents@, row_extent, sk, t as int, row as int);
            assert(sk.take(t as int) == sk);
        }
        self.row_extents.push(row_extent);
        proof {
            let ext = self.row_extents@;
            let sorted = by_rows(m);
            assert(sorted.len() == n);
            assert forall|p: int| 0 <= p < n implies (#[trigger] self.triples()[p]) == sorted[p] by {
                assert(sorted[p] == m[order@[p] as int]);
                lemma_row_from(ext, p, 0, sk[p] as int);
            }
            assert(self.triples() =~= sorted);
            lemma_rearranged(keys@, keys@);
            assert(keys_along(keys@, order@) == order@.map_values(|q: usize| keys@[q as int]));
            lemma_largest_row(m);
            if n > 0 {
                let top = choose|q: int| 0 <= q < m.len() && (#[trigger] m[q]).i == largest_row(m);
                assert(order@.contains(top as usize));
                let p = choose|p: int| 0 <= p < order@.len() && order@[p] == top as usize;
                if p < n - 1 {
                    assert(precedes(keys@, order@[p], order@[n - 1]));
                }
                assert(m[order@[n - 1] as int].i <= largest_row(m));
            }
            assert(row == largest_row(m));
            assert forall|f: spec_fn(usize, usize) -> (usize, usize)|
                computes_map(idx_map, f) implies self.represents(#[trigger] transformed(coo@, f)) by {
                assert forall|q: int| 0 <= q < n implies transformed(coo@, f)[q] == m[q] by {
                    assert(call_ensures(idx_map, (edges@[q].i, edges@[q].j), (keys@[q], cols@[q])));
                }
                assert(transformed(coo@, f) =~= m);
            }
        }
    }

    /// Rebuilds this matrix from `coo` as it stands: rows are the edges' `i`.
    pub fn from_coo(&mut self, coo: &CooMatrix<V>, rows: usize)
        ensures
            final(self).represents(coo@),
    {
        let keep = |i: usize, j: usize| -> (r: (usize, usize))
            ensures
                r == (i, j),
            { (i, j) };
        self.from_coo_transformed(coo, rows, keep);
        proof {
            let f = |i: usize, j: usize| (i, j);
            assert(computes_map(keep, f));
            assert(transformed(coo@, f) =~= coo@);
        }
    }

    /// Rebuilds this matrix from the transpose of `coo`: rows are the edges'
    /// `j`, columns their `i`.
    pub fn from_coo_tr(&mut self, coo: &CooMatrix<V>, cols: usize)
        ensures
            final(self).represents(transposed(coo@)),
    {
        let swap = |i: usize, j: usize| -> (r: (usize, usize))
            ensures
                r == (j, i),
            { (j, i) };
        self.from_coo_transformed(coo, cols, swap);
        proof {
            let f = |i: usize, j: usize| (j, i);
            assert(computes_map(swap, f));
            assert(transformed(coo@, f) =~= transposed(coo@));
        }
    }
}

} // verus!
