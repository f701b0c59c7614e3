//! A sparse network: biases, the edges in both orientations, and its
//! evaluation in one pass over the forward edges.

use crate::coo::{within, CooEntry, CooMatrix};
use crate::csr::{
    by_rows, extent_sum, lemma_extent_sum_monotone, lemma_row_from, lemma_row_from_bounds,
    transposed, CsrMatrix,
};
use crate::order::lemma_stable_order;
use crate::render::graph_text;
use crate::scalar::{implements, relu, total1, total2, Arith};
use vstd::prelude::*;

verus! {

/// A network of `biases.len()` nodes. The first `input` nodes are inputs, the
/// last `output` nodes are outputs. The forward matrix has a row for each
/// target node and holds, as columns, the nodes that it reads; the backward
/// matrix is its transpose.
pub struct SparseNet<V> {
    num_vertices: usize,
    num_edges: usize,
    pub biases: Vec<V>,
    edges_forward: CsrMatrix<V>,
    edges_backward: CsrMatrix<V>,
    pub input: usize,
    pub output: usize,
}

/// The scratch buffers of one evaluation: an activation for each node, and
/// gradient accumulators for biases and weights.
pub struct SparseNetData<V> {
    pub activations: Vec<V>,
    pub d_biases: Vec<V>,
    pub d_weights: Vec<V>,
}

/// `n` copies of `value`.
fn filled<V: Copy>(value: V, n: usize) -> (v: Vec<V>)
    ensures
        v@ == Seq::new(n as nat, |k: int| value),
{
    let mut v: Vec<V> = Vec::new();
    let mut k: usize = 0;
    while k < n
        invariant
            k <= n,
            v@ == Seq::new(k as nat, |q: int| value),
        decreases n - k,
    {
        v.push(value);
        k += 1;
        assert(v@ =~= Seq::new(k as nat, |q: int| value));
    }
    v
}

/// The weighted sum of the first `k` edges of row `r`, on top of `start`:
/// each edge adds its weight times the activation of its column.
pub open spec fn row_sum<V>(csr: CsrMatrix<V>, acts: Seq<V>, ar: Arith<V>, r: int, k: int, start: V) -> V
    decreases k,
{
    if k <= 0 {
        start
    } else {
        let p = extent_sum(csr.row_extents@, r) + k - 1;
        (ar.plus)(
            row_sum(csr, acts, ar, r, k - 1, start),
            (ar.times)(acts[csr.col_indices@[p] as int], csr.values@[p]),
        )
    }
}

/// The last row that holds an edge; 0 without edges.
pub open spec fn last_row<V>(csr: CsrMatrix<V>) -> int {
    if csr.values@.len() == 0 {
        0
    } else {
        csr.row_of(csr.values@.len() - 1)
    }
}

impl<V: Copy> SparseNet<V> {
    /// The number of nodes.
    pub closed spec fn node_count(&self) -> nat {
        self.num_vertices as nat
    }

    /// The number of edges.
    pub closed spec fn edge_count(&self) -> nat {
        self.num_edges as nat
    }

    /// The biases, one for each node.
    pub closed spec fn bias_values(&self) -> Seq<V> {
        self.biases@
    }

    /// The number of input nodes.
    pub closed spec fn input_count(&self) -> nat {
        self.input as nat
    }

    /// The number of output nodes.
    pub closed spec fn output_count(&self) -> nat {
        self.output as nat
    }

    /// The edges by target node.
    pub closed spec fn forward_edges(&self) -> CsrMatrix<V> {
        self.edges_forward
    }

    /// The edges by source node.
    pub closed spec fn backward_edges(&self) -> CsrMatrix<V> {
        self.edges_backward
    }

    /// The network can be evaluated: it has a node, a bias for each node, and
    /// every forward edge joins two of its nodes.
    pub open spec fn evaluable(&self) -> bool {
        &&& self.node_count() > 0
        &&& self.bias_values().len() == self.node_count()
        &&& self.forward_edges().wf()
        &&& within(self.forward_edges().triples(), self.node_count() as int, self.node_count() as int)
    }

    /// The state of an evaluation before row `r` is read: the activations,
    /// with those of the nodes below `r` settled, and the sum carried into
    /// row `r`. A node past the inputs takes its row's sum and leaves zero
    /// behind; an input node keeps its activation and passes its sum on.
    pub open spec fn before_row(&self, acts0: Seq<V>, ar: Arith<V>, r: int) -> (Seq<V>, V)
        decreases r,
    {
        if r <= 0 {
            (acts0, ar.zero)
        } else {
            let (acts, carry) = self.before_row(acts0, ar, r - 1);
            let extent = self.forward_edges().row_extents@[r - 1] as int;
            let sum = row_sum(self.forward_edges(), acts, ar, r - 1, extent, carry);
            if r - 1 >= self.input_count() {
                (acts.update(r - 1, ar.activate(sum, self.bias_values()[r - 1])), ar.zero)
            } else {
                (acts, sum)
            }
        }
    }

    /// The state of an evaluation that has read the first `p` edges and
    /// stands in row `r`.
    pub open spec fn swept(&self, acts0: Seq<V>, ar: Arith<V>, r: int, p: int) -> (Seq<V>, V) {
        let (acts, carry) = self.before_row(acts0, ar, r);
        let k = p - extent_sum(self.forward_edges().row_extents@, r);
        (acts, row_sum(self.forward_edges(), acts, ar, r, k, carry))
    }

    /// The activations after one forward pass from `acts0`: the rows are read
    /// in order up to the last one that holds an edge, and that row's node is
    /// settled at the end, input or not.
    pub open spec fn forward_result(&self, acts0: Seq<V>, ar: Arith<V>) -> Seq<V> {
        let last = last_row(self.forward_edges());
        let (acts, sum) = self.swept(acts0, ar, last, self.forward_edges().values@.len() as int);
        acts.update(last, ar.activate(sum, self.bias_values()[last]))
    }

    /// `after` is what a forward pass with the given operations leaves of the
    /// activations `before`: the result of the pass under every arithmetic
    /// that the operations compute.
    pub open spec fn forward_outcome<A: Fn(V, V) -> V, M: Fn(V, V) -> V, P: Fn(V) -> bool>(
        &self,
        before: Seq<V>,
        after: Seq<V>,
        zero: V,
        plus: A,
        times: M,
        positive: P,
    ) -> bool {
        forall|ar: Arith<V>|
            implements(ar, zero, plus, times, positive) ==> after == #[trigger] self.forward_result(before, ar)
    }

    /// Builds the network of `biases.len()` nodes with the given edges: the
    /// forward matrix from the edges as they stand, the backward matrix from
    /// their transpose. Edges are not checked against the number of nodes.
    pub fn from_coo(biases: Vec<V>, edges: &CooMatrix<V>, input: usize, output: usize) -> (net: Self)
        ensures
            net.bias_values() == biases@,
            net.input_count() == input,
            net.output_count() == output,
            net.node_count() == biases@.len(),
            net.edge_count() == edges@.len(),
            net.forward_edges().represents(edges@),
            net.backward_edges().represents(transposed(edges@)),
            biases@.len() > 0 && within(edges@, biases@.len() as int, biases@.len() as int)
                ==> net.evaluable(),
    {
        let mut edges_forward = CsrMatrix::new();
        edges_forward.from_coo(edges, biases.len());

        let mut edges_backward = CsrMatrix::new();
        edges_backward.from_coo_tr(edges, biases.len());

        let num_edges: usize = edges.len();
        proof {
            if within(edges@, biases@.len() as int, biases@.len() as int) {
                lemma_by_rows_within(edges@, biases@.len() as int, biases@.len() as int);
            }
        }
        SparseNet {
            num_vertices: biases.len(),
            num_edges,
            biases,
            edges_forward,
            edges_backward,
            input,
            output,
        }
    }

    /// The number of nodes.
    pub fn num_vertices(&self) -> (n: usize)
        ensures
            n == self.node_count(),
    {
        self.num_vertices
    }

    /// The number of edges.
    pub fn num_edges(&self) -> (n: usize)
        ensures
            n == self.edge_count(),
    {
        self.num_edges
    }

    /// The edges by target node.
    pub fn edges_forward(&self) -> (m: &CsrMatrix<V>)
        ensures
            *m == self.forward_edges(),
    {
        &self.edges_forward
    }

    /// The edges by source node.
    pub fn edges_backward(&self) -> (m: &CsrMatrix<V>)
        ensures
            *m == self.backward_edges(),
    {
        &self.edges_backward
    }

    /// Whether the network can be evaluated.
    pub fn is_evaluable(&self) -> (ok: bool)
        ensures
            ok == self.evaluable(),
    {
        let n: usize = self.num_vertices;
        if n == 0 || self.biases.len() != n || !self.edges_forward.is_wf() {
            return false;
        }
        let ghost all = self.edges_forward.triples();
        let ghost mut p: int = 0;
        let mut it = self.edges_forward.into_iter();
        let mut next = it.next();
        while next.is_some()
            invariant
                n == self.num_vertices,
                it.wf(),
                it.matrix() == self.edges_forward,
                all == self.edges_forward.triples(),
                0 <= p <= all.len(),
                match next {
                    Some(e) => p < all.len() && e == all[p] && it.position() == p + 1,
                    None => p == all.len(),
                },
                within(all.take(p), n as int, n as int),
            decreases all.len() - p,
        {
            let entry = next.unwrap();
            if entry.i >= n || entry.j >= n {
                assert(!(all[p].i < n && all[p].j < n));
                return false;
            }
            proof {
                assert forall|q: int| 0 <= q < p + 1 implies (#[trigger] all.take(p + 1)[q]).i < n
                    && all.take(p + 1)[q].j < n by {
                    if q < p {
                        assert(all.take(p + 1)[q] == all.take(p)[q]);
                    }
                }
                p = p + 1;
            }
            next = it.next();
        }
        assert(all.take(p) == all);
        true
    }

    /// The forward edges as a directed graph in the DOT language.
    pub fn to_graphviz(&self) -> (text: String)
        requires
            self.forward_edges().wf(),
        ensures
            text@ == graph_text(self.forward_edges().triples()),
    {
        self.edges_forward.to_graphviz()
    }

    /// Fresh buffers for this network, every slot holding `zero`: an
    /// activation and a bias gradient for each node, a weight gradient for
    /// each edge.
    pub fn new_data(&self, zero: V) -> (data: SparseNetData<V>)
        ensures
            data.activations@ == Seq::new(self.node_count(), |k: int| zero),
            data.d_biases@ == Seq::new(self.node_count(), |k: int| zero),
            data.d_weights@ == Seq::new(self.edge_count(), |k: int| zero),
    {
        SparseNetData {
            activations: filled(zero, self.num_vertices),
            d_biases: filled(zero, self.num_vertices),
            d_weights: filled(zero, self.num_edges),
        }
    }

    /// Copies the first `self.input` values of `input` into the activations
    /// of the input nodes. The other activations stay.
    pub fn load_input(&self, data: &mut SparseNetData<V>, input: &[V])
        requires
            self.input_count() <= input@.len(),
            self.input_count() <= old(data).activations@.len(),
        ensures
            final(data).activations@ == input@.take(self.input_count() as int) + old(
                data,
            ).activations@.skip(self.input_count() as int),
            final(data).d_biases == old(data).d_biases,
            final(data).d_weights == old(data).d_weights,
    {
        let mut i: usize = 0;
        while i < self.input
            invariant
                i <= self.input,
                self.input <= input@.len(),
                data.activations@.len() == old(data).activations@.len(),
                self.input <= data.activations@.len(),
                data.activations@ == input@.take(i as int) + old(data).activations@.skip(i as int),
                data.d_biases == old(data).d_biases,
                data.d_weights == old(data).d_weights,
            decreases self.input - i,
        {
            let ghost before = data.activations@;
            let value = input[i];
            data.activations.set(i, value);
            i += 1;
            proof {
                let after = input@.take(i as int) + old(data).activations@.skip(i as int);
                assert(value == input@[i - 1]);
                assert(data.activations@ == before.update(i - 1, value));
                assert forall|q: int| 0 <= q < after.len() implies data.activations@[q] == after[q] by {
                    if q < i - 1 {
                        assert(before[q] == input@.take(i - 1)[q]);
                    } else if q >= i {
                        assert(before[q] == old(data).activations@.skip(i - 1)[q - (i - 1)]);
                    }
                }
                assert(data.activations@ =~= after);
            }
        }
    }

    /// One forward pass. The forward edges are read row by row. Reaching an
    /// edge of a later row settles the nodes before that row: a node past
    /// the inputs gets `relu(sum + bias)` and the sum starts again at `zero`;
    /// an input node keeps what was loaded. Each edge then adds
    /// `activation[column] * weight` to the sum. After the last edge the
    /// node of its row is settled the same way.
    pub fn forward<A: Fn(V, V) -> V, M: Fn(V, V) -> V, P: Fn(V) -> bool>(
        &self,
        data: &mut SparseNetData<V>,
        zero: V,
        plus: A,
        times: M,
        positive: P,
    )
        requires
            self.evaluable(),
            old(data).activations@.len() == self.node_count(),
            total2(plus),
            total2(times),
            total1(positive),
        ensures
            final(data).activations@.len() == old(data).activations@.len(),
            final(data).d_biases == old(data).d_biases,
            final(data).d_weights == old(data).d_weights,
            self.forward_outcome(
                old(data).activations@,
                final(data).activations@,
                zero,
                plus,
                times,
                positive,
            ),
    {
        let ghost csr = self.edges_forward;
        let ghost ext = csr.row_extents@;
        let ghost total = csr.values@.len() as int;
        let ghost acts0 = data.activations@;
        let ghost mut p: int = 0;
        let mut sum: V = zero;
        let mut neuron: usize = 0;
        let mut it = self.edges_forward.into_iter();
        let mut next = it.next();
        proof {
            assert(ext.len() <= usize::MAX) by {
                assert(self.edges_forward.row_extents.len() <= usize::MAX);
            }
            lemma_extent_sum_monotone(ext, 0, 1);
        }
        while next.is_some()
            invariant
                self.evaluable(),
                csr == self.edges_forward,
                ext == csr.row_extents@,
                ext.len() <= usize::MAX,
                total == csr.values@.len(),
                total2(plus),
                total2(times),
                total1(positive),
                it.wf(),
                it.matrix() == csr,
                0 <= p <= total,
                match next {
                    Some(e) => p < total && e == csr.triples()[p] && it.position() == p + 1,
                    None => p == total,
                },
                neuron < self.num_vertices,
                data.activations@.len() == self.num_vertices,
                data.d_biases == old(data).d_biases,
                data.d_weights == old(data).d_weights,
                extent_sum(ext, neuron as int) <= p <= extent_sum(ext, neuron + 1),
                p == 0 ==> neuron == 0,
                p > 0 ==> neuron == csr.row_of(p - 1),
                forall|ar: Arith<V>|
                    implements(ar, zero, plus, times, positive) ==> (data.activations@, sum)
                        == #[trigger] self.swept(acts0, ar, neuron as int, p),
            decreases total - p,
        {
            let entry = next.unwrap();
            proof {
                lemma_row_from_bounds(ext, p, 0);
                assert(entry.i == csr.row_of(p));
                if neuron > entry.i {
                    lemma_extent_sum_monotone(ext, entry.i + 1, neuron as int);
                }
            }
            while neuron < entry.i && neuron < self.num_vertices
                invariant
                    self.evaluable(),
                    csr == self.edges_forward,
                    ext == csr.row_extents@,
                    total2(plus),
                    total1(positive),
                    neuron <= entry.i,
                    entry.i < self.num_vertices,
                    entry.i < ext.len(),
                    extent_sum(ext, entry.i as int) <= p,
                    data.activations@.len() == self.num_vertices,
                    data.d_biases == old(data).d_biases,
                    data.d_weights == old(data).d_weights,
                    extent_sum(ext, neuron as int) <= p <= extent_sum(ext, neuron + 1),
                    forall|ar: Arith<V>|
                        implements(ar, zero, plus, times, positive) ==> (data.activations@, sum)
                            == #[trigger] self.swept(acts0, ar, neuron as int, p),
                decreases entry.i - neuron,
            {
                let ghost acts = data.activations@;
                let ghost full = sum;
                proof {
                    lemma_extent_sum_monotone(ext, neuron + 1, entry.i as int);
                    lemma_extent_sum_monotone(ext, neuron + 1, neuron + 2);
                }
                if neuron >= self.input {
                    let raised = plus(sum, self.biases[neuron]);
                    let value = relu(raised, zero, &positive);
                    data.activations.set(neuron, value);
                    sum = zero;
                }
                neuron += 1;
                proof {
                    assert forall|ar: Arith<V>|
                        implements(ar, zero, plus, times, positive) implies (data.activations@, sum)
                        == #[trigger] self.swept(acts0, ar, neuron as int, p) by {
                        assert((acts, full) == self.swept(acts0, ar, neuron - 1, p));
                    }
                }
            }
            let ghost acts = data.activations@;
            let ghost partial = sum;
            let product = times(data.activations[entry.j], entry.value);
            sum = plus(sum, product);
            proof {
                assert forall|ar: Arith<V>|
                    implements(ar, zero, plus, times, positive) implies (data.activations@, sum)
                    == #[trigger] self.swept(acts0, ar, neuron as int, p + 1) by {
                    assert((acts, partial) == self.swept(acts0, ar, neuron as int, p));
                }
                p = p + 1;
            }
            next = it.next();
        }
        let raised = plus(sum, self.biases[neuron]);
        let value = relu(raised, zero, &positive);
        let ghost acts = data.activations@;
        let ghost full = sum;
        data.activations.set(neuron, value);
        proof {
            assert forall|ar: Arith<V>|
                implements(ar, zero, plus, times, positive) implies data.activations@
                == #[trigger] self.forward_result(acts0, ar) by {
                assert((acts, full) == self.swept(acts0, ar, neuron as int, total));
            }
        }
    }

    /// The activations of the output nodes: the last `self.output` slots.
    pub fn get_output<'a>(&self, data: &'a SparseNetData<V>) -> (out: &'a [V])
        requires
            self.output_count() <= data.activations@.len(),
        ensures
            out@ == data.activations@.skip(data.activations@.len() - self.output_count()),
    {
        let n: usize = data.activations.len();
        let out = vstd::slice::slice_subrange(data.activations.as_slice(), n - self.output, n);
        assert(out@ =~= data.activations@.skip(n - self.output));
        out
    }
}

/// Grouping by row moves edges and changes none: edges inside a bound stay
/// inside it.
pub proof fn lemma_by_rows_within<V>(m: Seq<CooEntry<V>>, rows: int, cols: int)
    requires
        m.len() <= usize::MAX,
        within(m, rows, cols),
    ensures
        within(by_rows(m), rows, cols),
{
    lemma_stable_order(crate::csr::rows_of(m));
}

/// A forward pass is a function of the network, the arithmetic and the
/// activations it starts from: with operations that compute an arithmetic,
/// two passes from the same activations end in the same activations.
pub proof fn lemma_forward_deterministic<V: Copy, A: Fn(V, V) -> V, M: Fn(V, V) -> V, P: Fn(V) -> bool>(
    net: SparseNet<V>,
    start: Seq<V>,
    first: Seq<V>,
    second: Seq<V>,
    ar: Arith<V>,
    zero: V,
    plus: A,
    times: M,
    positive: P,
)
    requires
        implements(ar, zero, plus, times, positive),
        net.forward_outcome(start, first, zero, plus, times, positive),
        net.forward_outcome(start, second, zero, plus, times, positive),
    ensures
        first == second,
        first == net.forward_result(start, ar),
{
}

/// Settling nodes changes no length.
pub proof fn lemma_before_row_len<V: Copy>(net: SparseNet<V>, acts0: Seq<V>, ar: Arith<V>, r: int)
    requires
        r <= acts0.len(),
    ensures
        net.before_row(acts0, ar, r).0.len() == acts0.len(),
    decreases r,
{
    if r > 0 {
        lemma_before_row_len(net, acts0, ar, r - 1);
    }
}

/// Once a node is settled, reading later rows leaves its activation alone.
pub proof fn lemma_before_row_keeps<V: Copy>(
    net: SparseNet<V>,
    acts0: Seq<V>,
    ar: Arith<V>,
    node: int,
    r: int,
)
    requires
        0 <= node < r <= acts0.len(),
    ensures
        net.before_row(acts0, ar, r).0[node] == net.before_row(acts0, ar, node + 1).0[node],
    decreases r,
{
    if r > node + 1 {
        lemma_before_row_keeps(net, acts0, ar, node, r - 1);
        lemma_before_row_len(net, acts0, ar, r - 1);
    }
}

/// Input rows without edges pass nothing on: the activations stand as loaded
/// and the carried sum is zero.
pub proof fn lemma_empty_rows_carry<V: Copy>(net: SparseNet<V>, acts0: Seq<V>, ar: Arith<V>, r: int)
    requires
        0 <= r <= net.input_count(),
        forall|x: int| 0 <= x < r ==> #[trigger] net.forward_edges().row_extents@[x] == 0,
    ensures
        net.before_row(acts0, ar, r) == (acts0, ar.zero),
    decreases r,
{
    if r > 0 {
        lemma_empty_rows_carry(net, acts0, ar, r - 1);
        assert(net.forward_edges().row_extents@[r - 1] == 0);
    }
}

/// A row in which no edge lies has extent 0.
pub proof fn lemma_empty_row_extent<V>(csr: CsrMatrix<V>, x: int)
    requires
        csr.wf(),
        0 <= x < csr.row_extents@.len(),
        forall|p: int| 0 <= p < csr.triples().len() ==> (#[trigger] csr.triples()[p]).i != x,
    ensures
        csr.row_extents@[x] == 0,
{
    let ext = csr.row_extents@;
    assert(ext.len() <= usize::MAX) by {
        assert(csr.row_extents.len() <= usize::MAX);
    }
    if ext[x] > 0 {
        let p = extent_sum(ext, x);
        lemma_extent_sum_monotone(ext, 0, x);
        lemma_extent_sum_monotone(ext, x + 1, ext.len() as int);
        lemma_row_from(ext, p, 0, x);
        assert(csr.triples()[p].i == x);
    }
}

/// A node past the inputs whose row holds no edge ends at
/// `relu(zero + bias)`. This holds of the nodes that the pass reaches, those
/// up to the last row with an edge, and where the sum carried into the node
/// is zero: the node is not the first one past the inputs, or no input row
/// holds an edge.
pub proof fn lemma_no_incoming_edges<V: Copy>(net: SparseNet<V>, start: Seq<V>, ar: Arith<V>, node: int)
    requires
        net.evaluable(),
        start.len() == net.node_count(),
        net.input_count() <= node <= last_row(net.forward_edges()),
        forall|p: int|
            0 <= p < net.forward_edges().triples().len() ==> (#[trigger] net.forward_edges().triples()[p]).i
                != node,
        node > net.input_count() || forall|p: int|
            0 <= p < net.forward_edges().triples().len() ==> (#[trigger] net.forward_edges().triples()[p]).i
                > node,
    ensures
        net.forward_result(start, ar)[node] == ar.activate(ar.zero, net.bias_values()[node]),
{
    let csr = net.forward_edges();
    let ext = csr.row_extents@;
    let total = csr.values@.len() as int;
    let last = last_row(csr);
    assert(ext.len() <= usize::MAX) by {
        assert(csr.row_extents.len() <= usize::MAX);
    }
    assert(csr.triples().len() == total);
    if total == 0 {
        lemma_extent_sum_monotone(ext, 0, 0);
    } else {
        lemma_row_from_bounds(ext, total - 1, 0);
        assert(csr.triples()[total - 1].i == last);
        assert(node < last);
        lemma_empty_row_extent(csr, node);
        if node > net.input_count() {
            assert(net.before_row(start, ar, node).1 == ar.zero);
        } else {
            assert forall|x: int| 0 <= x < node implies #[trigger] ext[x] == 0 by {
                lemma_empty_row_extent(csr, x);
            }
            lemma_empty_rows_carry(net, start, ar, node);
        }
        lemma_before_row_len(net, start, ar, node);
        lemma_before_row_len(net, start, ar, last);
        lemma_before_row_keeps(net, start, ar, node, last);
    }
}

/// The sum of a row reads the activations at the row's columns only.
pub proof fn lemma_row_sum_agrees<V>(
    csr: CsrMatrix<V>,
    a1: Seq<V>,
    a2: Seq<V>,
    ar: Arith<V>,
    r: int,
    k: int,
    start: V,
)
    requires
        forall|x: int|
            0 <= x < k ==> a1[csr.col_indices@[extent_sum(csr.row_extents@, r) + x] as int]
                == a2[#[trigger] csr.col_indices@[extent_sum(csr.row_extents@, r) + x] as int],
    ensures
        row_sum(csr, a1, ar, r, k, start) == row_sum(csr, a2, ar, r, k, start),
    decreases k,
{
    if k > 0 {
        lemma_row_sum_agrees(csr, a1, a2, ar, r, k - 1, start);
        let p = extent_sum(csr.row_extents@, r) + (k - 1);
        assert(a1[csr.col_indices@[p] as int] == a2[csr.col_indices@[p] as int]);
    }
}

/// Before row `r` is read, the nodes from `r` on and the input nodes hold
/// what the pass started from.
pub proof fn lemma_before_row_untouched<V: Copy>(
    net: SparseNet<V>,
    acts0: Seq<V>,
    ar: Arith<V>,
    r: int,
    x: int,
)
    requires
        r <= acts0.len(),
        0 <= x < acts0.len(),
        x >= r || x < net.input_count(),
    ensures
        net.before_row(acts0, ar, r).0[x] == acts0[x],
    decreases r,
{
    if r > 0 {
        lemma_before_row_untouched(net, acts0, ar, r - 1, x);
        lemma_before_row_len(net, acts0, ar, r - 1);
    }
}

/// In a network whose nodes are in topological order, a forward pass gives
/// every node from the first one past the inputs to the last one with an
/// edge the activation `relu(sum + bias)`, the sum taken over the node's
/// incoming edges of `weight * activation[source]` with the activations that
/// the pass ends with. All other nodes keep the activation they started
/// with. Topological order means here that every edge leads from a node to a
/// later one, and that no edge leads into an input node.
pub proof fn lemma_forward_topological<V: Copy>(net: SparseNet<V>, start: Seq<V>, ar: Arith<V>)
    requires
        net.evaluable(),
        start.len() == net.node_count(),
        net.forward_edges().values@.len() > 0,
        forall|p: int|
            #![trigger net.forward_edges().triples()[p]]
            0 <= p < net.forward_edges().triples().len() ==> {
                let e = net.forward_edges().triples()[p];
                e.j < e.i && e.i >= net.input_count()
            },
    ensures
        net.forward_result(start, ar).len() == start.len(),
        forall|n: int|
            net.input_count() <= n <= last_row(net.forward_edges()) ==> #[trigger] net.forward_result(
                start,
                ar,
            )[n] == ar.activate(
                row_sum(
                    net.forward_edges(),
                    net.forward_result(start, ar),
                    ar,
                    n,
                    net.forward_edges().row_extents@[n] as int,
                    ar.zero,
                ),
                net.bias_values()[n],
            ),
        forall|n: int|
            0 <= n < start.len() && (n < net.input_count() || n > last_row(net.forward_edges()))
                ==> #[trigger] net.forward_result(start, ar)[n] == start[n],
{
    let csr = net.forward_edges();
    let ext = csr.row_extents@;
    let total = csr.values@.len() as int;
    let last = last_row(csr);
    let result = net.forward_result(start, ar);
    let settled = net.before_row(start, ar, last).0;
    assert(ext.len() <= usize::MAX) by {
        assert(csr.row_extents.len() <= usize::MAX);
    }
    assert(csr.triples().len() == total);
    lemma_row_from_bounds(ext, total - 1, 0);
    assert(csr.triples()[total - 1].i == last);
    lemma_extent_sum_monotone(ext, last + 1, ext.len() as int);
    lemma_before_row_len(net, start, ar, last);
    assert forall|n: int| net.input_count() <= n <= last implies #[trigger] result[n] == ar.activate(
        row_sum(csr, result, ar, n, ext[n] as int, ar.zero),
        net.bias_values()[n],
    ) by {
        let before = net.before_row(start, ar, n);
        lemma_before_row_len(net, start, ar, n);
        if n > net.input_count() {
            assert(before.1 == ar.zero);
        } else {
            assert forall|x: int| 0 <= x < n implies #[trigger] ext[x] == 0 by {
                lemma_empty_row_extent(csr, x);
            }
            lemma_empty_rows_carry(net, start, ar, n);
        }
        lemma_extent_sum_monotone(ext, 0, n);
        lemma_extent_sum_monotone(ext, n + 1, ext.len() as int);
        assert forall|x: int| 0 <= x < ext[n] implies before.0[csr.col_indices@[extent_sum(ext, n)
            + x] as int] == result[#[trigger] csr.col_indices@[extent_sum(ext, n) + x] as int] by {
            let p = extent_sum(ext, n) + x;
            lemma_row_from(ext, p, 0, n);
            let j = csr.triples()[p].j as int;
            assert(j == csr.col_indices@[p]);
            assert(j < n);
            if j + 1 < n {
                lemma_before_row_keeps(net, start, ar, j, n);
            }
            if j + 1 < last {
                lemma_before_row_keeps(net, start, ar, j, last);
            }
        }
        lemma_row_sum_agrees(csr, before.0, result, ar, n, ext[n] as int, ar.zero);
        if n < last {
            lemma_before_row_keeps(net, start, ar, n, last);
        }
    }
    assert forall|n: int|
        0 <= n < start.len() && (n < net.input_count() || n > last) implies #[trigger] result[n]
        == start[n] by {
        lemma_before_row_untouched(net, start, ar, last, n);
    }
}

} // verus!
