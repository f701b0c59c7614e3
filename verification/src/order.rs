//! The stable arrangement of positions by key: the order in which edges are
//! laid out when they are grouped by row.

use vstd::prelude::*;
use vstd::relations::{sorted_by, total_ordering};
use vstd::seq_lib::{
    group_to_multiset_ensures, lemma_multiset_commutative, lemma_sorted_unique, to_multiset_build,
};

verus! {

/// The key of position `a`; positions past the end count as key 0.
pub open spec fn key_of(keys: Seq<usize>, a: usize) -> int {
    if a < keys.len() {
        keys[a as int] as int
    } else {
        0
    }
}

/// Position `a` is laid out no later than position `b`: its key is smaller,
/// or the keys are equal and `a` is the earlier position.
pub open spec fn precedes(keys: Seq<usize>, a: usize, b: usize) -> bool {
    key_of(keys, a) < key_of(keys, b) || (key_of(keys, a) == key_of(keys, b) && a <= b)
}

/// `precedes` as a relation on positions.
pub open spec fn key_order(keys: Seq<usize>) -> spec_fn(usize, usize) -> bool {
    |a: usize, b: usize| precedes(keys, a, b)
}

/// The positions `lo, lo + 1, .., hi - 1`.
pub open spec fn positions(lo: int, hi: int) -> Seq<usize> {
    Seq::new((hi - lo) as nat, |k: int| (lo + k) as usize)
}

/// The positions `0..keys.len()` sorted by key, positions with equal keys
/// in ascending order.
pub open spec fn stable_order(keys: Seq<usize>) -> Seq<usize> {
    positions(0, keys.len() as int).sort_by(key_order(keys))
}

/// `s` is laid out by key, ties by position.
pub open spec fn ordered(keys: Seq<usize>, s: Seq<usize>) -> bool {
    forall|p: int, q: int| 0 <= p < q < s.len() ==> precedes(keys, #[trigger] s[p], #[trigger] s[q])
}

/// Every element of `s` is a position below `n`.
pub open spec fn below(s: Seq<usize>, n: int) -> bool {
    forall|p: int| 0 <= p < s.len() ==> (#[trigger] s[p]) < n
}

pub proof fn lemma_key_order_total(keys: Seq<usize>)
    ensures
        total_ordering(key_order(keys)),
{
    let leq = key_order(keys);
    assert forall|x: usize, y: usize| #[trigger] leq(x, y) || #[trigger] leq(y, x) by {
        assert(precedes(keys, x, y) || precedes(keys, y, x));
    }
    assert forall|x: usize, y: usize, z: usize| #[trigger] leq(x, y) && #[trigger] leq(y, z) implies leq(x, z) by {
        assert(precedes(keys, x, y) && precedes(keys, y, z));
    }
    assert forall|x: usize, y: usize| #[trigger] leq(x, y) && #[trigger] leq(y, x) implies x == y by {
        assert(precedes(keys, x, y) && precedes(keys, y, x));
    }
    assert forall|x: usize| #[trigger] leq(x, x) by {
        assert(precedes(keys, x, x));
    }
}

/// What characterises the stable order: it holds each position exactly once,
/// keys never decrease along it, and of two positions with equal keys the
/// earlier one comes first.
pub proof fn lemma_stable_order(keys: Seq<usize>)
    requires
        keys.len() <= usize::MAX,
    ensures
        stable_order(keys).len() == keys.len(),
        stable_order(keys).to_multiset() == positions(0, keys.len() as int).to_multiset(),
        below(stable_order(keys), keys.len() as int),
        stable_order(keys).no_duplicates(),
        forall|k: usize| k < keys.len() ==> #[trigger] stable_order(keys).contains(k),
        ordered(keys, stable_order(keys)),
        forall|p: int, q: int|
            #![trigger stable_order(keys)[p], stable_order(keys)[q]]
            0 <= p < q < keys.len() ==> {
                let a = stable_order(keys)[p];
                let b = stable_order(keys)[q];
                keys[a as int] < keys[b as int] || (keys[a as int] == keys[b as int] && a < b)
            },
{
    broadcast use group_to_multiset_ensures;

    let all = positions(0, keys.len() as int);
    let s = stable_order(keys);
    lemma_key_order_total(keys);
    all.lemma_sort_by_ensures(key_order(keys));
    assert(s.len() == s.to_multiset().len());
    assert(all.len() == all.to_multiset().len());
    assert forall|p: int| 0 <= p < s.len() implies (#[trigger] s[p]) < keys.len() by {
        assert(s.to_multiset().count(s[p]) > 0);
        assert(all.contains(s[p]));
    }
    assert forall|k: usize| k < keys.len() implies #[trigger] s.contains(k) by {
        assert(all[k as int] == k);
        assert(all.to_multiset().count(k) > 0);
    }
    assert(all.no_duplicates());
    all.lemma_multiset_has_no_duplicates();
    s.lemma_multiset_has_no_duplicates_conv();
    assert forall|p: int, q: int| 0 <= p < q < s.len() implies precedes(
        keys,
        #[trigger] s[p],
        #[trigger] s[q],
    ) by {
        assert(key_order(keys)(s[p], s[q]));
    }
}

/// Whether position `a` is laid out no later than position `b`.
fn comes_first(keys: &Vec<usize>, a: usize, b: usize) -> (r: bool)
    requires
        a < keys.len(),
        b < keys.len(),
    ensures
        r == precedes(keys@, a, b),
{
    let ka: usize = keys[a];
    let kb: usize = keys[b];
    ka < kb || (ka == kb && a <= b)
}

/// Merges two ordered runs into one.
fn merge(keys: &Vec<usize>, a: &Vec<usize>, b: &Vec<usize>) -> (out: Vec<usize>)
    requires
        below(a@, keys.len() as int),
        below(b@, keys.len() as int),
        ordered(keys@, a@),
        ordered(keys@, b@),
        a.len() + b.len() <= usize::MAX,
    ensures
        out.len() == a.len() + b.len(),
        below(out@, keys.len() as int),
        ordered(keys@, out@),
        out@.to_multiset() == a@.to_multiset().add(b@.to_multiset()),
{
    broadcast use {group_to_multiset_ensures, vstd::multiset::group_multiset_axioms};

    let mut out: Vec<usize> = Vec::new();
    let mut i: usize = 0;
    let mut j: usize = 0;
    while i < a.len() || j < b.len()
        invariant
            i <= a.len(),
            j <= b.len(),
            a.len() + b.len() <= usize::MAX,
            out.len() == i + j,
            below(a@, keys.len() as int),
            below(b@, keys.len() as int),
            below(out@, keys.len() as int),
            ordered(keys@, a@),
            ordered(keys@, b@),
            ordered(keys@, out@),
            forall|p: int, q: int|
                0 <= p < out.len() && i <= q < a.len() ==> precedes(keys@, #[trigger] out@[p], #[trigger] a@[q]),
            forall|p: int, q: int|
                0 <= p < out.len() && j <= q < b.len() ==> precedes(keys@, #[trigger] out@[p], #[trigger] b@[q]),
            out@.to_multiset() == a@.take(i as int).to_multiset().add(b@.take(j as int).to_multiset()),
        decreases a.len() - i + b.len() - j,
    {
        let left: bool = if i < a.len() && j < b.len() {
            comes_first(keys, a[i], b[j])
        } else {
            i < a.len()
        };
        let ghost before = out@;
        if left {
            let x: usize = a[i];
            out.push(x);
            proof {
                assert(a@.take(i + 1) == a@.take(i as int).push(x));
                assert(out@ == before.push(x));
                to_multiset_build(before, x);
                to_multiset_build(a@.take(i as int), x);
                assert(out@.to_multiset() =~= a@.take(i + 1).to_multiset().add(
                    b@.take(j as int).to_multiset(),
                ));
                assert forall|p: int, q: int| 0 <= p < out.len() && j <= q < b.len() implies precedes(
                    keys@,
                    #[trigger] out@[p],
                    #[trigger] b@[q],
                ) by {
                    if p == before.len() {
                        assert(precedes(keys@, x, b@[j as int]));
                        assert(j < q ==> precedes(keys@, b@[j as int], b@[q]));
                    } else {
                        assert(out@[p] == before[p]);
                    }
                }
                assert forall|p: int, q: int| 0 <= p < q < out.len() implies precedes(
                    keys@,
                    #[trigger] out@[p],
                    #[trigger] out@[q],
                ) by {
                    if q == before.len() {
                        assert(precedes(keys@, before[p], a@[i as int]));
                    } else {
                        assert(precedes(keys@, before[p], before[q]));
                    }
                }
            }
            i += 1;
        } else {
            let y: usize = b[j];
            out.push(y);
            proof {
                assert(b@.take(j + 1) == b@.take(j as int).push(y));
                assert(out@ == before.push(y));
                to_multiset_build(before, y);
                to_multiset_build(b@.take(j as int), y);
                assert(out@.to_multiset() =~= a@.take(i as int).to_multiset().add(
                    b@.take(j + 1).to_multiset(),
                ));
                assert forall|p: int, q: int| 0 <= p < out.len() && i <= q < a.len() implies precedes(
                    keys@,
                    #[trigger] out@[p],
                    #[trigger] a@[q],
                ) by {
                    if p == before.len() {
                        assert(precedes(keys@, y, a@[i as int]));
                        assert(i < q ==> precedes(keys@, a@[i as int], a@[q]));
                    } else {
                        assert(out@[p] == before[p]);
                    }
                }
                assert forall|p: int, q: int| 0 <= p < q < out.len() implies precedes(
                    keys@,
                    #[trigger] out@[p],
                    #[trigger] out@[q],
                ) by {
                    if q == before.len() {
                        assert(precedes(keys@, before[p], b@[j as int]));
                    } else {
                        assert(precedes(keys@, before[p], before[q]));
                    }
                }
            }
            j += 1;
        }
    }
    proof {
        assert(a@.take(i as int) == a@);
        assert(b@.take(j as int) == b@);
    }
    out
}

/// Orders the positions `lo..hi` by merge sort.
fn sort_span(keys: &Vec<usize>, lo: usize, hi: usize) -> (out: Vec<usize>)
    requires
        lo <= hi <= keys.len(),
    ensures
        out.len() == hi - lo,
        below(out@, keys.len() as int),
        ordered(keys@, out@),
        out@.to_multiset() == positions(lo as int, hi as int).to_multiset(),
    decreases hi - lo,
{
    broadcast use group_to_multiset_ensures;

    let mut out: Vec<usize> = Vec::new();
    if hi - lo == 0 {
        proof {
            assert(out@ == positions(lo as int, hi as int));
        }
        out
    } else if hi - lo == 1 {
        out.push(lo);
        proof {
            assert(out@ == positions(lo as int, hi as int));
        }
        out
    } else {
        let mid: usize = lo + (hi - lo) / 2;
        let a = sort_span(keys, lo, mid);
        let b = sort_span(keys, mid, hi);
        proof {
            let left = positions(lo as int, mid as int);
            let right = positions(mid as int, hi as int);
            assert(left + right == positions(lo as int, hi as int));
            lemma_multiset_commutative(left, right);
        }
        merge(keys, &a, &b)
    }
}

/// The positions of `keys` in stable order: by key, positions with equal
/// keys in ascending order.
pub fn sort_positions(keys: &Vec<usize>) -> (order: Vec<usize>)
    ensures
        order@ == stable_order(keys@),
{
    let order = sort_span(keys, 0, keys.len());
    proof {
        let leq = key_order(keys@);
        let all = positions(0, keys.len() as int);
        lemma_key_order_total(keys@);
        all.lemma_sort_by_ensures(leq);
        assert forall|p: int, q: int| 0 <= p < q < order@.len() implies #[trigger] leq(order@[p], order@[q]) by {
            assert(precedes(keys@, order@[p], order@[q]));
        }
        lemma_sorted_unique(order@, all.sort_by(leq), leq);
    }
    order
}

/// Two sequences with the same elements, each as often, still have the same
/// elements after every element is sent through `f`.
pub proof fn lemma_map_multiset<A, B>(s: Seq<A>, t: Seq<A>, f: spec_fn(A) -> B)
    requires
        s.to_multiset() == t.to_multiset(),
    ensures
        s.map_values(f).to_multiset() == t.map_values(f).to_multiset(),
    decreases s.len(),
{
    broadcast use {group_to_multiset_ensures, vstd::multiset::group_multiset_axioms};

    assert(s.len() == t.len()) by {
        assert(s.to_multiset().len() == s.len());
        assert(t.to_multiset().len() == t.len());
    }
    if s.len() == 0 {
        assert(s.map_values(f) =~= t.map_values(f));
    } else {
        let x = s.last();
        let front = s.drop_last();
        assert(s == front.push(x));
        to_multiset_build(front, x);
        assert(t.to_multiset().count(x) > 0);
        assert(t.contains(x));
        let i = choose|i: int| 0 <= i < t.len() && t[i] == x;
        let rest = t.remove(i);
        vstd::seq_lib::to_multiset_remove(t, i);
        assert(front.to_multiset() =~= rest.to_multiset());
        lemma_map_multiset(front, rest, f);
        assert(s.map_values(f) == front.map_values(f).push(f(x)));
        to_multiset_build(front.map_values(f), f(x));
        assert(t.map_values(f).remove(i) == rest.map_values(f));
        vstd::seq_lib::to_multiset_remove(t.map_values(f), i);
        assert(t.map_values(f)[i] == f(x));
        assert(t.map_values(f).to_multiset().count(f(x)) > 0);
        assert(s.map_values(f).to_multiset() =~= t.map_values(f).to_multiset());
    }
}

/// Reading a sequence in stable order keeps its elements, each as often.
pub proof fn lemma_rearranged<A>(keys: Seq<usize>, m: Seq<A>)
    requires
        keys.len() == m.len(),
        keys.len() <= usize::MAX,
    ensures
        stable_order(keys).map_values(|k: usize| m[k as int]).to_multiset() == m.to_multiset(),
{
    let all = positions(0, keys.len() as int);
    let f = |k: usize| m[k as int];
    lemma_stable_order(keys);
    lemma_map_multiset(stable_order(keys), all, f);
    assert(all.map_values(f) == m);
}

} // verus!
