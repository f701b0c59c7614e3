//! The edges of a matrix as a directed graph in the DOT language.

use crate::coo::CooEntry;
use crate::csr::CsrMatrix;
use vstd::prelude::*;
use vstd::string::StringExecFns;

verus! {

/// The character of the decimal digit `d`.
pub open spec fn digit(d: nat) -> char {
    if d == 0 {
        '0'
    } else if d == 1 {
        '1'
    } else if d == 2 {
        '2'
    } else if d == 3 {
        '3'
    } else if d == 4 {
        '4'
    } else if d == 5 {
        '5'
    } else if d == 6 {
        '6'
    } else if d == 7 {
        '7'
    } else if d == 8 {
        '8'
    } else {
        '9'
    }
}

/// The decimal numeral of `n`, without leading zeros.
pub open spec fn decimal(n: nat) -> Seq<char>
    decreases n,
{
    if n < 10 {
        seq![digit(n)]
    } else {
        decimal(n / 10).push(digit(n % 10))
    }
}

/// The statement of one edge: two spaces, the row, ` -> `, the column, `;`
/// and a line feed.
pub open spec fn edge_line(i: usize, j: usize) -> Seq<char> {
    "  "@ + decimal(i as nat) + " -> "@ + decimal(j as nat) + ";\n"@
}

/// The statements of the edges, in their order.
pub open spec fn edge_lines<V>(edges: Seq<CooEntry<V>>) -> Seq<char>
    decreases edges.len(),
{
    if edges.len() == 0 {
        Seq::empty()
    } else {
        edge_lines(edges.drop_last()) + edge_line(edges.last().i, edges.last().j)
    }
}

/// The whole graph: the opening of the block, the layout direction, the node
/// shape, a statement for each edge, and the closing brace.
pub open spec fn graph_text<V>(edges: Seq<CooEntry<V>>) -> Seq<char> {
    "digraph {\n"@ + "  graph [rankdir=LR];\n"@ + "  node [shape=point];\n"@ + edge_lines(edges)
        + "}\n"@
}

/// The numeral of one digit.
fn digit_text(d: usize) -> (s: &'static str)
    requires
        d < 10,
    ensures
        s@ == seq![digit(d as nat)],
{
    proof {
        reveal_strlit("0");
        reveal_strlit("1");
        reveal_strlit("2");
        reveal_strlit("3");
        reveal_strlit("4");
        reveal_strlit("5");
        reveal_strlit("6");
        reveal_strlit("7");
        reveal_strlit("8");
        reveal_strlit("9");
    }
    let s = if d == 0 {
        "0"
    } else if d == 1 {
        "1"
    } else if d == 2 {
        "2"
    } else if d == 3 {
        "3"
    } else if d == 4 {
        "4"
    } else if d == 5 {
        "5"
    } else if d == 6 {
        "6"
    } else if d == 7 {
        "7"
    } else if d == 8 {
        "8"
    } else {
        "9"
    };
    assert(s@ =~= seq![digit(d as nat)]);
    s
}

/// Appends the decimal numeral of `n` to `out`.
pub fn append_decimal(out: &mut String, n: usize)
    ensures
        final(out)@ == old(out)@ + decimal(n as nat),
    decreases n,
{
    if n >= 10 {
        append_decimal(out, n / 10);
    }
    out.append(digit_text(n % 10));
    assert(out@ =~= old(out)@ + decimal(n as nat));
}

impl<V: Copy> CsrMatrix<V> {
    /// The matrix as a directed graph in the DOT language, one statement
    /// `i -> j;` for each edge in row order.
    pub fn to_graphviz(&self) -> (text: String)
        requires
            self.wf(),
        ensures
            text@ == graph_text(self.triples()),
    {
        let mut text = String::from_str("digraph {\n");
        text.append("  graph [rankdir=LR];\n");
        text.append("  node [shape=point];\n");
        let ghost head = text@;
        let ghost all = self.triples();
        let ghost mut p: int = 0;
        let mut it = self.into_iter();
        let mut next = it.next();
        while next.is_some()
            invariant
                it.wf(),
                it.matrix() == *self,
                all == self.triples(),
                0 <= p <= all.len(),
                match next {
                    Some(e) => p < all.len() && e == all[p] && it.position() == p + 1,
                    None => p == all.len(),
                },
                text@ == head + edge_lines(all.take(p)),
            decreases all.len() - p,
        {
            let entry = next.unwrap();
            text.append("  ");
            append_decimal(&mut text, entry.i);
            text.append(" -> ");
            append_decimal(&mut text, entry.j);
            text.append(";\n");
            proof {
                assert(all.take(p + 1).drop_last() == all.take(p));
                assert(all.take(p + 1).last() == entry);
                assert(text@ =~= head + edge_lines(all.take(p + 1)));
                p = p + 1;
            }
            next = it.next();
        }
        text.append("}\n");
        proof {
            assert(all.take(p) == all);
            assert(text@ =~= graph_text(all));
        }
        text
    }
}

} // verus!
