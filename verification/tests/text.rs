use sparse_net::render::append_decimal;
use sparse_net::{CooMatrix, CsrMatrix, SparseNet};

fn numeral(n: usize) -> String {
    let mut s = String::new();
    append_decimal(&mut s, n);
    s
}

#[test]
fn append_decimal_writes_numerals() {
    assert_eq!(numeral(0), "0");
    assert_eq!(numeral(7), "7");
    assert_eq!(numeral(9), "9");
    assert_eq!(numeral(10), "10");
    assert_eq!(numeral(99), "99");
    assert_eq!(numeral(100), "100");
    assert_eq!(numeral(1234567890), "1234567890");
    assert_eq!(numeral(usize::MAX), format!("{}", usize::MAX));
}

#[test]
fn append_decimal_keeps_what_is_there() {
    let mut s = String::from("x = ");
    append_decimal(&mut s, 405);
    assert_eq!(s, "x = 405");
}

#[test]
fn graph_of_an_empty_matrix() {
    let csr: CsrMatrix<f32> = CsrMatrix::new();
    assert_eq!(
        csr.to_graphviz(),
        "digraph {\n  graph [rankdir=LR];\n  node [shape=point];\n}\n"
    );
}

#[test]
fn graph_lists_edges_in_row_order() {
    let mut coo: CooMatrix<f32> = CooMatrix::new();
    coo.push(12, 3, 1.0);
    coo.push(1, 0, 1.0);
    coo.push(12, 100, 1.0);
    let mut csr = CsrMatrix::new();
    csr.from_coo(&coo, 13);
    assert_eq!(
        csr.to_graphviz(),
        "digraph {\n  graph [rankdir=LR];\n  node [shape=point];\n  1 -> 0;\n  12 -> 3;\n  12 -> 100;\n}\n"
    );
}

#[test]
fn graph_of_a_network_shows_the_forward_edges() {
    let mut coo: CooMatrix<f32> = CooMatrix::new();
    coo.push(2, 1, 1.0);
    coo.push(1, 0, 1.0);
    let net = SparseNet::from_coo(vec![0.0, 0.0, 0.0], &coo, 1, 1);
    assert_eq!(
        net.to_graphviz(),
        "digraph {\n  graph [rankdir=LR];\n  node [shape=point];\n  1 -> 0;\n  2 -> 1;\n}\n"
    );
}
