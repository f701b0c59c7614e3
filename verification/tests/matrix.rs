use sparse_net::order::sort_positions;
use sparse_net::{CooEntry, CooMatrix, CsrMatrix};

fn triples(csr: &CsrMatrix<f32>) -> Vec<(usize, usize, f32)> {
    assert!(csr.is_wf());
    csr.into_iter().collect().iter().map(|e| (e.i, e.j, e.value)).collect()
}

fn sample() -> CooMatrix<f32> {
    let mut coo = CooMatrix::new();
    coo.push(3, 1, 0.5);
    coo.push(0, 2, 1.5);
    coo.push(3, 0, -2.0);
    coo.push(1, 1, 4.0);
    coo.push(0, 0, 8.0);
    coo.push(3, 1, 0.25);
    coo
}

#[test]
fn new_matrix_is_empty() {
    let coo: CooMatrix<f32> = CooMatrix::new();
    assert_eq!(coo.len(), 0);
    assert!(coo.entries().is_empty());
}

#[test]
fn push_appends_in_order() {
    let coo = sample();
    assert_eq!(coo.len(), 6);
    let e: &Vec<CooEntry<f32>> = coo.entries();
    assert_eq!((e[0].i, e[0].j, e[0].value), (3, 1, 0.5));
    assert_eq!((e[4].i, e[4].j, e[4].value), (0, 0, 8.0));
    assert_eq!((e[5].i, e[5].j, e[5].value), (3, 1, 0.25));
}

#[test]
fn push_does_not_check_indices() {
    let mut coo: CooMatrix<f32> = CooMatrix::new();
    coo.push(usize::MAX, 12345, 1.0);
    assert_eq!(coo.entries()[0].i, usize::MAX);
    assert_eq!(coo.entries()[0].j, 12345);
}

#[test]
fn fits_tells_bounds() {
    let coo = sample();
    assert!(coo.fits(4, 3));
    assert!(!coo.fits(3, 3));
    assert!(!coo.fits(4, 2));
    assert!(CooMatrix::<f32>::new().fits(0, 0));
}

#[test]
fn random_fills_within_bounds() {
    let mut coo: CooMatrix<f32> = CooMatrix::new();
    coo.push(9, 9, 9.0);
    coo.random(4, 7, 200, || 0.125);
    assert_eq!(coo.len(), 200);
    for e in coo.entries() {
        assert!(e.i < 4);
        assert!(e.j < 7);
        assert_eq!(e.value, 0.125);
    }
}

#[test]
fn random_with_bound_one_gives_index_zero() {
    let mut coo: CooMatrix<f32> = CooMatrix::new();
    coo.random(1, 1, 10, || 1.0);
    assert_eq!(coo.len(), 10);
    for e in coo.entries() {
        assert_eq!((e.i, e.j), (0, 0));
    }
}

#[test]
fn random_without_entries_clears() {
    let mut coo = sample();
    coo.random(0, 0, 0, || 1.0);
    assert_eq!(coo.len(), 0);
}

#[test]
fn mult_into_accumulates_without_clearing() {
    let mut coo: CooMatrix<f32> = CooMatrix::new();
    coo.push(0, 1, 2.0);
    coo.push(1, 0, 3.0);
    coo.push(0, 1, 0.5);
    let v = vec![10.0f32, 100.0];
    let mut r = vec![1.0f32, 1.0];
    coo.mult_into(&v, &mut r, |a, b| a + b, |a, b| a * b);
    assert_eq!(r, vec![1.0 + 200.0 + 50.0, 1.0 + 30.0]);
    coo.mult_into(&v, &mut r, |a, b| a + b, |a, b| a * b);
    assert_eq!(r, vec![501.0, 61.0]);
}

#[test]
fn mult_into_of_empty_matrix_changes_nothing() {
    let coo: CooMatrix<f32> = CooMatrix::new();
    let v: Vec<f32> = vec![];
    let mut r = vec![7.0f32];
    coo.mult_into(&v, &mut r, |a, b| a + b, |a, b| a * b);
    assert_eq!(r, vec![7.0]);
}

#[test]
fn sort_positions_is_stable() {
    let keys = vec![3usize, 0, 3, 1, 0, 3];
    assert_eq!(sort_positions(&keys), vec![1, 4, 3, 0, 2, 5]);
    assert_eq!(sort_positions(&vec![]), Vec::<usize>::new());
    assert_eq!(sort_positions(&vec![5]), vec![0]);
    assert_eq!(sort_positions(&vec![2, 2, 2, 2]), vec![0, 1, 2, 3]);
    assert_eq!(sort_positions(&vec![4, 3, 2, 1, 0]), vec![4, 3, 2, 1, 0]);
}

#[test]
fn new_compressed_matrix_has_no_rows() {
    let csr: CsrMatrix<f32> = CsrMatrix::new();
    assert!(csr.row_extents.is_empty());
    assert!(csr.col_indices.is_empty());
    assert!(csr.values.is_empty());
    assert!(csr.is_wf());
    assert!(triples(&csr).is_empty());
}

#[test]
fn from_coo_groups_by_row() {
    let coo = sample();
    let mut csr = CsrMatrix::new();
    csr.from_coo(&coo, 4);
    assert_eq!(csr.row_extents, vec![2, 1, 0, 3]);
    assert_eq!(csr.col_indices, vec![2, 0, 1, 1, 0, 1]);
    assert_eq!(csr.values, vec![1.5, 8.0, 4.0, 0.5, -2.0, 0.25]);
    assert!(csr.is_wf());
}

#[test]
fn round_trip_keeps_every_edge() {
    let coo = sample();
    let mut csr = CsrMatrix::new();
    csr.from_coo(&coo, 4);
    assert_eq!(csr.row_extents.iter().sum::<usize>(), coo.len());
    let got = triples(&csr);
    assert_eq!(
        got,
        vec![(0, 2, 1.5), (0, 0, 8.0), (1, 1, 4.0), (3, 1, 0.5), (3, 0, -2.0), (3, 1, 0.25)]
    );
    for row in 0..4 {
        let here: Vec<(usize, usize, f32)> = got.iter().copied().filter(|t| t.0 == row).collect();
        let there: Vec<(usize, usize, f32)> = coo
            .entries()
            .iter()
            .filter(|e| e.i == row)
            .map(|e| (e.i, e.j, e.value))
            .collect();
        assert_eq!(here, there);
    }
}

#[test]
fn from_coo_ignores_the_row_hint() {
    let coo = sample();
    let mut a = CsrMatrix::new();
    a.from_coo(&coo, 0);
    let mut b = CsrMatrix::new();
    b.from_coo(&coo, 100);
    assert_eq!(a.row_extents, vec![2, 1, 0, 3]);
    assert_eq!(b.row_extents, vec![2, 1, 0, 3]);
    assert_eq!(triples(&a), triples(&b));
}

#[test]
fn from_coo_takes_any_row_hint() {
    let coo = sample();
    let mut csr = CsrMatrix::new();
    csr.from_coo(&coo, usize::MAX);
    assert_eq!(csr.row_extents, vec![2, 1, 0, 3]);
}

#[test]
fn clone_copies_the_three_parts() {
    let mut csr = CsrMatrix::new();
    csr.from_coo(&sample(), 4);
    let twin = csr.clone();
    assert_eq!(twin.row_extents, csr.row_extents);
    assert_eq!(twin.col_indices, csr.col_indices);
    assert_eq!(twin.values, csr.values);
}

#[test]
fn from_coo_replaces_earlier_contents() {
    let mut csr = CsrMatrix::new();
    csr.from_coo(&sample(), 4);
    let mut small: CooMatrix<f32> = CooMatrix::new();
    small.push(1, 5, 2.0);
    csr.from_coo(&small, 2);
    assert_eq!(csr.row_extents, vec![0, 1]);
    assert_eq!(csr.col_indices, vec![5]);
    assert_eq!(csr.values, vec![2.0]);
}

#[test]
fn from_coo_tr_transposes() {
    let coo = sample();
    let mut csr = CsrMatrix::new();
    csr.from_coo_tr(&coo, 3);
    assert_eq!(csr.row_extents, vec![2, 3, 1]);
    assert_eq!(
        triples(&csr),
        vec![(0, 3, -2.0), (0, 0, 8.0), (1, 3, 0.5), (1, 1, 4.0), (1, 3, 0.25), (2, 0, 1.5)]
    );
    let mut got = triples(&csr);
    let mut want: Vec<(usize, usize, f32)> =
        coo.entries().iter().map(|e| (e.j, e.i, e.value)).collect();
    got.sort_by(|a, b| a.partial_cmp(b).unwrap());
    want.sort_by(|a, b| a.partial_cmp(b).unwrap());
    assert_eq!(got, want);
}

#[test]
fn from_coo_transformed_applies_the_map() {
    let mut coo: CooMatrix<f32> = CooMatrix::new();
    coo.push(0, 0, 1.0);
    coo.push(1, 2, 2.0);
    coo.push(0, 3, 3.0);
    let mut csr = CsrMatrix::new();
    csr.from_coo_transformed(&coo, 3, |i, j| (2 - i, j + 10));
    assert_eq!(csr.row_extents, vec![0, 1, 2]);
    assert_eq!(triples(&csr), vec![(1, 12, 2.0), (2, 10, 1.0), (2, 13, 3.0)]);
}

#[test]
fn empty_matrix_builds_one_empty_row() {
    let coo: CooMatrix<f32> = CooMatrix::new();
    let mut csr = CsrMatrix::new();
    csr.from_coo(&coo, 5);
    assert_eq!(csr.row_extents, vec![0]);
    assert!(csr.col_indices.is_empty());
    assert!(csr.values.is_empty());
    let mut it = csr.into_iter();
    assert!(it.next().is_none());
    assert!(it.next().is_none());
    let mut tr = CsrMatrix::new();
    tr.from_coo_tr(&coo, 5);
    assert_eq!(tr.row_extents, vec![0]);
    assert!(triples(&tr).is_empty());
}

#[test]
fn rows_stop_at_the_largest_row() {
    let mut coo: CooMatrix<f32> = CooMatrix::new();
    coo.push(1, 0, 1.0);
    let mut csr = CsrMatrix::new();
    csr.from_coo(&coo, 10);
    assert_eq!(csr.row_extents, vec![0, 1]);
}

#[test]
fn iterator_skips_empty_rows() {
    let csr = CsrMatrix {
        row_extents: vec![0, 0, 2, 0, 1, 0],
        col_indices: vec![7, 8, 9],
        values: vec![1.0f32, 2.0, 3.0],
    };
    assert!(csr.is_wf());
    assert_eq!(triples(&csr), vec![(2, 7, 1.0), (2, 8, 2.0), (4, 9, 3.0)]);
}

#[test]
fn next_hands_out_edge_by_edge() {
    let mut csr = CsrMatrix::new();
    csr.from_coo(&sample(), 4);
    let mut it = csr.into_iter();
    let mut seen = Vec::new();
    while let Some(e) = it.next() {
        seen.push((e.i, e.j, e.value));
    }
    assert_eq!(seen, triples(&csr));
    assert_eq!(seen.len(), 6);
    assert!(it.next().is_none());
}

#[test]
fn collect_returns_what_is_left() {
    let mut csr = CsrMatrix::new();
    csr.from_coo(&sample(), 4);
    let mut it = csr.into_iter();
    it.next();
    it.next();
    let rest: Vec<(usize, usize, f32)> = it.collect().iter().map(|e| (e.i, e.j, e.value)).collect();
    assert_eq!(rest, vec![(1, 1, 4.0), (3, 1, 0.5), (3, 0, -2.0), (3, 1, 0.25)]);
}

#[test]
fn is_wf_rejects_mismatched_parts() {
    let short = CsrMatrix { row_extents: vec![1, 1], col_indices: vec![0], values: vec![1.0f32] };
    assert!(!short.is_wf());
    let long = CsrMatrix { row_extents: vec![1], col_indices: vec![0, 1], values: vec![1.0f32, 2.0] };
    assert!(!long.is_wf());
    let uneven = CsrMatrix { row_extents: vec![1], col_indices: vec![0, 1], values: vec![1.0f32] };
    assert!(!uneven.is_wf());
    let huge = CsrMatrix {
        row_extents: vec![usize::MAX, usize::MAX],
        col_indices: vec![0],
        values: vec![1.0f32],
    };
    assert!(!huge.is_wf());
}

#[test]
fn entries_can_be_copied() {
    let e = CooEntry { i: 1, j: 2, value: 3.0f32 };
    let f = e;
    let g = e.clone();
    assert_eq!((f.i, f.j, f.value), (g.i, g.j, g.value));
}
