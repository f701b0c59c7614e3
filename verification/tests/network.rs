use sparse_net::{relu, CooMatrix, SparseNet, SparseNetData};

fn plus(a: f32, b: f32) -> f32 {
    a + b
}

fn times(a: f32, b: f32) -> f32 {
    a * b
}

fn positive(x: f32) -> bool {
    x > 0.0
}

fn run(net: &SparseNet<f32>, data: &mut SparseNetData<f32>) {
    assert!(net.is_evaluable());
    assert_eq!(data.activations.len(), net.num_vertices());
    net.forward(data, 0.0, plus, times, positive);
}

fn chain(biases: Vec<f32>) -> SparseNet<f32> {
    let mut coo = CooMatrix::new();
    coo.push(1, 0, 1.0);
    coo.push(2, 1, 1.0);
    SparseNet::from_coo(biases, &coo, 1, 1)
}

#[test]
fn relu_boundary() {
    let eps = f32::MIN_POSITIVE;
    assert_eq!(relu(0.0f32, 0.0, &positive).to_bits(), 0.0f32.to_bits());
    assert_eq!(relu(-0.0f32, 0.0, &positive).to_bits(), 0.0f32.to_bits());
    assert_eq!(relu(-eps, 0.0, &positive), 0.0);
    assert_eq!(relu(eps, 0.0, &positive), eps);
    assert_eq!(relu(-3.0f32, 0.0, &positive), 0.0);
    assert_eq!(relu(2.5f32, 0.0, &positive), 2.5);
    assert_eq!(relu(f32::NAN, 0.0, &positive), 0.0);
}

#[test]
fn forward_chain_passes_the_input_on() {
    let net = chain(vec![0.0, 0.0, 0.0]);
    let mut data = net.new_data(0.0);
    net.load_input(&mut data, &[2.0]);
    run(&net, &mut data);
    assert_eq!(data.activations, vec![2.0, 2.0, 2.0]);
    assert_eq!(net.get_output(&data), &[2.0]);
}

#[test]
fn forward_chain_with_negative_bias_is_cut_off() {
    let net = chain(vec![0.0, -5.0, 0.0]);
    let mut data = net.new_data(0.0);
    net.load_input(&mut data, &[2.0]);
    run(&net, &mut data);
    assert_eq!(data.activations, vec![2.0, 0.0, 0.0]);
    assert_eq!(net.get_output(&data), &[0.0]);
}

#[test]
fn forward_is_deterministic() {
    let mut coo = CooMatrix::new();
    coo.push(2, 0, 0.1);
    coo.push(2, 1, 0.7);
    coo.push(3, 2, -1.3);
    coo.push(3, 0, 0.3);
    coo.push(4, 3, 1.0e-3);
    coo.push(4, 2, 3.3);
    coo.push(2, 1, 0.05);
    let net = SparseNet::from_coo(vec![0.0, 0.0, 0.01, 0.9, -0.2], &coo, 2, 2);
    let mut first = net.new_data(0.0);
    net.load_input(&mut first, &[0.3, 0.6]);
    run(&net, &mut first);
    let mut second = net.new_data(0.0);
    net.load_input(&mut second, &[0.3, 0.6]);
    run(&net, &mut second);
    let a: Vec<u32> = first.activations.iter().map(|x| x.to_bits()).collect();
    let b: Vec<u32> = second.activations.iter().map(|x| x.to_bits()).collect();
    assert_eq!(a, b);
    let n2 = relu(0.0 + 0.3 * 0.1 + 0.6 * 0.7 + 0.6 * 0.05 + 0.01, 0.0, &positive);
    let n3 = relu(0.0 + n2 * -1.3 + 0.3 * 0.3 + 0.9, 0.0, &positive);
    let n4 = relu(0.0 + n3 * 1.0e-3 + n2 * 3.3 + -0.2, 0.0, &positive);
    assert_eq!(first.activations, vec![0.3, 0.6, n2, n3, n4]);
    assert_eq!(net.get_output(&first), &[n3, n4]);
}

#[test]
fn node_without_incoming_edges_gets_its_bias() {
    let mut coo = CooMatrix::new();
    coo.push(3, 0, 1.0);
    let net = SparseNet::from_coo(vec![0.0, 0.75, -0.5, 0.0], &coo, 1, 1);
    let mut data = net.new_data(0.0);
    net.load_input(&mut data, &[4.0]);
    run(&net, &mut data);
    assert_eq!(data.activations, vec![4.0, 0.75, 0.0, 4.0]);
}

#[test]
fn nodes_past_the_last_edge_are_not_reached() {
    let mut coo = CooMatrix::new();
    coo.push(1, 0, 1.0);
    let net = SparseNet::from_coo(vec![0.0, 0.0, 9.0], &coo, 1, 1);
    let mut data = net.new_data(0.0);
    net.load_input(&mut data, &[4.0]);
    run(&net, &mut data);
    assert_eq!(data.activations, vec![4.0, 4.0, 0.0]);
}

#[test]
fn network_without_edges_settles_node_zero() {
    let coo: CooMatrix<f32> = CooMatrix::new();
    let net = SparseNet::from_coo(vec![1.5, 2.5], &coo, 1, 1);
    assert_eq!(net.num_edges(), 0);
    let mut data = net.new_data(0.0);
    net.load_input(&mut data, &[4.0]);
    run(&net, &mut data);
    assert_eq!(data.activations, vec![1.5, 0.0]);
}

#[test]
fn sum_of_an_input_row_is_carried_on() {
    let mut coo = CooMatrix::new();
    coo.push(0, 0, 3.0);
    coo.push(2, 1, 1.0);
    let net = SparseNet::from_coo(vec![0.0, 0.5, 0.0], &coo, 1, 1);
    let mut data = net.new_data(0.0);
    net.load_input(&mut data, &[2.0]);
    run(&net, &mut data);
    assert_eq!(data.activations, vec![2.0, 6.5, 6.5]);
}

#[test]
fn duplicate_edges_add_up() {
    let mut coo = CooMatrix::new();
    coo.push(1, 0, 1.0);
    coo.push(1, 0, 2.0);
    coo.push(1, 0, 0.5);
    let net = SparseNet::from_coo(vec![0.0, 1.0], &coo, 1, 1);
    let mut data = net.new_data(0.0);
    net.load_input(&mut data, &[2.0]);
    run(&net, &mut data);
    assert_eq!(data.activations, vec![2.0, 8.0]);
}

#[test]
fn edges_may_come_in_any_order() {
    let mut coo = CooMatrix::new();
    coo.push(2, 1, 1.0);
    coo.push(1, 0, 1.0);
    let net = SparseNet::from_coo(vec![0.0, 1.0, 1.0], &coo, 1, 1);
    let mut data = net.new_data(0.0);
    net.load_input(&mut data, &[2.0]);
    run(&net, &mut data);
    assert_eq!(data.activations, vec![2.0, 3.0, 4.0]);
}

#[test]
fn from_coo_builds_both_orientations() {
    let mut coo = CooMatrix::new();
    coo.push(2, 0, 1.0);
    coo.push(1, 0, 2.0);
    coo.push(2, 1, 3.0);
    let net = SparseNet::from_coo(vec![0.0, 0.0, 0.0], &coo, 1, 1);
    assert_eq!(net.num_vertices(), 3);
    assert_eq!(net.num_edges(), 3);
    assert_eq!(net.input, 1);
    assert_eq!(net.output, 1);
    assert_eq!(net.biases, vec![0.0, 0.0, 0.0]);
    let f = net.edges_forward();
    assert_eq!(f.row_extents, vec![0, 1, 2]);
    assert_eq!(f.col_indices, vec![0, 0, 1]);
    assert_eq!(f.values, vec![2.0, 1.0, 3.0]);
    let b = net.edges_backward();
    assert_eq!(b.row_extents, vec![2, 1]);
    assert_eq!(b.col_indices, vec![2, 1, 2]);
    assert_eq!(b.values, vec![1.0, 2.0, 3.0]);
}

#[test]
fn is_evaluable_wants_edges_inside_the_network() {
    let mut coo = CooMatrix::new();
    coo.push(1, 0, 1.0);
    assert!(SparseNet::from_coo(vec![0.0f32, 0.0], &coo, 1, 1).is_evaluable());
    assert!(!SparseNet::from_coo(vec![0.0f32], &coo, 1, 1).is_evaluable());
    let mut far = CooMatrix::new();
    far.push(1, 5, 1.0);
    assert!(!SparseNet::from_coo(vec![0.0f32, 0.0], &far, 1, 1).is_evaluable());
    let none: CooMatrix<f32> = CooMatrix::new();
    assert!(!SparseNet::from_coo(vec![], &none, 0, 0).is_evaluable());
    let mut grown = SparseNet::from_coo(vec![0.0f32, 0.0], &coo, 1, 1);
    grown.biases.push(1.0);
    assert!(!grown.is_evaluable());
}

#[test]
fn new_data_is_zeroed_and_sized() {
    let mut coo = CooMatrix::new();
    coo.push(1, 0, 1.0);
    coo.push(2, 0, 1.0);
    coo.push(2, 1, 1.0);
    coo.push(3, 2, 1.0);
    let net = SparseNet::from_coo(vec![1.0, 2.0, 3.0, 4.0], &coo, 1, 1);
    let data = net.new_data(0.0);
    assert_eq!(data.activations, vec![0.0; 4]);
    assert_eq!(data.d_biases, vec![0.0; 4]);
    assert_eq!(data.d_weights, vec![0.0; 4]);
    let other = net.new_data(7.0);
    assert_eq!(other.activations, vec![7.0; 4]);
}

#[test]
fn load_input_copies_the_input_nodes_only() {
    let coo: CooMatrix<f32> = CooMatrix::new();
    let net = SparseNet::from_coo(vec![0.0; 4], &coo, 2, 1);
    let mut data = net.new_data(0.0);
    data.activations = vec![9.0, 9.0, 9.0, 9.0];
    net.load_input(&mut data, &[1.0, 2.0, 3.0]);
    assert_eq!(data.activations, vec![1.0, 2.0, 9.0, 9.0]);
}

#[test]
fn get_output_is_the_tail() {
    let coo: CooMatrix<f32> = CooMatrix::new();
    let net = SparseNet::from_coo(vec![0.0; 4], &coo, 1, 3);
    let mut data = net.new_data(0.0);
    data.activations = vec![1.0, 2.0, 3.0, 4.0];
    assert_eq!(net.get_output(&data), &[2.0, 3.0, 4.0]);
    let all = SparseNet::from_coo(vec![0.0f32; 4], &coo, 1, 4);
    assert_eq!(all.get_output(&data), &[1.0, 2.0, 3.0, 4.0]);
    let none = SparseNet::from_coo(vec![0.0f32; 4], &coo, 1, 0);
    assert!(none.get_output(&data).is_empty());
}

#[test]
fn forward_leaves_the_gradients_alone() {
    let net = chain(vec![0.0, 0.0, 0.0]);
    let mut data = net.new_data(0.0);
    data.d_biases = vec![1.0, 2.0, 3.0];
    data.d_weights = vec![4.0, 5.0];
    net.load_input(&mut data, &[2.0]);
    run(&net, &mut data);
    assert_eq!(data.d_biases, vec![1.0, 2.0, 3.0]);
    assert_eq!(data.d_weights, vec![4.0, 5.0]);
}
