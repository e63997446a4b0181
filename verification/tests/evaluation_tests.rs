use rustfmsynth::algorithm::Algorithm;
use rustfmsynth::evaluation::InternalGraphError;
use rustfmsynth::graph::{UnrolledGraph, UnrolledNode};

fn blank(n: usize) -> Vec<Vec<Option<usize>>> {
    vec![vec![None; n]; n]
}

fn node(operator_index: usize, level: usize, inputs: &[usize]) -> UnrolledNode {
    UnrolledNode { operator_index, level, input_node_indices: inputs.to_vec() }
}

fn assert_inputs_come_first(graph: &UnrolledGraph, order: &[usize]) {
    assert_eq!(order.len(), graph.nodes.len());
    for (position, index) in order.iter().enumerate() {
        assert!(!order[..position].contains(index));
        for input in &graph.nodes[*index].input_node_indices {
            assert!(order[..position].contains(input));
        }
    }
}

#[test]
fn modulator_is_evaluated_before_its_carrier() {
    let graph = Algorithm::default_stack_2(2).unwrap().unroll();
    assert_eq!(graph.evaluation_order(), Some(vec![1, 0]));
}

#[test]
fn feedback_levels_are_evaluated_from_the_lowest() {
    let mut matrix = blank(1);
    matrix[0][0] = Some(4);
    let graph = Algorithm::new(matrix, vec![0]).unwrap().unroll();
    assert_eq!(graph.evaluation_order(), Some(vec![3, 2, 1, 0]));
}

#[test]
fn every_node_comes_after_its_inputs() {
    let mut matrix = blank(4);
    matrix[0][1] = Some(1);
    matrix[0][2] = Some(1);
    matrix[1][3] = Some(1);
    matrix[2][3] = Some(1);
    matrix[3][3] = Some(3);
    let graph = Algorithm::new(matrix, vec![0, 2]).unwrap().unroll();
    let order = graph.evaluation_order().unwrap();
    assert_inputs_come_first(&graph, &order);
}

#[test]
fn graph_without_nodes_has_the_empty_order() {
    let graph = Algorithm::default_simple(0).unwrap().unroll();
    assert_eq!(graph.evaluation_order(), Some(vec![]));
}

#[test]
fn direct_self_connection_has_no_order() {
    let mut matrix = blank(1);
    matrix[0][0] = Some(1);
    let graph = Algorithm::new(matrix, vec![0]).unwrap().unroll();
    assert_eq!(graph.evaluation_order(), None);
}

#[test]
fn circle_of_direct_connections_has_no_order() {
    let mut matrix = blank(3);
    matrix[0][1] = Some(1);
    matrix[1][2] = Some(1);
    matrix[2][1] = Some(1);
    let graph = Algorithm::new(matrix, vec![0]).unwrap().unroll();
    assert_eq!(graph.evaluation_order(), None);
}

#[test]
fn circle_of_feedback_connections_has_an_order() {
    let mut matrix = blank(2);
    matrix[0][1] = Some(3);
    matrix[1][0] = Some(3);
    let graph = Algorithm::new(matrix, vec![0]).unwrap().unroll();
    let order = graph.evaluation_order().unwrap();
    assert_eq!(order, vec![2, 1, 0]);
    assert_inputs_come_first(&graph, &order);
}

#[test]
fn input_that_is_no_node_has_no_order() {
    let graph = UnrolledGraph {
        nodes: vec![node(0, 0, &[1]), node(1, 0, &[2])],
        carrier_node_indices: vec![0],
    };
    assert_eq!(graph.evaluation_order(), None);
}

#[test]
fn hand_made_graph_is_ordered_by_its_inputs_alone() {
    let graph = UnrolledGraph {
        nodes: vec![node(0, 0, &[2, 1]), node(1, 0, &[2]), node(2, 0, &[])],
        carrier_node_indices: vec![0],
    };
    assert_eq!(graph.evaluation_order(), Some(vec![2, 1, 0]));
}

#[test]
fn prepare_gives_the_plan_for_a_matching_operator_count() {
    let algorithm = Algorithm::default_feedback_1(12).unwrap();
    let plan = algorithm.prepare(12, 256).unwrap().unwrap();
    assert_eq!(plan.graph.nodes.len(), 2);
    assert_eq!(plan.graph.carrier_node_indices, vec![0]);
    assert_eq!(plan.order, vec![1, 0]);
}

#[test]
fn prepare_asks_for_nothing_on_an_empty_buffer() {
    let algorithm = Algorithm::default_feedback_1(12).unwrap();
    assert!(matches!(algorithm.prepare(12, 0), Ok(None)));
}

#[test]
fn prepare_asks_for_nothing_without_operators() {
    let algorithm = Algorithm::default_feedback_1(12).unwrap();
    assert!(matches!(algorithm.prepare(0, 64), Ok(None)));
    let empty = Algorithm::default_simple(0).unwrap();
    assert!(matches!(empty.prepare(0, 64), Ok(None)));
}

#[test]
fn prepare_reports_an_operator_count_that_differs_from_the_matrix() {
    let algorithm = Algorithm::default_feedback_1(12).unwrap();
    assert_eq!(
        algorithm.prepare(11, 64).err(),
        Some(InternalGraphError::OperatorCountMismatch { matrix_size: 12, num_operators: 11 })
    );
    assert_eq!(
        algorithm.prepare(13, 0).err(),
        Some(InternalGraphError::OperatorCountMismatch { matrix_size: 12, num_operators: 13 })
    );
}

#[test]
fn prepare_reports_a_broken_algorithm() {
    let ragged = Algorithm { matrix: vec![vec![None, None], vec![None]], carriers: vec![0] };
    assert_eq!(ragged.prepare(2, 64).err(), Some(InternalGraphError::InvalidAlgorithm));
    let stray = Algorithm { matrix: blank(2), carriers: vec![2] };
    assert_eq!(stray.prepare(2, 64).err(), Some(InternalGraphError::InvalidAlgorithm));
}

#[test]
fn prepare_reports_direct_connections_that_run_in_a_circle() {
    let mut matrix = blank(2);
    matrix[0][1] = Some(1);
    matrix[1][0] = Some(1);
    let algorithm = Algorithm::new(matrix, vec![0]).unwrap();
    assert_eq!(algorithm.prepare(2, 64).err(), Some(InternalGraphError::CircularConnection));
}
