use rustfmsynth::algorithm::{Algorithm, ConfigurationError};

fn blank(n: usize) -> Vec<Vec<Option<usize>>> {
    vec![vec![None; n]; n]
}

#[test]
fn square_matrix_with_valid_carriers_is_accepted() {
    let mut matrix = blank(3);
    matrix[0][1] = Some(1);
    matrix[1][1] = Some(3);
    let algorithm = Algorithm::new(matrix.clone(), vec![0, 2]).unwrap();
    assert_eq!(algorithm.matrix, matrix);
    assert_eq!(algorithm.carriers, vec![0, 2]);
    assert!(algorithm.is_well_formed());
}

#[test]
fn non_square_matrix_is_rejected() {
    let matrix = vec![vec![None, None], vec![None]];
    let result = Algorithm::new(matrix, vec![0]);
    assert_eq!(result.err(), Some(ConfigurationError::NonSquareMatrix));
    let wide = vec![vec![None, None, None], vec![None, None, None]];
    let result = Algorithm::new(wide, vec![]);
    assert_eq!(result.err(), Some(ConfigurationError::NonSquareMatrix));
}

#[test]
fn carrier_equal_to_operator_count_is_rejected() {
    let result = Algorithm::new(blank(3), vec![0, 3, 1]);
    assert_eq!(
        result.err(),
        Some(ConfigurationError::CarrierOutOfBounds { carrier: 3, num_operators: 3 })
    );
}

#[test]
fn largest_carrier_is_the_one_reported() {
    let result = Algorithm::new(blank(2), vec![5, 9, 2]);
    assert_eq!(
        result.err(),
        Some(ConfigurationError::CarrierOutOfBounds { carrier: 9, num_operators: 2 })
    );
}

#[test]
fn non_square_matrix_is_reported_before_carriers() {
    let matrix = vec![vec![None], vec![None, None]];
    let result = Algorithm::new(matrix, vec![7]);
    assert_eq!(result.err(), Some(ConfigurationError::NonSquareMatrix));
}

#[test]
fn empty_algorithm_is_accepted_without_carriers_only() {
    assert!(Algorithm::new(Vec::new(), Vec::new()).is_ok());
    let result = Algorithm::new(Vec::new(), vec![0]);
    assert_eq!(
        result.err(),
        Some(ConfigurationError::CarrierOutOfBounds { carrier: 0, num_operators: 0 })
    );
}

#[test]
fn carrier_just_below_operator_count_is_accepted() {
    assert!(Algorithm::new(blank(4), vec![3]).is_ok());
}

#[test]
fn default_simple_has_one_carrier_and_no_connection() {
    let algorithm = Algorithm::default_simple(3).unwrap();
    assert_eq!(algorithm.matrix, blank(3));
    assert_eq!(algorithm.carriers, vec![0]);
    assert_eq!(algorithm.max_level(), 0);
    let empty = Algorithm::default_simple(0).unwrap();
    assert!(empty.matrix.is_empty());
    assert!(empty.carriers.is_empty());
}

#[test]
fn default_stack_connects_operator_one_to_operator_zero() {
    let algorithm = Algorithm::default_stack_2(4).unwrap();
    let mut expected = blank(4);
    expected[0][1] = Some(1);
    assert_eq!(algorithm.matrix, expected);
    assert_eq!(algorithm.carriers, vec![0]);
    assert_eq!(algorithm.max_level(), 0);
    let single = Algorithm::default_stack_2(1).unwrap();
    assert_eq!(single.matrix, blank(1));
    assert_eq!(single.carriers, vec![0]);
}

#[test]
fn default_feedback_feeds_operator_zero_into_itself() {
    let algorithm = Algorithm::default_feedback_1(12).unwrap();
    let mut expected = blank(12);
    expected[0][0] = Some(2);
    assert_eq!(algorithm.matrix, expected);
    assert_eq!(algorithm.carriers, vec![0]);
    assert_eq!(algorithm.max_level(), 1);
    let empty = Algorithm::default_feedback_1(0).unwrap();
    assert!(empty.matrix.is_empty());
    assert!(empty.carriers.is_empty());
}

#[test]
fn max_level_is_one_less_than_the_largest_depth() {
    let mut matrix = blank(3);
    assert_eq!(Algorithm::new(matrix.clone(), vec![0]).unwrap().max_level(), 0);
    matrix[0][1] = Some(0);
    assert_eq!(Algorithm::new(matrix.clone(), vec![0]).unwrap().max_level(), 0);
    matrix[2][2] = Some(1);
    assert_eq!(Algorithm::new(matrix.clone(), vec![0]).unwrap().max_level(), 0);
    matrix[1][0] = Some(5);
    assert_eq!(Algorithm::new(matrix.clone(), vec![0]).unwrap().max_level(), 4);
    matrix[2][0] = Some(3);
    assert_eq!(Algorithm::new(matrix, vec![0]).unwrap().max_level(), 4);
}

#[test]
fn well_formedness_is_checked_on_hand_made_algorithms() {
    let ragged = Algorithm { matrix: vec![vec![None, None], vec![None]], carriers: vec![0] };
    assert!(!ragged.is_well_formed());
    let stray = Algorithm { matrix: blank(2), carriers: vec![0, 2] };
    assert!(!stray.is_well_formed());
    let fine = Algorithm { matrix: blank(2), carriers: vec![1, 0, 1] };
    assert!(fine.is_well_formed());
}
