use mtdalgos::errors::{Error, ErrorKind};
use mtdalgos::graph::{AdjacencyMatrix, NodeWithCost};

#[test]
fn new_matrix_is_empty() {
    let matrix = AdjacencyMatrix::new(4);
    assert_eq!(matrix.total(), 4);
    for node in 0..4 {
        assert_eq!(matrix.get_node(node).unwrap().len(), 0);
    }
    assert!(matrix.get_node(4).is_none());
}

#[test]
fn node_with_cost_new_sets_fields() {
    let entry = NodeWithCost::new(3, 17);
    assert_eq!(entry.node, 3);
    assert_eq!(entry.cost, 17);
}

#[test]
fn push_appends_edges_in_order() {
    let mut matrix = AdjacencyMatrix::new(4);
    matrix.push(0, NodeWithCost::new(1, 5)).unwrap();
    matrix.push(0, NodeWithCost::new(2, 7)).unwrap();
    matrix.push(1, NodeWithCost::new(3, 2)).unwrap();
    assert_eq!(
        matrix.get_node(0).unwrap(),
        &vec![NodeWithCost::new(1, 5), NodeWithCost::new(2, 7)]
    );
    assert_eq!(matrix.get_node(1).unwrap(), &vec![NodeWithCost::new(3, 2)]);
    assert_eq!(matrix.get_node(2).unwrap().len(), 0);
}

#[test]
fn self_loop_push_never_changes_list_length() {
    let mut matrix = AdjacencyMatrix::new(5);
    matrix.push(2, NodeWithCost::new(3, 4)).unwrap();
    for from in 0..5 {
        let before = matrix.get_node(from).unwrap().len();
        matrix.push(from, NodeWithCost::new(from, 9)).unwrap();
        assert_eq!(matrix.get_node(from).unwrap().len(), before);
    }
}

#[test]
fn duplicate_edge_keeps_larger_cost() {
    let mut matrix = AdjacencyMatrix::new(3);
    matrix.push(0, NodeWithCost::new(1, 5)).unwrap();
    matrix.push(0, NodeWithCost::new(1, 2)).unwrap();
    assert_eq!(matrix.get_node(0).unwrap(), &vec![NodeWithCost::new(1, 5)]);
    matrix.push(0, NodeWithCost::new(1, 9)).unwrap();
    assert_eq!(matrix.get_node(0).unwrap(), &vec![NodeWithCost::new(1, 9)]);
}

fn expect_invalid_index(r: Result<(), Error>) {
    match r {
        Err(error) => assert_eq!(error.kind, ErrorKind::InvalidIndex),
        Ok(()) => panic!("push accepted an out-of-range index"),
    }
}

#[test]
fn push_rejects_out_of_range_indices_at_boundaries() {
    let total = 4;
    let mut matrix = AdjacencyMatrix::new(total);
    // both indices at the last valid node: accepted (a self-loop no-op)
    matrix.push(total - 1, NodeWithCost::new(total - 1, 1)).unwrap();
    // valid from, valid to at the boundary
    matrix.push(0, NodeWithCost::new(total - 1, 1)).unwrap();
    matrix.push(total - 1, NodeWithCost::new(0, 1)).unwrap();
    // from at total
    expect_invalid_index(matrix.push(total, NodeWithCost::new(0, 1)));
    // to at total
    expect_invalid_index(matrix.push(0, NodeWithCost::new(total, 1)));
    // both out of range
    expect_invalid_index(matrix.push(total, NodeWithCost::new(total, 1)));
    expect_invalid_index(matrix.push(total + 7, NodeWithCost::new(1, 1)));
}

#[test]
fn error_new_carries_kind_and_message() {
    let kinds = [
        ErrorKind::InvalidArgument,
        ErrorKind::InvalidIndex,
        ErrorKind::Disconnected,
        ErrorKind::LockUnavailable,
        ErrorKind::NotFound,
    ];
    for kind in kinds {
        let error = Error::new(kind, "something went wrong");
        assert_eq!(error.kind, kind);
        assert_eq!(error.message, "something went wrong");
    }
}
