use mtdalgos::dijkstra::shortest_paths;
use mtdalgos::graph::{AdjacencyMatrix, Cost, NodeWithCost};

fn demo_matrix() -> AdjacencyMatrix {
    let mut matrix = AdjacencyMatrix::new(5);
    matrix.push(0, NodeWithCost::new(1, 1)).unwrap();
    matrix.push(1, NodeWithCost::new(2, 1)).unwrap();
    matrix.push(2, NodeWithCost::new(3, 2)).unwrap();
    matrix.push(3, NodeWithCost::new(4, 1)).unwrap();
    matrix.push(2, NodeWithCost::new(4, 6)).unwrap();
    matrix
}

#[test]
fn five_node_scenario_from_source_zero() {
    let matrix = demo_matrix();
    let distances = shortest_paths(&matrix, 0);
    // the longer hop-path 0->1->2->3->4 (cost 5) beats the direct 2->4 edge
    assert_eq!(distances, vec![Some(0), Some(1), Some(2), Some(4), Some(5)]);
}

#[test]
fn five_node_scenario_from_other_sources() {
    let matrix = demo_matrix();
    assert_eq!(shortest_paths(&matrix, 1), vec![None, Some(0), Some(1), Some(3), Some(4)]);
    assert_eq!(shortest_paths(&matrix, 2), vec![None, None, Some(0), Some(2), Some(3)]);
    assert_eq!(shortest_paths(&matrix, 3), vec![None, None, None, Some(0), Some(1)]);
    assert_eq!(shortest_paths(&matrix, 4), vec![None, None, None, None, Some(0)]);
}

#[test]
fn unreachable_nodes_are_none_and_reachable_nodes_are_some() {
    let mut matrix = AdjacencyMatrix::new(4);
    matrix.push(0, NodeWithCost::new(1, 3)).unwrap();
    matrix.push(2, NodeWithCost::new(3, 1)).unwrap();
    let distances = shortest_paths(&matrix, 0);
    assert_eq!(distances, vec![Some(0), Some(3), None, None]);
}

#[test]
fn source_with_no_edges_reaches_only_itself() {
    let matrix = AdjacencyMatrix::new(3);
    assert_eq!(shortest_paths(&matrix, 1), vec![None, Some(0), None]);
}

#[test]
fn cheaper_duplicate_is_overridden_by_larger_cost() {
    // duplicate edges collapse to the larger cost, which the algorithm then uses
    let mut matrix = AdjacencyMatrix::new(2);
    matrix.push(0, NodeWithCost::new(1, 2)).unwrap();
    matrix.push(0, NodeWithCost::new(1, 10)).unwrap();
    assert_eq!(shortest_paths(&matrix, 0), vec![Some(0), Some(10)]);
}

#[test]
fn cycles_do_not_hang_the_computation() {
    let mut matrix = AdjacencyMatrix::new(3);
    matrix.push(0, NodeWithCost::new(1, 1)).unwrap();
    matrix.push(1, NodeWithCost::new(0, 1)).unwrap();
    matrix.push(1, NodeWithCost::new(2, 4)).unwrap();
    matrix.push(2, NodeWithCost::new(0, 1)).unwrap();
    assert_eq!(shortest_paths(&matrix, 0), vec![Some(0), Some(1), Some(5)]);
}

/// Reference: Bellman-Ford over the edges actually stored in the matrix.
fn brute_force(matrix: &AdjacencyMatrix, source: usize) -> Vec<Option<Cost>> {
    let n = matrix.total();
    let mut dist: Vec<Option<Cost>> = vec![None; n];
    dist[source] = Some(0);
    for _round in 0..n {
        let mut changed = false;
        for from in 0..n {
            let du = match dist[from] {
                Some(d) => d,
                None => continue,
            };
            for edge in matrix.get_node(from).unwrap().clone() {
                let candidate = du + edge.cost;
                let better = match dist[edge.node] {
                    None => true,
                    Some(existing) => candidate < existing,
                };
                if better {
                    dist[edge.node] = Some(candidate);
                    changed = true;
                }
            }
        }
        if !changed {
            break;
        }
    }
    dist
}

/// A deterministic pseudo-random stream, so the test needs no outside crate.
struct Lcg(u64);

impl Lcg {
    fn next(&mut self) -> u64 {
        self.0 = self.0.wrapping_mul(6364136223846793005).wrapping_add(1442695040888963407);
        self.0 >> 33
    }
}

#[test]
fn matches_brute_force_on_small_graphs() {
    let mut rng = Lcg(42);
    for _case in 0..40 {
        let n = 2 + (rng.next() as usize) % 7;
        let mut matrix = AdjacencyMatrix::new(n);
        let edges = (rng.next() as usize) % (2 * n + 1);
        for _ in 0..edges {
            let from = (rng.next() as usize) % n;
            let to = (rng.next() as usize) % n;
            let cost = (rng.next() % 20) as Cost;
            matrix.push(from, NodeWithCost::new(to, cost)).unwrap();
        }
        for source in 0..n {
            assert_eq!(
                shortest_paths(&matrix, source),
                brute_force(&matrix, source),
                "disagreement for a graph of {} nodes from source {}",
                n,
                source
            );
        }
    }
}
