use graph::{compute_all_distances, isqrt, path_reconstruct, Edge, Graph, GraphError, MinQueue, Node};

const UNIT: i32 = 1000;

fn node(n_id: usize, x: i32, y: i32, destination: bool) -> Node {
    Node {
        n_id,
        x: x * UNIT,
        y: y * UNIT,
        name: format!("n{}", n_id),
        group: String::from("g"),
        is_path: if destination { 0 } else { 1 },
    }
}

fn edge(source: usize, dest: usize) -> Edge {
    Edge { source, dest }
}

/// Nodes 0(0,0), 1(1,0), 2(1,1), 3(0,1, destination); edges 0-1, 1-2, 2-3.
fn square_graph() -> Graph {
    let nodes = vec![node(0, 0, 0, false), node(1, 1, 0, false), node(2, 1, 1, false), node(3, 0, 1, true)];
    let edges = vec![edge(0, 1), edge(1, 2), edge(2, 3)];
    Graph::build(&nodes, edges).unwrap()
}

#[test]
fn weights_use_the_coordinate_sum() {
    let g = square_graph();
    assert_eq!(g.weight(0, 1), Some(1000));
    assert_eq!(g.weight(1, 0), Some(1000));
    assert_eq!(g.weight(1, 2), Some(2236));
    assert_eq!(g.weight(2, 3), Some(2236));
    assert_eq!(g.weight(0, 3), None);
    assert_eq!(g.weight(0, 0), None);
}

#[test]
fn square_forward_path() {
    let g = square_graph();
    let p = g.dijkstras(0, 3).unwrap();
    assert_eq!(p.points, vec![0, 1, 2, 3]);
    assert_eq!(p.dist, 5472);
    assert!(((p.dist as f64) / (UNIT as f64) - 5.472).abs() < 0.001);
}

#[test]
fn square_backward_path_is_reversed() {
    let g = square_graph();
    let forward = g.dijkstras(0, 3).unwrap();
    let backward = g.dijkstras(3, 0).unwrap();
    let mut reversed = forward.points.clone();
    reversed.reverse();
    assert_eq!(backward.points, reversed);
    assert_eq!(backward.dist, forward.dist);
}

#[test]
fn same_node_gives_empty_path() {
    let g = square_graph();
    for n in 0..4 {
        let p = g.dijkstras(n, n).unwrap();
        assert!(p.points.is_empty());
        assert_eq!(p.dist, 0);
    }
}

#[test]
fn disconnected_nodes_give_none() {
    let nodes = vec![node(0, 0, 0, true), node(1, 1, 0, true), node(2, 5, 5, true)];
    let g = Graph::build(&nodes, vec![edge(0, 1)]).unwrap();
    assert!(g.dijkstras(0, 2).is_none());
    assert!(g.dijkstras(2, 1).is_none());
    assert!(g.dijkstras(0, 1).is_some());
}

#[test]
fn self_loop_has_zero_weight() {
    let nodes = vec![node(0, 3, 4, true), node(1, 1, 1, false)];
    let g = Graph::build(&nodes, vec![edge(0, 0), edge(0, 1)]).unwrap();
    assert_eq!(g.weight(0, 0), Some(0));
    assert_eq!(g.weight(1, 1), None);
    // (3+1, 4+1) in thousandths: sqrt(4000^2 + 5000^2) = 6403.12...
    assert_eq!(g.weight(0, 1), Some(6403));
}

fn check_valid(g: &Graph, source: usize, dest: usize) -> Option<u128> {
    let p = g.dijkstras(source, dest)?;
    assert_eq!(*p.points.first().unwrap(), source);
    assert_eq!(*p.points.last().unwrap(), dest);
    let mut total: u128 = 0;
    for pair in p.points.windows(2) {
        total += g.weight(pair[0], pair[1]).expect("consecutive points are joined") as u128;
    }
    assert_eq!(total, p.dist);
    Some(p.dist)
}

fn ladder() -> (Vec<Node>, Vec<Edge>) {
    let nodes = vec![
        node(0, 0, 0, false),
        node(1, 1, 0, false),
        node(2, 2, 0, true),
        node(3, 0, 1, false),
        node(4, 1, 1, false),
        node(5, 2, 1, true),
        node(6, -1, -1, false),
        node(7, -2, 3, true),
    ];
    let edges = vec![
        edge(0, 1),
        edge(1, 2),
        edge(3, 4),
        edge(4, 5),
        edge(0, 3),
        edge(1, 4),
        edge(2, 5),
        edge(0, 6),
        edge(6, 5),
        edge(7, 3),
        edge(6, 7),
    ];
    (nodes, edges)
}

#[test]
fn returned_paths_are_valid_walks() {
    let (nodes, edges) = ladder();
    let g = Graph::build(&nodes, edges).unwrap();
    for s in 0..8 {
        for t in 0..8 {
            if s != t {
                assert!(check_valid(&g, s, t).is_some());
            }
        }
    }
}

fn best_simple(g: &Graph, at: usize, dest: usize, seen: &mut Vec<bool>, sofar: u128, best: &mut Option<u128>) {
    if at == dest {
        if best.map_or(true, |b| sofar < b) {
            *best = Some(sofar);
        }
        return;
    }
    for next in 0..g.node_count() {
        if !seen[next] {
            if let Some(w) = g.weight(at, next) {
                seen[next] = true;
                best_simple(g, next, dest, seen, sofar + w as u128, best);
                seen[next] = false;
            }
        }
    }
}

#[test]
fn distances_match_exhaustive_search() {
    let (nodes, edges) = ladder();
    let g = Graph::build(&nodes, edges).unwrap();
    for s in 0..8 {
        for t in 0..8 {
            if s == t {
                continue;
            }
            let mut seen = vec![false; 8];
            seen[s] = true;
            let mut best = None;
            best_simple(&g, s, t, &mut seen, 0, &mut best);
            assert_eq!(g.dijkstras(s, t).map(|p| p.dist), best);
        }
    }
}

#[test]
fn table_has_one_row_per_node_and_one_column_per_destination() {
    let (nodes, edges) = ladder();
    let g = Graph::build(&nodes, edges).unwrap();
    assert_eq!(g.destination_ids(), &vec![2, 5, 7]);
    let table = g.compute_distances();
    assert_eq!(table.len(), 8);
    for (i, row) in table.iter().enumerate() {
        assert_eq!(row.len(), 3);
        for (j, cell) in row.iter().enumerate() {
            let (id, p) = cell.as_ref().unwrap();
            assert_eq!(*id, [2, 5, 7][j]);
            if i == *id {
                assert!(p.points.is_empty());
                assert_eq!(p.dist, 0);
            } else {
                assert_eq!(Some(p.dist), check_valid(&g, i, *id));
            }
        }
    }
}

#[test]
fn table_marks_unreachable_cells() {
    let nodes = vec![node(0, 0, 0, false), node(1, 1, 0, true), node(2, 4, 4, true)];
    let g = Graph::build(&nodes, vec![edge(0, 1)]).unwrap();
    let table = g.compute_distances();
    assert_eq!(table.len(), 3);
    assert_eq!(table[0][0].as_ref().unwrap().1.points, vec![0, 1]);
    assert!(table[0][1].is_none());
    assert!(table[2][0].is_none());
    assert_eq!(table[2][1].as_ref().unwrap().0, 2);
    assert!(table[2][1].as_ref().unwrap().1.points.is_empty());
}

#[test]
fn table_without_destinations_has_empty_rows() {
    let nodes = vec![node(0, 0, 0, false), node(1, 1, 0, false)];
    let g = Graph::build(&nodes, vec![edge(0, 1)]).unwrap();
    let table = g.compute_distances();
    assert_eq!(table.len(), 2);
    assert!(table.iter().all(|row| row.is_empty()));
}

#[test]
fn empty_graph_builds() {
    let g = Graph::build(&[], vec![]).unwrap();
    assert_eq!(g.node_count(), 0);
    assert!(g.compute_distances().is_empty());
}

#[test]
fn nodes_may_come_in_any_order() {
    let nodes = vec![node(2, 1, 1, false), node(0, 0, 0, false), node(3, 0, 1, true), node(1, 1, 0, false)];
    let g = Graph::build(&nodes, vec![edge(0, 1), edge(1, 2), edge(2, 3)]).unwrap();
    let p = g.dijkstras(0, 3).unwrap();
    assert_eq!(p.points, vec![0, 1, 2, 3]);
    assert_eq!(p.dist, 5472);
}

#[test]
fn unknown_edge_endpoint_is_reported() {
    let nodes = vec![node(0, 0, 0, false), node(1, 1, 0, true)];
    assert_eq!(
        Graph::build(&nodes, vec![edge(0, 1), edge(1, 9)]).err(),
        Some(GraphError::UnknownNodeReference(9))
    );
    assert_eq!(Graph::build(&nodes, vec![edge(7, 7)]).err(), Some(GraphError::UnknownNodeReference(7)));
}

#[test]
fn out_of_range_node_id_is_reported() {
    let nodes = vec![node(0, 0, 0, false), node(5, 1, 0, true)];
    assert_eq!(Graph::build(&nodes, vec![]).err(), Some(GraphError::NodeIdOutOfRange(5)));
}

#[test]
fn duplicate_node_id_is_reported() {
    let nodes = vec![node(1, 0, 0, false), node(1, 1, 0, true)];
    assert_eq!(Graph::build(&nodes, vec![]).err(), Some(GraphError::DuplicateNodeId(1)));
}

#[test]
fn cheaper_detour_beats_direct_edge() {
    // 0 and 2 sit far out, so the direct edge between them is heavy.
    let nodes = vec![node(0, 10, 0, false), node(1, -10, 0, false), node(2, 10, 1, true)];
    let g = Graph::build(&nodes, vec![edge(0, 2), edge(0, 1), edge(1, 2)]).unwrap();
    assert_eq!(g.weight(0, 2), Some(20024));
    assert_eq!(g.weight(0, 1), Some(0));
    assert_eq!(g.weight(1, 2), Some(1000));
    let p = g.dijkstras(0, 2).unwrap();
    assert_eq!(p.points, vec![0, 1, 2]);
    assert_eq!(p.dist, 1000);
}

#[test]
fn integer_square_root() {
    assert_eq!(isqrt(0), 0);
    assert_eq!(isqrt(1), 1);
    assert_eq!(isqrt(15), 3);
    assert_eq!(isqrt(16), 4);
    assert_eq!(isqrt(5_000_000), 2236);
    let largest: u128 = 2 * (1u128 << 64);
    assert_eq!(isqrt(largest), 6074000999);
}

#[test]
fn reconstruct_follows_predecessors() {
    let pred = vec![None, Some(0), Some(1), Some(2)];
    assert_eq!(path_reconstruct(0, 3, &pred), Some(vec![0, 1, 2, 3]));
    assert_eq!(path_reconstruct(1, 3, &pred), Some(vec![1, 2, 3]));
    assert_eq!(path_reconstruct(2, 2, &pred), Some(vec![2]));
}

#[test]
fn reconstruct_reports_broken_chain() {
    let pred = vec![None, None, Some(1)];
    assert_eq!(path_reconstruct(0, 2, &pred), None);
    let cyclic = vec![None, Some(2), Some(1)];
    assert_eq!(path_reconstruct(0, 2, &cyclic), None);
    assert_eq!(path_reconstruct(0, 5, &cyclic), None);
}

#[test]
fn queue_hands_out_least_priority_first() {
    let mut q = MinQueue::new();
    q.push(5, 1);
    q.push(2, 2);
    q.push(9, 3);
    q.push(2, 4);
    assert_eq!(q.pop_min(), (2, 2));
    assert_eq!(q.pop_min(), (2, 4));
    assert_eq!(q.pop_min(), (5, 1));
    assert!(!q.is_empty());
    assert_eq!(q.pop_min(), (9, 3));
    assert!(q.is_empty());
}

#[test]
fn distances_are_the_same_both_ways() {
    let (nodes, edges) = ladder();
    let g = Graph::build(&nodes, edges).unwrap();
    for s in 0..8 {
        for t in 0..8 {
            assert_eq!(g.dijkstras(s, t).map(|p| p.dist), g.dijkstras(t, s).map(|p| p.dist));
        }
    }
}

#[test]
fn all_distances_from_records() {
    let nodes = vec![node(0, 0, 0, false), node(1, 1, 0, false), node(2, 1, 1, false), node(3, 0, 1, true)];
    let table = compute_all_distances(&nodes, vec![edge(0, 1), edge(1, 2), edge(2, 3)]).unwrap();
    assert_eq!(table.len(), 4);
    let expected: [(Vec<usize>, u128); 4] =
        [(vec![0, 1, 2, 3], 5472), (vec![1, 2, 3], 4472), (vec![2, 3], 2236), (vec![], 0)];
    for (i, (points, dist)) in expected.iter().enumerate() {
        assert_eq!(table[i].len(), 1);
        let (id, p) = table[i][0].as_ref().unwrap();
        assert_eq!(*id, 3);
        assert_eq!(&p.points, points);
        assert_eq!(p.dist, *dist);
    }
}

#[test]
fn all_distances_reports_bad_records() {
    let nodes = vec![node(0, 0, 0, true)];
    assert_eq!(compute_all_distances(&nodes, vec![edge(0, 4)]).err(), Some(GraphError::UnknownNodeReference(4)));
    let doubled = vec![node(0, 0, 0, true), node(0, 1, 1, true)];
    assert_eq!(compute_all_distances(&doubled, vec![]).err(), Some(GraphError::DuplicateNodeId(0)));
}
