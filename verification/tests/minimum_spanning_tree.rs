use the_algorithms::kruskal;
use the_algorithms::Edge;
use the_algorithms::GraphError;

#[test]
fn test_seven_vertices_eleven_edges() {
    let mut edges: Vec<Edge> = Vec::new();
    edges.push(Edge::new(0, 1, 7));
    edges.push(Edge::new(0, 3, 5));
    edges.push(Edge::new(1, 2, 8));
    edges.push(Edge::new(1, 3, 9));
    edges.push(Edge::new(1, 4, 7));
    edges.push(Edge::new(2, 4, 5));
    edges.push(Edge::new(3, 4, 15));
    edges.push(Edge::new(3, 5, 6));
    edges.push(Edge::new(4, 5, 8));
    edges.push(Edge::new(4, 6, 9));
    edges.push(Edge::new(5, 6, 11));

    let number_of_vertices: i64 = 7;

    let expected_total_cost = 39;
    let mut expected_used_edges: Vec<Edge> = Vec::new();
    expected_used_edges.push(Edge::new(0, 3, 5));
    expected_used_edges.push(Edge::new(2, 4, 5));
    expected_used_edges.push(Edge::new(3, 5, 6));
    expected_used_edges.push(Edge::new(0, 1, 7));
    expected_used_edges.push(Edge::new(1, 4, 7));
    expected_used_edges.push(Edge::new(4, 6, 9));

    let (actual_total_cost, actual_final_edges) = kruskal(edges, number_of_vertices).unwrap();

    assert_eq!(actual_total_cost, expected_total_cost);
    assert_eq!(actual_final_edges, expected_used_edges);
}

#[test]
fn test_ten_vertices_twenty_edges() {
    let mut edges: Vec<Edge> = Vec::new();
    edges.push(Edge::new(0, 1, 3));
    edges.push(Edge::new(0, 3, 6));
    edges.push(Edge::new(0, 4, 9));
    edges.push(Edge::new(1, 2, 2));
    edges.push(Edge::new(1, 3, 4));
    edges.push(Edge::new(1, 4, 9));
    edges.push(Edge::new(2, 3, 2));
    edges.push(Edge::new(2, 5, 8));
    edges.push(Edge::new(2, 6, 9));
    edges.push(Edge::new(3, 6, 9));
    edges.push(Edge::new(4, 5, 8));
    edges.push(Edge::new(4, 9, 18));
    edges.push(Edge::new(5, 6, 7));
    edges.push(Edge::new(5, 8, 9));
    edges.push(Edge::new(5, 9, 10));
    edges.push(Edge::new(6, 7, 4));
    edges.push(Edge::new(6, 8, 5));
    edges.push(Edge::new(7, 8, 1));
    edges.push(Edge::new(7, 9, 4));
    edges.push(Edge::new(8, 9, 3));

    let number_of_vertices: i64 = 10;

    let expected_total_cost = 38;
    let mut expected_used_edges = Vec::new();
    expected_used_edges.push(Edge::new(7, 8, 1));
    expected_used_edges.push(Edge::new(1, 2, 2));
    expected_used_edges.push(Edge::new(2, 3, 2));
    expected_used_edges.push(Edge::new(0, 1, 3));
    expected_used_edges.push(Edge::new(8, 9, 3));
    expected_used_edges.push(Edge::new(6, 7, 4));
    expected_used_edges.push(Edge::new(5, 6, 7));
    expected_used_edges.push(Edge::new(2, 5, 8));
    expected_used_edges.push(Edge::new(4, 5, 8));

    let (actual_total_cost, actual_final_edges) = kruskal(edges, number_of_vertices).unwrap();

    assert_eq!(actual_total_cost, expected_total_cost);
    assert_eq!(actual_final_edges, expected_used_edges);
}

#[test]
fn out_of_range_edge_is_rejected() {
    let edges = vec![Edge::new(0, 5, 1)];
    assert_eq!(kruskal(edges, 3), Err(GraphError::OutOfRange));
    let edges = vec![Edge::new(-1, 0, 1)];
    assert_eq!(kruskal(edges, 3), Err(GraphError::OutOfRange));
}

#[test]
fn empty_graph() {
    let (total, selected) = kruskal(Vec::new(), 0).unwrap();
    assert_eq!(total, 0);
    assert!(selected.is_empty());
}

#[test]
fn two_disjoint_components() {
    // components {0, 1, 2} and {3, 4, 5, 6}
    let edges = vec![
        Edge::new(0, 1, 1),
        Edge::new(1, 2, 2),
        Edge::new(0, 2, 3),
        Edge::new(3, 4, 4),
        Edge::new(4, 5, 5),
        Edge::new(5, 6, 6),
        Edge::new(3, 6, 7),
    ];
    let (total, selected) = kruskal(edges, 7).unwrap();
    assert_eq!(selected.len(), 5);
    assert_eq!(total, (1 + 2) + (4 + 5 + 6));
}

// a plain union-find for the brute-force reference
fn root(parent: &mut Vec<usize>, mut v: usize) -> usize {
    while parent[v] != v {
        v = parent[v];
    }
    v
}

fn connects_all(edge_list: &[(i64, i64, i64)], chosen: usize, n: usize) -> bool {
    let mut parent: Vec<usize> = (0..n).collect();
    for (idx, &(s, d, _)) in edge_list.iter().enumerate() {
        if chosen & (1 << idx) != 0 {
            let rs = root(&mut parent, s as usize);
            let rd = root(&mut parent, d as usize);
            parent[rs] = rd;
        }
    }
    let r0 = root(&mut parent, 0);
    (1..n).all(|v| root(&mut parent, v) == r0)
}

#[test]
fn total_cost_matches_brute_force_minimum() {
    // every subset of edges that connects all vertices costs at least as
    // much as the spanning tree kruskal reports
    let edge_list: Vec<(i64, i64, i64)> = vec![
        (0, 1, 7),
        (0, 3, 5),
        (1, 2, 8),
        (1, 3, 9),
        (1, 4, 7),
        (2, 4, 5),
        (3, 4, 15),
        (3, 5, 6),
        (4, 5, 8),
        (4, 6, 9),
        (5, 6, 11),
    ];
    let n: usize = 7;
    let mut best: i64 = i64::MAX;
    for chosen in 0..(1usize << edge_list.len()) {
        if connects_all(&edge_list, chosen, n) {
            let cost: i64 = edge_list
                .iter()
                .enumerate()
                .filter(|(idx, _)| chosen & (1 << idx) != 0)
                .map(|(_, &(_, _, c))| c)
                .sum();
            if cost < best {
                best = cost;
            }
        }
    }
    let edges: Vec<Edge> = edge_list
        .iter()
        .map(|&(s, d, c)| Edge::new(s, d, c))
        .collect();
    let (total, selected) = kruskal(edges, n as i64).unwrap();
    assert_eq!(total, best);
    assert_eq!(selected.len(), n - 1);
}
