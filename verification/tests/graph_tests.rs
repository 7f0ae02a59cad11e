use xa_promote::get_version;
use xa_promote::graph::{shortest_distances_from, Graph};

fn graph(adj: Vec<Vec<usize>>) -> Graph {
    Graph::from_adjacency(adj).expect("valid graph")
}

#[test]
fn version_is_crate_version() {
    assert_eq!(get_version(), "0.1.0");
}

#[test]
fn from_adjacency_rejects_dangling_successor() {
    assert!(Graph::from_adjacency(vec![vec![1], vec![2]]).is_none());
    assert!(Graph::from_adjacency(vec![vec![1], vec![0]]).is_some());
    assert!(Graph::from_adjacency(vec![]).is_some());
}

#[test]
fn successors_in_order() {
    let g = graph(vec![vec![2, 1], vec![], vec![0]]);
    assert_eq!(g.node_count(), 3);
    assert_eq!(g.successors(0), &vec![2, 1]);
    assert!(g.successors(1).is_empty());
}

#[test]
fn distances_on_a_path() {
    let g = graph(vec![vec![1], vec![2], vec![3], vec![]]);
    assert_eq!(shortest_distances_from(&g, 0), vec![Some(0), Some(1), Some(2), Some(3)]);
    assert_eq!(shortest_distances_from(&g, 2), vec![None, None, Some(0), Some(1)]);
}

#[test]
fn distances_take_the_shortcut() {
    // 0 -> 1 -> 2 -> 3 -> 4 and a shortcut 0 -> 3.
    let g = graph(vec![vec![1, 3], vec![2], vec![3], vec![4], vec![]]);
    assert_eq!(
        shortest_distances_from(&g, 0),
        vec![Some(0), Some(1), Some(2), Some(1), Some(2)]
    );
}

#[test]
fn distances_on_a_cycle_with_self_loop() {
    let g = graph(vec![vec![0, 1], vec![2], vec![0]]);
    assert_eq!(shortest_distances_from(&g, 1), vec![Some(2), Some(0), Some(1)]);
}

#[test]
fn distances_of_an_isolated_source() {
    let g = graph(vec![vec![], vec![0]]);
    assert_eq!(shortest_distances_from(&g, 0), vec![Some(0), None]);
}

#[test]
fn distances_on_an_undirected_star() {
    // Edges in both directions around centre 0.
    let g = graph(vec![vec![1, 2, 3], vec![0], vec![0], vec![0]]);
    assert_eq!(shortest_distances_from(&g, 2), vec![Some(1), Some(2), Some(0), Some(2)]);
}
