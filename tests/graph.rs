use airport_graph::graph::{first_invalid_edge, reverse_edges, Graph};

#[test]
fn directed_build_of_three_nodes() {
    let g = Graph::create_directed(3, &vec![(0, 1), (0, 2), (1, 2)]);
    assert_eq!(g.n, 3);
    assert_eq!(g.outedges, vec![vec![1, 2], vec![2], vec![]]);
    let c = g.compute_degree_centrality();
    assert_eq!(c.len(), 3);
    assert_eq!(c[&0], 2);
    assert_eq!(c[&1], 1);
    assert_eq!(c[&2], 0);
}

#[test]
fn undirected_build_of_three_nodes() {
    let g = Graph::create_undirected(3, &vec![(0, 1), (0, 2), (1, 2)]);
    assert_eq!(g.outedges, vec![vec![1, 2], vec![0, 2], vec![0, 1]]);
    let c = g.compute_degree_centrality();
    assert_eq!(c[&0], 2);
    assert_eq!(c[&1], 2);
    assert_eq!(c[&2], 2);
}

#[test]
fn self_loop_is_kept() {
    let g = Graph::create_directed(2, &vec![(0, 0), (0, 1)]);
    assert_eq!(g.outedges[0], vec![0, 1]);
    let u = Graph::create_undirected(2, &vec![(0, 0)]);
    assert_eq!(u.outedges[0], vec![0, 0]);
}

#[test]
fn empty_edge_set_gives_empty_graph() {
    let g = Graph::create_directed(0, &vec![]);
    assert_eq!(g.n, 0);
    assert!(g.outedges.is_empty());
    assert!(g.compute_degree_centrality().is_empty());
    let h = Graph::create_directed(4, &vec![]);
    assert_eq!(h.outedges, vec![Vec::<usize>::new(); 4]);
}

#[test]
fn build_ignores_edge_order() {
    let a = Graph::create_directed(4, &vec![(3, 1), (0, 2), (3, 0), (0, 1), (3, 1)]);
    let b = Graph::create_directed(4, &vec![(0, 1), (3, 1), (3, 1), (0, 2), (3, 0)]);
    assert_eq!(a.outedges, b.outedges);
    assert_eq!(a.outedges[3], vec![0, 1, 1]);
}

#[test]
fn adjacency_is_sorted_with_duplicates() {
    let g = Graph::create_directed(5, &vec![(0, 4), (0, 1), (0, 3), (0, 1), (0, 0)]);
    assert_eq!(g.outedges[0], vec![0, 1, 1, 3, 4]);
}

#[test]
fn undirected_adjacency_is_symmetric() {
    let edges = vec![(0, 3), (2, 1), (3, 3), (1, 0), (2, 1)];
    let g = Graph::create_undirected(4, &edges);
    for u in 0..4 {
        for v in 0..4 {
            assert_eq!(g.outedges[u].contains(&v), g.outedges[v].contains(&u));
        }
    }
    assert_eq!(g.outedges[1], vec![0, 2, 2]);
}

#[test]
fn degree_is_list_length() {
    let g = Graph::create_directed(3, &vec![(2, 0), (2, 1), (2, 2), (1, 0)]);
    let c = g.compute_degree_centrality();
    for i in 0..3 {
        assert_eq!(c[&i], g.outedges[i].len());
    }
    assert_eq!(c[&2], 3);
}

#[test]
fn add_then_sort_lists() {
    let mut g = Graph { n: 3, outedges: vec![vec![2], vec![], vec![]] };
    g.add_directed_edges(&vec![(0, 1), (2, 0), (0, 0)]);
    assert_eq!(g.outedges, vec![vec![2, 1, 0], vec![], vec![0]]);
    g.sort_graph_lists();
    assert_eq!(g.outedges, vec![vec![0, 1, 2], vec![], vec![0]]);
}

#[test]
fn dedup_keeps_one_copy() {
    let mut g = Graph::create_directed(3, &vec![(0, 2), (0, 1), (0, 2), (1, 1), (1, 1)]);
    g.dedup_graph_lists();
    assert_eq!(g.outedges, vec![vec![1, 2], vec![1], vec![]]);
}

#[test]
fn invalid_edge_is_reported() {
    assert_eq!(first_invalid_edge(3, &vec![(0, 1), (2, 2)]), None);
    assert_eq!(first_invalid_edge(3, &vec![(0, 1), (1, 3), (5, 0)]), Some(1));
    assert_eq!(first_invalid_edge(0, &vec![]), None);
}

#[test]
fn reversed_edges() {
    assert_eq!(reverse_edges(&vec![(0, 1), (2, 2), (3, 1)]), vec![(1, 0), (2, 2), (1, 3)]);
}
