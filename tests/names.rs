use airport_graph::graph::Graph;
use airport_graph::names::{map_integers_to_airport_names, rank_airports, top_ranked_ids};
use airport_graph::registry::IdRegistry;
use std::collections::HashMap;

fn pairs(v: &[(&str, &str)]) -> Vec<(String, String)> {
    v.iter().map(|(a, b)| (a.to_string(), b.to_string())).collect()
}

#[test]
fn ids_get_names_and_missing_ones_none() {
    let mut reg = IdRegistry::new();
    reg.assign_or_get("JFK");
    reg.assign_or_get("XXX");
    reg.assign_or_get("LAX");
    let airports = pairs(&[("LAX", "Los Angeles"), ("JFK", "Kennedy"), ("JFK", "John F Kennedy")]);
    let names = map_integers_to_airport_names(&reg, &airports);
    assert_eq!(
        names,
        vec![Some("John F Kennedy".to_string()), None, Some("Los Angeles".to_string())]
    );
}

#[test]
fn ranking_is_by_degree_descending() {
    let g = Graph::create_directed(
        5,
        &vec![(1, 0), (1, 2), (1, 3), (3, 0), (3, 1), (4, 0), (0, 1), (0, 2)],
    );
    let c = g.compute_degree_centrality();
    let labels = vec![
        Some("A".to_string()),
        Some("B".to_string()),
        None,
        Some("D".to_string()),
        Some("E".to_string()),
    ];
    let r = rank_airports(&c, &labels, 10);
    assert_eq!(
        r,
        vec![
            ("B".to_string(), 3),
            ("A".to_string(), 2),
            ("D".to_string(), 2),
            ("E".to_string(), 1),
        ]
    );
    for w in r.windows(2) {
        assert!(w[0].1 >= w[1].1);
    }
    assert_eq!(top_ranked_ids(&c, &labels, 2), vec![1, 0]);
    assert_eq!(rank_airports(&c, &labels, 0), vec![]);
}

#[test]
fn ranking_skips_nodes_without_degree() {
    let mut c: HashMap<usize, usize> = HashMap::new();
    c.insert(1, 7);
    let labels = vec![Some("A".to_string()), Some("B".to_string())];
    assert_eq!(rank_airports(&c, &labels, 5), vec![("B".to_string(), 7)]);
}

#[test]
fn empty_graph_has_empty_ranking() {
    let g = Graph::create_directed(0, &vec![]);
    let c = g.compute_degree_centrality();
    assert!(rank_airports(&c, &vec![], 10).is_empty());
}
