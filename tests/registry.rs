use airport_graph::registry::{map_airports_to_integers, IdRegistry};

#[test]
fn repeated_key_reuses_its_id() {
    let mut r = IdRegistry::new();
    assert_eq!(r.assign_or_get("JFK"), 0);
    assert_eq!(r.assign_or_get("LAX"), 1);
    assert_eq!(r.assign_or_get("JFK"), 0);
    assert_eq!(r.len(), 2);
}

#[test]
fn lookups_in_both_directions() {
    let mut r = IdRegistry::new();
    r.assign_or_get("ORD");
    r.assign_or_get("");
    assert_eq!(r.id_of("ORD"), Some(0));
    assert_eq!(r.id_of(""), Some(1));
    assert_eq!(r.id_of("ATL"), None);
    assert_eq!(r.key_of(0).map(|s| s.as_str()), Some("ORD"));
    assert_eq!(r.key_of(1).map(|s| s.as_str()), Some(""));
    assert_eq!(r.key_of(2), None);
}

#[test]
fn routes_become_id_pairs() {
    let routes = vec![
        ("JFK".to_string(), "LAX".to_string()),
        ("LAX".to_string(), "SFO".to_string()),
        ("SFO".to_string(), "JFK".to_string()),
        ("JFK".to_string(), "JFK".to_string()),
    ];
    let (reg, edges) = map_airports_to_integers(&routes);
    assert_eq!(edges, vec![(0, 1), (1, 2), (2, 0), (0, 0)]);
    assert_eq!(reg.len(), 3);
    assert_eq!(reg.id_of("SFO"), Some(2));
}

#[test]
fn no_routes_no_ids() {
    let (reg, edges) = map_airports_to_integers(&vec![]);
    assert_eq!(reg.len(), 0);
    assert!(edges.is_empty());
}
