use sueca_solver::compatibility::{compatibility_counts, PyCompatibilityGenome};

fn genome(conns: &[(usize, i8, bool)], nodes: &[(usize, u8, u8, u8)]) -> PyCompatibilityGenome {
    PyCompatibilityGenome {
        conn_innovations: conns.iter().map(|c| c.0).collect(),
        conn_signs: conns.iter().map(|c| c.1).collect(),
        conn_enableds: conns.iter().map(|c| c.2).collect(),
        node_ids: nodes.iter().map(|n| n.0).collect(),
        node_types: nodes.iter().map(|n| n.3).collect(),
        node_activations: nodes.iter().map(|n| n.1).collect(),
        node_aggregations: nodes.iter().map(|n| n.2).collect(),
    }
}

#[test]
fn counts_match_connections_by_innovation() {
    // a: 1, 2, 3, 7 ; b: 2, 3, 4 (out of order)
    let a = genome(&[(3, 1, true), (1, 1, true), (7, -1, true), (2, 1, true)], &[]);
    let b = genome(&[(4, 1, true), (2, -1, true), (3, 1, false)], &[]);
    let c = compatibility_counts(&a, &b);
    assert_eq!((c.conns_a, c.conns_b), (4, 3));
    assert_eq!(c.shared, 2);
    // 1 and 4 lie within the other's range, 7 beyond it.
    assert_eq!(c.disjoint, 2);
    assert_eq!(c.excess, 1);
    // 2: sign differs (2 halves); 3: enabled differs (1 half).
    assert_eq!(c.sign_diff_halves, 3);
    assert_eq!(c.node_diff_halves, 0);
}

#[test]
fn counts_compare_hidden_nodes_by_id() {
    // Type 2 is hidden; a later entry with the same id replaces an earlier one.
    let a = genome(&[], &[(40, 1, 1, 2), (41, 0, 0, 2), (41, 2, 0, 2), (5, 0, 0, 0)]);
    let b = genome(&[], &[(41, 2, 1, 2), (42, 0, 0, 2), (42, 0, 0, 2)]);
    let c = compatibility_counts(&a, &b);
    // 40 only in a (2), 41 aggregation differs (1), 42 only in b (2).
    assert_eq!(c.node_diff_halves, 5);
    assert_eq!((c.shared, c.disjoint, c.excess), (0, 0, 0));
}
