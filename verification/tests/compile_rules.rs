use sueca_solver::compile_rules::{compute_aliases, compute_depths, get_reachable_nodes, ConnGene};
use std::collections::HashSet;

fn conn(src: usize, dst: usize, enabled: bool) -> ConnGene {
    ConnGene { src, dst, enabled }
}

fn sample_conns() -> Vec<ConnGene> {
    vec![
        conn(3, 50, true),
        conn(50, 36, true),
        conn(4, 51, true),
        conn(5, 37, false),
        conn(52, 50, true),
    ]
}

#[test]
fn reachable_nodes_follow_enabled_connections_back_from_outputs() {
    let reachable = get_reachable_nodes(&sample_conns());
    let mut nodes: Vec<usize> = reachable.iter().cloned().collect();
    nodes.sort();
    assert_eq!(nodes, vec![3, 36, 37, 38, 39, 40, 41, 50, 52]);
}

#[test]
fn reachable_nodes_of_an_empty_genome_are_the_outputs() {
    let reachable = get_reachable_nodes(&[]);
    let mut nodes: Vec<usize> = reachable.iter().cloned().collect();
    nodes.sort();
    assert_eq!(nodes, vec![36, 37, 38, 39, 40, 41]);
}

#[test]
fn depths_grow_along_the_longest_feeding_chain() {
    let conns = sample_conns();
    let reachable = get_reachable_nodes(&conns);
    let order = [3usize, 4, 5, 52, 50, 51, 36, 37];
    let depths = compute_depths(&conns, &order, &reachable);
    for input in 0..=35usize {
        assert_eq!(depths[&input], 0);
    }
    assert_eq!(depths[&52], 1);
    assert_eq!(depths[&50], 2);
    assert!(!depths.contains_key(&51));
    for out in 36..42usize {
        assert_eq!(depths[&out], 3);
    }
}

fn alias_case() -> (Vec<ConnGene>, Vec<i8>, Vec<usize>, HashSet<usize>, HashSet<usize>) {
    // 3 -> 50 -(neg)-> 51 -(neg)-> 52 -> 36; 53 has two inputs; 54 reads the constant 55.
    let conns = vec![
        conn(3, 50, true),
        conn(50, 51, true),
        conn(51, 52, true),
        conn(52, 36, true),
        conn(3, 53, true),
        conn(4, 53, true),
        conn(55, 54, true),
    ];
    let signs = vec![1i8, -1, -1, 1, 1, 1, -1];
    let order = vec![3usize, 4, 55, 50, 51, 52, 53, 54, 36];
    let identity: HashSet<usize> = [50usize, 51, 52, 53, 54].into_iter().collect();
    let consts: HashSet<usize> = [55usize].into_iter().collect();
    (conns, signs, order, identity, consts)
}

#[test]
fn aliases_resolve_chains_of_single_input_nodes_with_combined_negation() {
    let (conns, signs, order, identity, consts) = alias_case();
    let aliases = compute_aliases(&conns, &signs, &order, &identity, &consts, true);
    let mut got: Vec<(usize, (usize, bool))> = aliases.into_iter().collect();
    got.sort();
    assert_eq!(got, vec![(50, (3, false)), (51, (3, true)), (52, (3, false))]);
}

#[test]
fn aliases_are_empty_away_from_the_unit_weight() {
    let (conns, signs, order, identity, consts) = alias_case();
    let aliases = compute_aliases(&conns, &signs, &order, &identity, &consts, false);
    assert!(aliases.is_empty());
}

#[test]
fn a_disabled_second_input_still_leaves_a_single_input_alias() {
    let conns = vec![conn(3, 50, true), conn(4, 50, false)];
    let signs = vec![-1i8, 1];
    let order = vec![3usize, 4, 50];
    let identity: HashSet<usize> = [50usize].into_iter().collect();
    let consts: HashSet<usize> = HashSet::new();
    let aliases = compute_aliases(&conns, &signs, &order, &identity, &consts, true);
    assert_eq!(aliases.get(&50), Some(&(3, true)));
    assert_eq!(aliases.len(), 1);
}
