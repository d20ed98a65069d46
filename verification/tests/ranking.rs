use sueca_solver::ranking::pareto_front_levels;

#[test]
fn fronts_of_empty_population() {
    let dominated_by: Vec<Vec<usize>> = Vec::new();
    assert!(pareto_front_levels(&dominated_by).is_empty());
}

#[test]
fn fronts_of_a_chain() {
    // 0 dominates 1 and 2; 1 dominates 2.
    let dominated_by = vec![vec![1, 2], vec![2], vec![]];
    assert_eq!(pareto_front_levels(&dominated_by), vec![0, 1, 2]);
}

#[test]
fn fronts_with_incomparable_items() {
    // 2 dominates 0 and 1, which do not dominate each other; 3 dominates nothing and
    // nothing dominates it.
    let dominated_by = vec![vec![], vec![], vec![0, 1], vec![]];
    assert_eq!(pareto_front_levels(&dominated_by), vec![1, 1, 0, 0]);
}

#[test]
fn fronts_wait_for_the_last_dominator() {
    // 4 waits for 0, 1 and 3; 1 and 3 sit in front 1, so 4 lands in front 2.
    let dominated_by = vec![vec![1, 3, 4], vec![4], vec![3], vec![4], vec![]];
    assert_eq!(pareto_front_levels(&dominated_by), vec![0, 1, 0, 1, 2]);
}

#[test]
fn fronts_leave_cycles_at_zero() {
    // 0 and 1 dominate each other, 1 dominates 2: none of them ever enters a front.
    let dominated_by = vec![vec![1], vec![0, 2], vec![], vec![]];
    assert_eq!(pareto_front_levels(&dominated_by), vec![0, 0, 0, 0]);
}

#[test]
fn fronts_count_repeated_entries() {
    // A repeated entry counts as often as it appears.
    let dominated_by = vec![vec![1, 1], vec![]];
    assert_eq!(pareto_front_levels(&dominated_by), vec![0, 1]);
}

#[test]
fn dominators_lie_in_earlier_fronts() {
    let dominated_by = vec![vec![2, 3], vec![3], vec![4], vec![4], vec![], vec![0]];
    let levels = pareto_front_levels(&dominated_by);
    for (i, list) in dominated_by.iter().enumerate() {
        for &j in list {
            assert!(levels[i] < levels[j], "{} dominates {} but is not in an earlier front", i, j);
        }
    }
}
