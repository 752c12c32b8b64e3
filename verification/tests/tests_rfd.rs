use set_covering_problem::rfd::RiverFormationDynamics;
use set_covering_problem::rfd::ALTITUDE_SCALE;
use set_covering_problem::set::SetModel;

// Fixed-point parameters: ALTITUDE_SCALE stands for 1.0, so these read
// as 2.0, 0.5 and 10.0.
const EROSION_RATE_K: u64 = 2 * ALTITUDE_SCALE;
const SEDIMENTATION_RATE: u64 = ALTITUDE_SCALE / 2;
const INITIAL_ALTITUDE: u64 = 10 * ALTITUDE_SCALE;

fn setup_test_set() -> SetModel {
    let subsets_data = vec![
        vec!["a".to_string(), "b".to_string()],
        vec!["c".to_string(), "d".to_string()],
        vec!["e".to_string()],
        vec!["a".to_string(), "c".to_string()],
        vec![
            "a".to_string(),
            "b".to_string(),
            "c".to_string(),
            "d".to_string(),
            "e".to_string(),
        ],
    ];
    SetModel::new(subsets_data)
}

fn run_once(seed: u64) -> (Vec<usize>, Vec<usize>, usize) {
    let set = setup_test_set();
    let mut engine = RiverFormationDynamics::new(
        5,
        10,
        EROSION_RATE_K,
        SEDIMENTATION_RATE,
        INITIAL_ALTITUDE,
        set.get_size_subsets(),
        seed,
    );
    let best = engine.solve(&set);
    let curve = engine.get_convergence_curve();
    (best.elements, curve, best.cost_numerator)
}

#[test]
fn test_solve_is_deterministic_for_a_fixed_seed() {
    let first = run_once(42);
    let second = run_once(42);
    assert_eq!(first.0, second.0, "los elementos deben coincidir");
    assert_eq!(first.1, second.1, "la curva debe coincidir");
    assert_eq!(first.2, second.2, "el costo debe coincidir");
}

#[test]
fn test_solve_finds_a_valid_cover_on_the_test_instance() {
    let set = setup_test_set();
    let mut engine = RiverFormationDynamics::new(
        5,
        10,
        EROSION_RATE_K,
        SEDIMENTATION_RATE,
        INITIAL_ALTITUDE,
        set.get_size_subsets(),
        7,
    );
    let best = engine.solve(&set);
    assert!(set.is_cover_valid(&best.elements));
    // the empty cover's numerator is 5 * 5 * 5 = 125; a found cover is better
    assert!(best.cost_numerator < 125);
    assert_eq!(best.size, best.elements.len());
}

#[test]
fn test_convergence_curve_has_one_entry_per_iteration() {
    let set = setup_test_set();
    let iterations = 8;
    let mut engine = RiverFormationDynamics::new(
        3,
        iterations,
        EROSION_RATE_K,
        SEDIMENTATION_RATE,
        INITIAL_ALTITUDE,
        set.get_size_subsets(),
        99,
    );
    let _ = engine.solve(&set);
    let curve = engine.get_convergence_curve();
    assert_eq!(curve.len(), iterations);
    // the first entry is the empty cover's cost numerator
    assert_eq!(curve[0], 125);
    // the recorded best never rises
    for w in curve.windows(2) {
        assert!(w[0] >= w[1]);
    }
}

#[test]
fn test_different_seeds_may_search_differently_but_both_finish() {
    let first = run_once(1);
    let second = run_once(2);
    assert_eq!(first.1.len(), 10);
    assert_eq!(second.1.len(), 10);
    // both runs end at a feasible cost on this easy instance
    assert!(first.2 < 125);
    assert!(second.2 < 125);
}

#[test]
fn test_single_iteration_single_drop_already_finds_a_cover() {
    // on a feasible instance even the smallest search returns a full cover
    let set = setup_test_set();
    let mut engine = RiverFormationDynamics::new(
        1,
        1,
        EROSION_RATE_K,
        SEDIMENTATION_RATE,
        INITIAL_ALTITUDE,
        set.get_size_subsets(),
        3,
    );
    let best = engine.solve(&set);
    assert!(!best.elements.is_empty());
    assert!(set.is_cover_valid(&best.elements));
}
