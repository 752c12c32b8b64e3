use set_covering_problem::set::SetModel;
use set_covering_problem::subset_cover::SubsetCover;

// Constantes para el Set de prueba estándar:
// |X| = 5
// |S| = 5
// max(S) = 5 (Subconjunto S4)
// Cobertura completa: {a, b, c, d, e}
//
// Los costos son racionales exactos: el numerador entero se divide entre
// |S| para obtener el valor que la fórmula de costo describe.

fn setup_test_set() -> SetModel {
    let subsets_data = vec![
        vec!["a".to_string(), "b".to_string()], // S0 (index 0)
        vec!["c".to_string(), "d".to_string()], // S1 (index 1)
        vec!["e".to_string()],                  // S2 (index 2)
        vec!["a".to_string(), "c".to_string()], // S3 (index 3)
        vec![
            "a".to_string(),
            "b".to_string(),
            "c".to_string(),
            "d".to_string(),
            "e".to_string(),
        ], // S4 (index 4)
    ];
    SetModel::new(subsets_data)
}

fn cost_value(numerator: usize, set: &SetModel) -> f64 {
    numerator as f64 / set.get_size_subsets() as f64
}

#[test]
fn tests_subset_cover_test_new_initialization() {
    let set = setup_test_set();
    let cover = SubsetCover::new(&set);

    assert!(
        cover.elements.is_empty(),
        "La cobertura debe iniciar vacía"
    );
    assert_eq!(cover.size, 0, "El tamaño debe ser 0");

    // El costo inicial debe ser el costo de una cobertura vacía:
    // Costo = (0 + (5 - 0) * 5 * 5) / 5 = 25.0
    assert_eq!(
        cost_value(cover.cost_numerator, &set),
        25.0,
        "El costo de una cobertura vacía debe ser 25.0"
    );
}

#[test]
fn test_calculate_cost_empty_cover() {
    let set = setup_test_set();
    let empty_subsets = vec![];

    // Costo = (0 + (5 - 0) * 5 * 5) / 5 = 25.0
    let cost = cost_value(SubsetCover::calculate_cost(&empty_subsets, &set).unwrap(), &set);
    assert_eq!(cost, 25.0);
}

#[test]
fn test_calculate_cost_incomplete_cover() {
    let set = setup_test_set();
    // C = {S0, S1} -> Cubre {a, b, c, d} -> Unión = 4
    // |C| = 2
    let subsets = vec![0, 1];

    // Costo = (|C| + (|X| - |Union|) * max(S) * |S|) / |S|
    // Costo = (2 + (5 - 4) * 5 * 5) / 5 = (2 + 25) / 5 = 27 / 5 = 5.4
    let cost = cost_value(SubsetCover::calculate_cost(&subsets, &set).unwrap(), &set);
    assert_eq!(cost, 5.4);
}

#[test]
fn test_calculate_cost_optimal_cover() {
    let set = setup_test_set();
    // C = {S4} (El subconjunto universal) -> Unión = 5
    // |C| = 1
    let subsets = vec![4];

    // Costo = (1 + (5 - 5) * 5 * 5) / 5 = (1 + 0) / 5 = 0.2
    let cost = cost_value(SubsetCover::calculate_cost(&subsets, &set).unwrap(), &set);
    assert_eq!(cost, 0.2);
}

#[test]
fn test_calculate_cost_redundant_cover() {
    let set = setup_test_set();
    // C = {S0, S1, S2, S4} -> Unión = 5
    // |C| = 4
    let subsets = vec![0, 1, 2, 4];

    // Costo = (4 + (5 - 5) * 5 * 5) / 5 = (4 + 0) / 5 = 0.8
    let cost = cost_value(SubsetCover::calculate_cost(&subsets, &set).unwrap(), &set);
    assert_eq!(cost, 0.8);
}

#[test]
fn test_add_subset_updates_state() {
    let set = setup_test_set();
    let mut cover = SubsetCover::new(&set);

    // 1. Agregar S0. C={S0}. |C|=1. Unión={a,b}. |Union|=2.
    // Costo = (1 + (5 - 2) * 5 * 5) / 5 = (1 + 75) / 5 = 76 / 5 = 15.2
    let cost_1 = cost_value(cover.add_subset(0, &set).unwrap(), &set);
    assert_eq!(cover.elements, vec![0], "Debe contener el índice 0");
    assert_eq!(cover.size, 1);
    assert_eq!(cost_1, 15.2);
    assert_eq!(cost_value(cover.cost_numerator, &set), 15.2);

    // 2. Agregar S1. C={S0, S1}. |C|=2. Unión={a,b,c,d}. |Union|=4.
    // Costo = (2 + (5 - 4) * 5 * 5) / 5 = (2 + 25) / 5 = 27 / 5 = 5.4
    let cost_2 = cost_value(cover.add_subset(1, &set).unwrap(), &set);
    assert_eq!(
        cover.elements,
        vec![0, 1],
        "Debe contener los índices 0 y 1 ordenados"
    );
    assert_eq!(cover.size, 2);
    assert_eq!(cost_2, 5.4);
    assert_eq!(cost_value(cover.cost_numerator, &set), 5.4);
}

#[test]
fn test_add_subset_duplicate() {
    let set = setup_test_set();
    let mut cover = SubsetCover::new(&set);

    // 1. Agregar S0. Costo = 15.2
    cover.add_subset(0, &set).unwrap();

    // 2. Intentar agregar S0 de nuevo. El costo y el estado no deben cambiar.
    let cost_after_duplicate = cost_value(cover.add_subset(0, &set).unwrap(), &set);
    assert_eq!(cover.elements, vec![0], "No debe agregar el duplicado");
    assert_eq!(cover.size, 1);
    assert_eq!(cost_after_duplicate, 15.2, "El costo no debe cambiar");
}

#[test]
fn test_add_subset_keeps_order_when_inserting_below() {
    let set = setup_test_set();
    let mut cover = SubsetCover::new(&set);
    cover.add_subset(3, &set).unwrap();
    cover.add_subset(1, &set).unwrap();
    cover.add_subset(4, &set).unwrap();
    assert_eq!(cover.elements, vec![1, 3, 4]);
    assert_eq!(cover.size, 3);
    // full coverage with three subsets: (3 + 0) / 5 = 0.6
    assert_eq!(cost_value(cover.cost_numerator, &set), 0.6);
}

#[test]
fn test_cost_monotone_when_coverage_drops() {
    let set = setup_test_set();
    // both families choose two subsets; {S0,S3} covers 3 elements,
    // {S0,S1} covers 4, so the former may not cost less
    let less_covering = SubsetCover::calculate_cost(&vec![0, 3], &set).unwrap();
    let more_covering = SubsetCover::calculate_cost(&vec![0, 1], &set).unwrap();
    assert!(less_covering >= more_covering);
    // Costo = (2 + (5 - 3) * 5 * 5) / 5 = 52 / 5 = 10.4
    assert_eq!(cost_value(less_covering, &set), 10.4);
}

#[test]
fn test_apply_neighbour_copies_everything() {
    let set = setup_test_set();
    let mut source = SubsetCover::new(&set);
    source.add_subset(4, &set).unwrap();
    let mut target = SubsetCover::new(&set);
    target.apply_neighbour(&source);
    assert_eq!(target.elements, vec![4]);
    assert_eq!(target.size, 1);
    assert_eq!(target.cost_numerator, source.cost_numerator);
    assert_eq!(cost_value(target.cost_numerator, &set), 0.2);
}

#[test]
fn test_get_cost_recomputes_without_mutating() {
    let set = setup_test_set();
    let mut cover = SubsetCover::new(&set);
    cover.add_subset(0, &set).unwrap();
    let recomputed = cover.get_cost(&set);
    assert_eq!(recomputed, cover.cost_numerator);
    assert_eq!(cover.elements, vec![0]);
}

#[test]
fn test_calculate_cost_rejects_first_out_of_range_index() {
    let set = setup_test_set();
    let e = SubsetCover::calculate_cost(&vec![0, 9, 7], &set).unwrap_err();
    assert_eq!(e.index, 9);
    assert_eq!(e.bound, 5);
}

#[test]
fn test_add_subset_rejects_out_of_range_index() {
    let set = setup_test_set();
    let mut cover = SubsetCover::new(&set);
    cover.add_subset(0, &set).unwrap();
    let e = cover.add_subset(8, &set).unwrap_err();
    assert_eq!(e.index, 8);
    assert_eq!(e.bound, 5);
    // the cover is untouched
    assert_eq!(cover.elements, vec![0]);
    assert_eq!(cover.size, 1);
}
