use set_covering_problem::args::Args;

fn args_list(list: &[&str]) -> Vec<String> {
    list.iter().map(|s| s.to_string()).collect()
}

#[test]
fn test_generator_numeric_flags_are_read_and_cached() {
    let mut a = Args::new(args_list(&["generador", "-N", "100", "-S", "10", "-s", "7"]));
    assert_eq!(a.get_number_universe(), 100);
    assert_eq!(a.get_number_subset(), 10);
    assert_eq!(a.get_seed(), 7);
    // the cached values are handed back without re-reading
    assert_eq!(a.get_number_universe(), 100);
    assert_eq!(a.get_seed(), 7);
}

#[test]
fn test_generator_reads_first_occurrence() {
    let mut a = Args::new(args_list(&["generador", "-s", "3", "-s", "9"]));
    assert_eq!(a.get_seed(), 3);
}

#[test]
fn test_generator_negative_values() {
    let mut a = Args::new(args_list(&["generador", "-s", "-5"]));
    assert_eq!(a.get_seed(), -5);
}

#[test]
fn test_generator_help_flag() {
    let with_help = Args::new(args_list(&["generador", "-h"]));
    assert!(with_help.get_help());
    let long_form = Args::new(args_list(&["generador", "--help"]));
    assert!(long_form.get_help());
    let without = Args::new(args_list(&["generador", "-N", "4"]));
    assert!(!without.get_help());
}
