use set_covering_problem::read_input::parse_i32;
use set_covering_problem::read_input::parse_usize;
use set_covering_problem::read_input::InputError;
use set_covering_problem::read_input::ReadInput;

fn args(list: &[&str]) -> Vec<String> {
    list.iter().map(|s| s.to_string()).collect()
}

#[test]
fn test_new_rejects_a_lone_program_name() {
    let r = ReadInput::new(args(&["programa"]));
    assert!(matches!(r, Err(InputError::NoArgs)));
}

#[test]
fn test_new_accepts_arguments() {
    let r = ReadInput::new(args(&["programa", "-c", "subsets.txt"])).unwrap();
    assert_eq!(r.args.len(), 3);
    assert!(r.seeds.is_empty());
}

#[test]
fn test_flags_are_recognised() {
    let r = ReadInput::new(args(&["programa", "-v", "-svg"])).unwrap();
    assert!(r.get_verbose());
    assert!(r.get_svg());
    assert!(!r.get_help());
}

#[test]
fn test_help_flag_in_both_forms() {
    let short = ReadInput::new(args(&["programa", "-h"])).unwrap();
    assert!(short.get_help());
    let long = ReadInput::new(args(&["programa", "--help"])).unwrap();
    assert!(long.get_help());
    let none = ReadInput::new(args(&["programa", "-c", "x.txt"])).unwrap();
    assert!(!none.get_help());
}

#[test]
fn test_get_seed_single_value_and_cache() {
    let mut r = ReadInput::new(args(&["programa", "-s", "42"])).unwrap();
    let seeds = r.get_seed().unwrap();
    assert_eq!(seeds, vec![42]);
    // the list is cached and handed back unchanged
    let again = r.get_seed().unwrap();
    assert_eq!(again, vec![42]);
    assert_eq!(r.seeds, vec![42]);
}

#[test]
fn test_get_seed_inclusive_range() {
    let mut r = ReadInput::new(args(&["programa", "-s", "2", "5"])).unwrap();
    let seeds = r.get_seed().unwrap();
    assert_eq!(seeds, vec![2, 3, 4, 5]);
}

#[test]
fn test_get_seed_negative_second_value_reads_as_flag() {
    // "-1" starts with a dash, so it is taken for another flag and the
    // range collapses to the single seed -3
    let mut r = ReadInput::new(args(&["programa", "-s", "-3", "-1"])).unwrap();
    let seeds = r.get_seed().unwrap();
    assert_eq!(seeds, vec![-3]);
}

#[test]
fn test_get_seed_reversed_range_is_rejected() {
    let mut r = ReadInput::new(args(&["programa", "-s", "5", "2"])).unwrap();
    assert!(matches!(r.get_seed(), Err(InputError::InvalidSeed)));
}

#[test]
fn test_get_seed_rejects_both_flags() {
    let mut r = ReadInput::new(args(&["programa", "-s", "1", "-rs", "2"])).unwrap();
    assert!(matches!(r.get_seed(), Err(InputError::InvalidArgumentSeed)));
}

#[test]
fn test_get_seed_rejects_missing_flags() {
    let mut r = ReadInput::new(args(&["programa", "-v"])).unwrap();
    assert!(matches!(r.get_seed(), Err(InputError::InvalidSeed)));
}

#[test]
fn test_get_seed_rejects_unparsable_value() {
    let mut r = ReadInput::new(args(&["programa", "-s", "abc"])).unwrap();
    assert!(matches!(r.get_seed(), Err(InputError::InvalidSeed)));
}

#[test]
fn test_get_seed_random_count() {
    let mut r = ReadInput::new(args(&["programa", "-rs", "4"])).unwrap();
    let seeds = r.get_seed().unwrap();
    assert_eq!(seeds.len(), 4);
}

#[test]
fn test_get_seed_rejects_missing_value_after_s() {
    let mut r = ReadInput::new(args(&["programa", "-v", "-s"])).unwrap();
    assert!(matches!(r.get_seed(), Err(InputError::InvalidFormat(_))));
}

#[test]
fn test_get_seed_random_rejects_zero_and_missing_value() {
    let mut zero = ReadInput::new(args(&["programa", "-rs", "0"])).unwrap();
    assert!(matches!(zero.get_seed(), Err(InputError::InvalidSeed)));
    let mut missing = ReadInput::new(args(&["programa", "-rs"])).unwrap();
    assert!(matches!(missing.get_seed(), Err(InputError::InvalidFormat(_))));
}

#[test]
fn test_parse_i32_values() {
    assert_eq!(parse_i32("42"), Some(42));
    assert_eq!(parse_i32("+7"), Some(7));
    assert_eq!(parse_i32("-13"), Some(-13));
    assert_eq!(parse_i32("0"), Some(0));
    assert_eq!(parse_i32("2147483647"), Some(i32::MAX));
    assert_eq!(parse_i32("-2147483648"), Some(i32::MIN));
    assert_eq!(parse_i32("2147483648"), None);
    assert_eq!(parse_i32("-2147483649"), None);
    assert_eq!(parse_i32(""), None);
    assert_eq!(parse_i32("-"), None);
    assert_eq!(parse_i32("1a"), None);
    assert_eq!(parse_i32(" 1"), None);
    assert_eq!(parse_i32("99999999999999999999"), None);
}

#[test]
fn test_parse_usize_values() {
    assert_eq!(parse_usize("0"), Some(0));
    assert_eq!(parse_usize("+3"), Some(3));
    assert_eq!(parse_usize("4096"), Some(4096));
    assert_eq!(parse_usize("-1"), None);
    assert_eq!(parse_usize(""), None);
    assert_eq!(parse_usize("+"), None);
    assert_eq!(parse_usize("12x"), None);
    assert_eq!(parse_usize("99999999999999999999999999"), None);
}
