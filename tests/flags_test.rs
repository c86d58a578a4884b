use minigrep::{Config, Flag, ParseError};

fn args(v: &[&str]) -> Vec<String> {
    v.iter().map(|s| s.to_string()).collect()
}

fn options(v: &[&str]) -> Result<Flag, ParseError> {
    let a = args(v);
    Flag::from_vec(&a).map(|(f, _)| f)
}

#[test]
fn defaults_without_flags() {
    let a = args(&["needle", "file.txt"]);
    let (flag, rest) = Flag::from_vec(&a).unwrap();
    assert_eq!(flag, Flag::default());
    assert!(!flag.ignore_case && !flag.line_number);
    assert_eq!(flag.max_count, 0);
    assert_eq!(rest, vec![&a[0], &a[1]]);
}

#[test]
fn bundled_and_separate_short_flags_agree() {
    let bundled = options(&["-in"]).unwrap();
    let separate = options(&["-i", "-n"]).unwrap();
    let long = options(&["--ignore-case", "--line-number"]).unwrap();
    assert_eq!(bundled, separate);
    assert_eq!(bundled, long);
    assert!(bundled.ignore_case && bundled.line_number);
    assert_eq!(bundled.max_count, 0);
}

#[test]
fn unknown_short_flag() {
    assert_eq!(options(&["-z"]), Err(ParseError::UnknownOption('z')));
    assert_eq!(options(&["-iz", "q", "f"]), Err(ParseError::UnknownOption('z')));
    let a = args(&["-z", "query", "missing-file"]);
    assert!(matches!(Config::new(&a), Err(ParseError::UnknownOption('z'))));
}

#[test]
fn unknown_long_flag() {
    assert_eq!(
        options(&["--colour=always"]),
        Err(ParseError::UnknownLongOption("--colour=always".to_string()))
    );
}

#[test]
fn max_count_without_value() {
    assert_eq!(options(&["--max-count"]), Err(ParseError::InvalidMaxCount));
    assert_eq!(options(&["-m"]), Err(ParseError::InvalidMaxCount));
    assert_eq!(options(&["q", "--max-count"]), Err(ParseError::InvalidMaxCount));
}

#[test]
fn max_count_forms() {
    assert_eq!(options(&["-m", "3"]).unwrap().max_count, 3);
    assert_eq!(options(&["-m7"]).unwrap().max_count, 7);
    assert_eq!(options(&["--max-count", "12"]).unwrap().max_count, 12);
    assert_eq!(options(&["--max-count=255"]).unwrap().max_count, 255);
    assert_eq!(options(&["-m", "+4"]).unwrap().max_count, 4);
    assert_eq!(options(&["-m", "007"]).unwrap().max_count, 7);
    let f = options(&["-nm", "2"]).unwrap();
    assert!(f.line_number && !f.ignore_case);
    assert_eq!(f.max_count, 2);
}

#[test]
fn max_count_takes_rest_of_cluster() {
    assert_eq!(options(&["-m2i"]), Err(ParseError::InvalidMaxCount));
    let f = options(&["-im5"]).unwrap();
    assert!(f.ignore_case);
    assert_eq!(f.max_count, 5);
}

#[test]
fn max_count_consumes_next_argument() {
    let a = args(&["-m", "1", "query", "file"]);
    let (flag, rest) = Flag::from_vec(&a).unwrap();
    assert_eq!(flag.max_count, 1);
    assert_eq!(rest, vec![&a[2], &a[3]]);
    assert_eq!(options(&["-m", "-i"]), Err(ParseError::InvalidMaxCount));
}

#[test]
fn invalid_max_counts() {
    assert_eq!(options(&["-m", "256"]), Err(ParseError::InvalidMaxCount));
    assert_eq!(options(&["-m", "abc"]), Err(ParseError::InvalidMaxCount));
    assert_eq!(options(&["-m", "-3"]), Err(ParseError::InvalidMaxCount));
    assert_eq!(options(&["-m", "+"]), Err(ParseError::InvalidMaxCount));
    assert_eq!(options(&["-m", ""]), Err(ParseError::InvalidMaxCount));
    assert_eq!(options(&["--max-count="]), Err(ParseError::InvalidMaxCount));
    assert_eq!(options(&["--max-count=3=4"]), Err(ParseError::InvalidMaxCount));
}

#[test]
fn value_on_flag_without_value() {
    assert_eq!(options(&["--ignore-case=x"]), Err(ParseError::UnexpectedValue));
    assert_eq!(options(&["--line-number="]), Err(ParseError::UnexpectedValue));
}

#[test]
fn last_case_flag_wins() {
    assert!(!options(&["-i", "--no-ignore-case"]).unwrap().ignore_case);
    assert!(options(&["--no-ignore-case", "--ignore-case"]).unwrap().ignore_case);
}

#[test]
fn lone_dash_is_an_empty_cluster() {
    let a = args(&["-", "q"]);
    let (flag, rest) = Flag::from_vec(&a).unwrap();
    assert_eq!(flag, Flag::default());
    assert_eq!(rest, vec![&a[1]]);
}

#[test]
fn positionals_keep_their_order() {
    let a = args(&["one", "-i", "two", "-m", "3", "three"]);
    let (flag, rest) = Flag::from_vec(&a).unwrap();
    assert!(flag.ignore_case);
    assert_eq!(flag.max_count, 3);
    assert_eq!(rest, vec![&a[0], &a[2], &a[5]]);
}

#[test]
fn config_from_arguments() {
    let a = args(&["-n", "needle", "hay.txt", "extra"]);
    let c = Config::new(&a).unwrap();
    assert_eq!(c.query, "needle");
    assert_eq!(c.filename, "hay.txt");
    assert!(c.flag.line_number);
}

#[test]
fn config_missing_positional() {
    assert!(matches!(Config::new(&args(&["needle"])), Err(ParseError::MissingPositional)));
    assert!(matches!(Config::new(&args(&["-i"])), Err(ParseError::MissingPositional)));
    assert!(matches!(Config::new(&args(&[])), Err(ParseError::MissingPositional)));
}
