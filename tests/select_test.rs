use minigrep::report::{format_match, number_lines};
use minigrep::{filter_lines, search, search_ignore_case, search_text, Config, Flag};

fn numbered(lines: &[&str]) -> Vec<(usize, String)> {
    lines.iter().map(|s| s.to_string()).enumerate().collect()
}

fn flag(ignore_case: bool, line_number: bool, max_count: u8) -> Flag {
    Flag { ignore_case, line_number, max_count }
}

fn config(query: &str, f: Flag) -> Config {
    Config { query: query.to_string(), filename: "in.txt".to_string(), flag: f }
}

#[test]
fn scenario_case_sensitive_fixture() {
    let lines = numbered(&["Rust:", "safe, fast, productive.", "Pick three.", "Duct tape"]);
    let r = filter_lines("duct", &flag(false, false, 0), &lines);
    assert_eq!(r, vec![(1, "safe, fast, productive.".to_string())]);
}

#[test]
fn scenario_ignore_case_fixture() {
    let lines = numbered(&["Rust:", "safe, fast, productive.", "Pick three.", "Duct tape"]);
    let r = filter_lines("rUsT", &flag(true, false, 0), &lines);
    assert_eq!(r, vec![(0, "Rust:".to_string())]);
    let lines = numbered(&["Rust:", "safe, fast, productive.", "Pick three.", "Trust me."]);
    let r = filter_lines("rUsT", &flag(true, false, 0), &lines);
    assert_eq!(r, vec![(0, "Rust:".to_string()), (3, "Trust me.".to_string())]);
}

#[test]
fn max_count_keeps_first_match() {
    let a: Vec<String> = ["-m", "1", "ab", "f"].iter().map(|s| s.to_string()).collect();
    let c = Config::new(&a).unwrap();
    let lines = numbered(&["x", "ab 1", "y", "ab 2"]);
    let r = filter_lines(&c.query, &c.flag, &lines);
    assert_eq!(r, vec![(1, "ab 1".to_string())]);
}

#[test]
fn max_count_counts_matches_not_lines() {
    let lines = numbered(&["a", "b", "c", "a2", "a3"]);
    let r = filter_lines("a", &flag(false, false, 2), &lines);
    assert_eq!(r, vec![(0, "a".to_string()), (3, "a2".to_string())]);
}

#[test]
fn max_count_above_match_count() {
    let lines = numbered(&["a", "b", "a"]);
    let r = filter_lines("a", &flag(false, false, 200), &lines);
    assert_eq!(r.len(), 2);
}

#[test]
fn order_kept_and_sizes_bounded() {
    let lines = numbered(&["one", "two", "three", "four", "five", "six", "seven"]);
    for max in [0u8, 1, 2, 3, 10] {
        for q in ["o", "e", "", "zz", "T"] {
            for ic in [false, true] {
                let r = filter_lines(q, &flag(ic, false, max), &lines);
                assert!(r.windows(2).all(|w| w[0].0 < w[1].0));
                assert!(r.len() <= lines.len());
                if max != 0 {
                    assert!(r.len() <= max as usize);
                }
            }
        }
    }
}

#[test]
fn ignore_case_matches_lowercased_text() {
    let lines = numbered(&["HELLO world", "help", "shell"]);
    let r = search_ignore_case("ELL", lines.clone());
    assert_eq!(r, vec![(0, "HELLO world".to_string()), (2, "shell".to_string())]);
    let r = search("ELL", lines);
    assert_eq!(r, vec![(0, "HELLO world".to_string())]);
}

#[test]
fn exact_match_also_matches_ignoring_case() {
    let lines = numbered(&["AΣ", "ΣA", "Straße", "x"]);
    for q in ["Σ", "A", "ß", "Straße", ""] {
        let exact = search(q, lines.clone());
        let folded = search_ignore_case(q, lines.clone());
        assert!(exact.iter().all(|l| folded.contains(l)));
    }
    assert_eq!(search_ignore_case("σ", lines.clone()).len(), 2);
}

#[test]
fn rerun_gives_same_output() {
    let lines = numbered(&["alpha", "beta", "gamma", "alphabet"]);
    let f = flag(true, true, 0);
    let first = filter_lines("ALPHA", &f, &lines);
    let second = filter_lines("ALPHA", &f, &lines);
    assert_eq!(first, second);
    let again = filter_lines("ALPHA", &f, &first);
    assert_eq!(again, first);
}

#[test]
fn empty_query_returns_every_line() {
    let lines = numbered(&["a", "", "c"]);
    assert_eq!(search("", lines.clone()), lines);
    assert_eq!(search_ignore_case("", lines.clone()), lines);
    assert_eq!(filter_lines("", &flag(false, false, 2), &lines), lines[..2].to_vec());
}

#[test]
fn empty_text_has_no_match() {
    assert!(search("a", Vec::new()).is_empty());
    assert!(search_text(&config("", flag(false, false, 0)), "").is_empty());
}

#[test]
fn numbering_is_zero_based() {
    let r = number_lines(vec!["x".to_string(), "y".to_string()]);
    assert_eq!(r, vec![(0, "x".to_string()), (1, "y".to_string())]);
}

#[test]
fn format_with_and_without_number() {
    let rec = (12usize, "text".to_string());
    assert_eq!(format_match(&rec, true), "12:text");
    assert_eq!(format_match(&rec, false), "text");
}

#[test]
fn text_search_formats_numbered_lines() {
    let text = "Rust:\nsafe, fast, productive.\nPick three.\nTrust me.";
    let out = search_text(&config("rust", flag(true, true, 0)), text);
    assert_eq!(out, vec!["0:Rust:".to_string(), "3:Trust me.".to_string()]);
    let out = search_text(&config("RUST", flag(false, false, 0)), text);
    assert!(out.is_empty());
    let out = search_text(&config("rust", flag(false, false, 0)), text);
    assert_eq!(out, vec!["Trust me.".to_string()]);
}

#[test]
fn text_search_splits_crlf_lines() {
    let text = "a1\r\nb\r\na2\n";
    let out = search_text(&config("a", flag(false, true, 0)), text);
    assert_eq!(out, vec!["0:a1".to_string(), "2:a2".to_string()]);
    let out = search_text(&config("", flag(false, false, 0)), "x\n\ny\r");
    assert_eq!(out, vec!["x".to_string(), "".to_string(), "y\r".to_string()]);
}

#[test]
fn text_search_counts_past_ten() {
    let text: String = (0..12).map(|i| format!("line {}\n", i)).collect();
    let out = search_text(&config("line 11", flag(false, true, 0)), &text);
    assert_eq!(out, vec!["11:line 11".to_string()]);
}
