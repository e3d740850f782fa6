use yek::{
    compute_recentness_boost, get_file_priority, glob_to_regex, keep_path, parse_commit_log,
    pattern_to_regex, validate_config, IgnoreMatchers, Matcher, PriorityRule, YekConfig,
};

fn glob_matches(glob: &str, path: &str) -> bool {
    IgnoreMatchers::compile(&vec![glob.to_string()]).is_ignored(path)
}

#[test]
fn glob_star_stays_within_a_segment() {
    let single = glob_to_regex("src/*.rs");
    assert_eq!(single, "src/[^/]*\\.rs");
    assert!(glob_matches("src/*.rs", "src/lib.rs"));
    assert!(!glob_matches("src/*.rs", "src/sub/lib.rs"));
    let double = glob_to_regex("src/**.rs");
    assert_eq!(double, "src/.*\\.rs");
    assert!(glob_matches("src/**.rs", "src/lib.rs"));
    assert!(glob_matches("src/**.rs", "src/sub/lib.rs"));
    assert!(Matcher::new(&single).is_ok());
    assert!(Matcher::new("(").is_err());
}

#[test]
fn glob_translation_of_each_form() {
    assert_eq!(glob_to_regex("a?c"), "a.c");
    assert_eq!(glob_to_regex("[ab]x"), "[ab]x");
    assert_eq!(glob_to_regex("*.{rs,toml}"), "[^/]*\\.(rs|toml)");
    assert_eq!(glob_to_regex("my-file_2"), "my-file_2");
    assert_eq!(glob_to_regex("a+b"), "a\\+b");
    assert_eq!(glob_to_regex("é"), "é");
}

#[test]
fn regex_form_patterns_are_kept() {
    assert_eq!(pattern_to_regex("^target/"), "^target/");
    assert_eq!(pattern_to_regex(".*\\.lock$"), ".*\\.lock$");
    assert_eq!(pattern_to_regex("*.lock"), "[^/]*\\.lock");
}

#[test]
fn ignore_patterns_exclude_matching_paths() {
    let pats = vec!["*.log".to_string(), "^build/".to_string(), "(".to_string()];
    let m = IgnoreMatchers::compile(&pats);
    assert!(m.is_ignored("debug.log"));
    assert!(m.is_ignored("build/out.o"));
    assert!(!m.is_ignored("src/main.rs"));
}

#[test]
fn priority_is_the_maximum_matching_score() {
    let rules = vec![
        PriorityRule { pattern: ".*\\.rs$".to_string(), score: 10 },
        PriorityRule { pattern: "^src/".to_string(), score: 5 },
    ];
    assert_eq!(get_file_priority("src/lib.rs", &rules), 10);
    assert_eq!(get_file_priority("src/a.txt", &rules), 5);
    assert_eq!(get_file_priority("docs/a.txt", &rules), 0);
    let reversed = vec![rules[1].clone(), rules[0].clone()];
    assert_eq!(get_file_priority("src/lib.rs", &reversed), 10);
}

#[test]
fn invalid_rule_never_matches() {
    let rules = vec![PriorityRule { pattern: "(".to_string(), score: 9 }];
    assert_eq!(get_file_priority("(", &rules), 0);
}

#[test]
fn recency_boost_by_rank() {
    let times = vec![("A".to_string(), 100u64), ("B".to_string(), 200), ("C".to_string(), 300)];
    let b = compute_recentness_boost(&times, 50);
    assert_eq!(b, vec![("A".to_string(), 0), ("B".to_string(), 25), ("C".to_string(), 50)]);
    let shuffled = vec![("C".to_string(), 300u64), ("A".to_string(), 100), ("B".to_string(), 200)];
    let b = compute_recentness_boost(&shuffled, 50);
    assert_eq!(b, vec![("C".to_string(), 50), ("A".to_string(), 0), ("B".to_string(), 25)]);
}

#[test]
fn recency_boost_rounds_to_nearest() {
    let times: Vec<(String, u64)> = (0..5).map(|i| (format!("f{i}"), i as u64)).collect();
    let b: Vec<i32> = compute_recentness_boost(&times, 50).into_iter().map(|e| e.1).collect();
    assert_eq!(b, vec![0, 13, 25, 38, 50]);
}

#[test]
fn recency_boost_without_ranking() {
    assert!(compute_recentness_boost(&[], 50).is_empty());
    let one = vec![("only".to_string(), 5u64)];
    assert_eq!(compute_recentness_boost(&one, 50), vec![("only".to_string(), 0)]);
}

#[test]
fn commit_log_keeps_latest_time_per_path() {
    let log = "300\nsrc/a.rs\nsrc/b.rs\n\n200\nsrc/a.rs\r\nREADME.md\n";
    let times = parse_commit_log(log);
    assert_eq!(
        times,
        vec![
            ("src/a.rs".to_string(), 300),
            ("src/b.rs".to_string(), 300),
            ("README.md".to_string(), 200),
        ]
    );
    assert!(parse_commit_log("").is_empty());
}

#[test]
fn validation_reports_each_problem() {
    let mut c = YekConfig::new();
    c.priority_rules.push(PriorityRule { pattern: String::new(), score: -3 });
    c.priority_rules.push(PriorityRule { pattern: "(".to_string(), score: 10 });
    c.ignore_patterns.push("^(".to_string());
    c.ignore_patterns.push("*.tmp".to_string());
    c.max_size = Some(0);
    let errs = validate_config(&c);
    let fields: Vec<&str> = errs.iter().map(|e| e.field.as_str()).collect();
    assert_eq!(
        fields,
        vec!["priority_rules", "priority_rules", "priority_rules", "ignore_patterns", "max_size"]
    );
    assert_eq!(errs[0].message, "Priority score -3 must be between 0 and 1000");
    assert_eq!(errs[1].message, "Priority rule must have a pattern");
    assert!(errs[2].message.starts_with("Invalid regex pattern '(': "));
    assert!(errs[2].message.len() > "Invalid regex pattern '(': ".len());
    assert!(errs[3].message.starts_with("Invalid pattern '^(': "));
    assert_eq!(errs[4].message, "Max size cannot be 0");
}

#[test]
fn valid_config_has_no_problems() {
    let mut c = YekConfig::new();
    c.priority_rules.push(PriorityRule { pattern: "^src/".to_string(), score: 1000 });
    c.max_size = Some(10);
    assert!(validate_config(&c).is_empty());
}

#[test]
fn walker_keeps_only_unignored_paths() {
    let m = IgnoreMatchers::compile(&vec!["*.log".to_string()]);
    assert!(keep_path("src/main.rs", false, &m));
    assert!(!keep_path("src/main.rs", true, &m));
    assert!(!keep_path(".git/config", false, &m));
    assert!(!keep_path(".git", false, &m));
    assert!(keep_path(".github/ci.yml", false, &m));
    assert!(!keep_path("run.log", false, &m));
}
