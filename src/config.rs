use vstd::prelude::*;

use crate::glob::pattern_regex;
use crate::pattern::{pattern_to_regex, regex_compiles, regex_error_text, Matcher};
use crate::priority::PriorityRule;
use crate::text::{digits, push_decimal, push_str, string_of};

verus! {

/// Ignore patterns as a list of their own.
#[derive(Clone, Debug)]
pub struct IgnorePatterns {
    pub patterns: Vec<String>,
}

/// The run's configuration.
#[derive(Clone, Debug)]
pub struct YekConfig {
    pub ignore_patterns: Vec<String>,
    pub priority_rules: Vec<PriorityRule>,
    pub binary_extensions: Vec<String>,
    pub max_size: Option<usize>,
    pub output_dir: Option<String>,
    pub stream: bool,
    pub token_mode: bool,
}

impl YekConfig {
    /// No patterns, rules or extensions; default size; files written, byte mode.
    pub fn new() -> (r: YekConfig)
        ensures
            r.ignore_patterns@.len() == 0,
            r.priority_rules@.len() == 0,
            r.binary_extensions@.len() == 0,
            r.max_size.is_none(),
            r.output_dir.is_none(),
            !r.stream,
            !r.token_mode,
    {
        YekConfig {
            ignore_patterns: Vec::new(),
            priority_rules: Vec::new(),
            binary_extensions: Vec::new(),
            max_size: None,
            output_dir: None,
            stream: false,
            token_mode: false,
        }
    }
}

/// A problem found in a configuration: the field and what is wrong.
#[derive(Clone, Debug)]
pub struct ConfigError {
    pub field: String,
    pub message: String,
}

/// The problems that validation reports, in order.
pub ghost enum Issue {
    ScoreOutOfRange(i32),
    MissingPattern,
    InvalidRule(Seq<char>),
    InvalidIgnore(Seq<char>),
    ZeroMaxSize,
}

pub open spec fn rule_issues(r: PriorityRule) -> Seq<Issue> {
    (if r.score < 0 || r.score > 1000 {
        seq![Issue::ScoreOutOfRange(r.score)]
    } else {
        seq![]
    }) + (if r.pattern@.len() == 0 {
        seq![Issue::MissingPattern]
    } else {
        seq![]
    }) + (if !regex_compiles(r.pattern@) {
        seq![Issue::InvalidRule(r.pattern@)]
    } else {
        seq![]
    })
}

pub open spec fn rules_issues(rules: Seq<PriorityRule>) -> Seq<Issue>
    decreases rules.len(),
{
    if rules.len() == 0 {
        seq![]
    } else {
        rules_issues(rules.drop_last()) + rule_issues(rules.last())
    }
}

pub open spec fn ignore_issues(patterns: Seq<String>) -> Seq<Issue>
    decreases patterns.len(),
{
    if patterns.len() == 0 {
        seq![]
    } else {
        ignore_issues(patterns.drop_last()) + if !regex_compiles(pattern_regex(patterns.last()@)) {
            seq![Issue::InvalidIgnore(patterns.last()@)]
        } else {
            seq![]
        }
    }
}

/// Every problem of `c` that does not depend on the file system: rule
/// scores outside 0..=1000, empty rule patterns, rule regexes that do not
/// compile, ignore patterns whose regex does not compile, a zero size.
pub open spec fn issues(c: YekConfig) -> Seq<Issue> {
    rules_issues(c.priority_rules@) + ignore_issues(c.ignore_patterns@) + if c.max_size
        == Some(0usize) {
        seq![Issue::ZeroMaxSize]
    } else {
        seq![]
    }
}

/// Decimal text of an integer, with a leading `-` when negative.
pub open spec fn int_text(n: int) -> Seq<char> {
    let d = digits((if n < 0 {
        -n
    } else {
        n
    }) as nat).map_values(|b: u8| b as char);
    if n < 0 {
        seq!['-'] + d
    } else {
        d
    }
}

/// `e` reports `i`: its field, and its message (for a regex that does not
/// compile, the message begins with the pattern and goes on with the
/// regex engine's own words).
pub open spec fn reports(e: ConfigError, i: Issue) -> bool {
    match i {
        Issue::ScoreOutOfRange(s) => e.field@ == "priority_rules"@ && e.message@ == "Priority score "@
            + int_text(s as int) + " must be between 0 and 1000"@,
        Issue::MissingPattern => e.field@ == "priority_rules"@ && e.message@
            == "Priority rule must have a pattern"@,
        Issue::InvalidRule(p) => e.field@ == "priority_rules"@ && {
            let head = "Invalid regex pattern '"@ + p + "': "@;
            e.message@.len() >= head.len() && e.message@.take(head.len() as int) == head
        },
        Issue::InvalidIgnore(p) => e.field@ == "ignore_patterns"@ && {
            let head = "Invalid pattern '"@ + p + "': "@;
            e.message@.len() >= head.len() && e.message@.take(head.len() as int) == head
        },
        Issue::ZeroMaxSize => e.field@ == "max_size"@ && e.message@ == "Max size cannot be 0"@,
    }
}

fn push_int(out: &mut Vec<char>, n: i32)
    ensures
        final(out)@ == old(out)@ + int_text(n as int),
{
    let ghost start = out@;
    let mag: usize = if n < 0 {
        (-(n as i64)) as usize
    } else {
        n as usize
    };
    if n < 0 {
        out.push('-');
    }
    let ghost mid = out@;
    let mut ds: Vec<u8> = Vec::new();
    push_decimal(&mut ds, mag);
    assert(ds@ =~= digits(mag as nat));
    let mut i: usize = 0;
    while i < ds.len()
        invariant
            i <= ds@.len(),
            out@ == mid + ds@.subrange(0, i as int).map_values(|b: u8| b as char),
        decreases ds@.len() - i,
    {
        out.push(ds[i] as char);
        i = i + 1;
        assert(out@ =~= mid + ds@.subrange(0, i as int).map_values(|b: u8| b as char));
    }
    assert(ds@.subrange(0, i as int) =~= ds@);
    assert(out@ =~= start + int_text(n as int));
}

fn issue_error(field: &str, parts: Vec<char>) -> (r: ConfigError)
    ensures
        r.field@ == field@,
        r.message@ == parts@,
{
    ConfigError { field: field.to_string(), message: string_of(&parts) }
}

fn regex_issue(field: &str, lead: &str, pattern: &str, e: &regex::Error) -> (r: ConfigError)
    ensures
        r.field@ == field@,
        r.message@.len() >= (lead@ + pattern@ + "': "@).len(),
        r.message@.take((lead@ + pattern@ + "': "@).len() as int) == lead@ + pattern@ + "': "@,
{
    let mut m: Vec<char> = Vec::new();
    push_str(&mut m, lead);
    push_str(&mut m, pattern);
    push_str(&mut m, "': ");
    let ghost head = m@;
    let text = regex_error_text(e);
    push_str(&mut m, text.as_str());
    assert(m@.take(head.len() as int) =~= head);
    issue_error(field, m)
}

/// Checks the configuration, returning each problem found, in order: for
/// each priority rule its score range, its pattern being present, and its
/// regex; then each ignore pattern's regex; then a zero size. Checks of the
/// output directory need the file system and are left to the caller.
pub fn validate_config(config: &YekConfig) -> (r: Vec<ConfigError>)
    ensures
        r@.len() == issues(*config).len(),
        forall|i: int| 0 <= i < r@.len() ==> reports(#[trigger] r@[i], issues(*config)[i]),
{
    let ghost rules = config.priority_rules@;
    let mut errors: Vec<ConfigError> = Vec::new();
    let mut i: usize = 0;
    while i < config.priority_rules.len()
        invariant
            i <= rules.len(),
            rules == config.priority_rules@,
            errors@.len() == rules_issues(rules.take(i as int)).len(),
            forall|k: int|
                0 <= k < errors@.len() ==> reports(#[trigger] errors@[k], rules_issues(rules.take(i as int))[k]),
        decreases rules.len() - i,
    {
        let ghost before = errors@;
        let ghost prev = rules_issues(rules.take(i as int));
        let rule = &config.priority_rules[i];
        assert(rules.take(i + 1).drop_last() =~= rules.take(i as int));
        assert(rules.take(i + 1).last() == *rule);
        let ghost want = rule_issues(*rule);
        let ghost mut got: Seq<Issue> = seq![];
        if rule.score < 0 || rule.score > 1000 {
            let mut m: Vec<char> = Vec::new();
            push_str(&mut m, "Priority score ");
            push_int(&mut m, rule.score);
            push_str(&mut m, " must be between 0 and 1000");
            errors.push(issue_error("priority_rules", m));
            proof {
                got = got.push(Issue::ScoreOutOfRange(rule.score));
            }
        }
        if rule.pattern.as_str().is_empty() {
            let mut m: Vec<char> = Vec::new();
            push_str(&mut m, "Priority rule must have a pattern");
            errors.push(issue_error("priority_rules", m));
            proof {
                got = got.push(Issue::MissingPattern);
            }
        }
        match Matcher::new(rule.pattern.as_str()) {
            Ok(_) => {},
            Err(e) => {
                errors.push(regex_issue("priority_rules", "Invalid regex pattern '", rule.pattern.as_str(), &e));
                proof {
                    got = got.push(Issue::InvalidRule(rule.pattern@));
                }
            },
        }
        assert(got =~= want);
        assert(errors@.len() == before.len() + want.len());
        assert forall|k: int| 0 <= k < errors@.len() implies reports(
            #[trigger] errors@[k],
            rules_issues(rules.take(i + 1))[k],
        ) by {
            assert(rules_issues(rules.take(i + 1)) =~= prev + want);
            if k < before.len() {
                assert(errors@[k] == before[k]);
            }
        }
        i = i + 1;
    }
    assert(rules.take(i as int) =~= rules);
    let ghost pats = config.ignore_patterns@;
    let ghost base = errors@;
    let ghost base_issues = rules_issues(rules);
    let mut j: usize = 0;
    while j < config.ignore_patterns.len()
        invariant
            j <= pats.len(),
            pats == config.ignore_patterns@,
            base.len() == base_issues.len(),
            errors@.len() == base.len() + ignore_issues(pats.take(j as int)).len(),
            forall|k: int| 0 <= k < base.len() ==> reports(#[trigger] base[k], base_issues[k]),
            forall|k: int| 0 <= k < base.len() ==> errors@[k] == base[k],
            forall|k: int|
                0 <= k < ignore_issues(pats.take(j as int)).len() ==> reports(
                    #[trigger] errors@[base.len() + k],
                    ignore_issues(pats.take(j as int))[k],
                ),
        decreases pats.len() - j,
    {
        let ghost before = errors@;
        let ghost prev = ignore_issues(pats.take(j as int));
        assert(pats.take(j + 1).drop_last() =~= pats.take(j as int));
        let pattern = &config.ignore_patterns[j];
        let source = pattern_to_regex(pattern.as_str());
        match Matcher::new(source.as_str()) {
            Ok(_) => {
                assert(ignore_issues(pats.take(j + 1)) =~= prev);
            },
            Err(e) => {
                errors.push(regex_issue("ignore_patterns", "Invalid pattern '", pattern.as_str(), &e));
                assert(ignore_issues(pats.take(j + 1)) =~= prev.push(Issue::InvalidIgnore(pattern@)));
                assert(errors@[(base.len() + prev.len()) as int] == errors@[before.len() as int]);
            },
        }
        j = j + 1;
    }
    assert(pats.take(j as int) =~= pats);
    let ghost mid = errors@;
    if config.max_size == Some(0usize) {
        let mut m: Vec<char> = Vec::new();
        push_str(&mut m, "Max size cannot be 0");
        errors.push(issue_error("max_size", m));
    }
    proof {
        let all = issues(*config);
        assert forall|k: int| 0 <= k < errors@.len() implies reports(#[trigger] errors@[k], all[k]) by {
            if k < base.len() {
                assert(errors@[k] == base[k]);
            } else if k < mid.len() {
                assert(errors@[k] == errors@[base.len() + (k - base.len())]);
            }
        }
    }
    errors
}

} // verus!
