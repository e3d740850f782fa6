use vstd::prelude::*;

use crate::pattern::{regex_compiles, regex_matches, Matcher};

verus! {

/// A priority rule: a regex over the normalized path and the score it gives.
#[derive(Clone, Debug)]
pub struct PriorityRule {
    pub pattern: String,
    pub score: i32,
}

/// The largest boost the most recently changed file receives.
pub const MAX_RECENCY_BOOST: i32 = 50;

/// Whether `rule` matches `path`; a rule whose regex does not compile never does.
pub open spec fn rule_hits(rule: PriorityRule, path: Seq<char>) -> bool {
    regex_compiles(rule.pattern@) && regex_matches(rule.pattern@, path)
}

/// The largest score among the rules that match `path`, if any does.
pub open spec fn best_score(rules: Seq<PriorityRule>, path: Seq<char>) -> Option<i32>
    decreases rules.len(),
{
    if rules.len() == 0 {
        None
    } else {
        let before = best_score(rules.drop_last(), path);
        let r = rules.last();
        if rule_hits(r, path) {
            match before {
                Some(s) => Some(if s >= r.score { s } else { r.score }),
                None => Some(r.score),
            }
        } else {
            before
        }
    }
}

/// A path's pattern score: the maximum over matching rules, 0 when none matches.
pub open spec fn pattern_score(rules: Seq<PriorityRule>, path: Seq<char>) -> i32 {
    match best_score(rules, path) {
        Some(s) => s,
        None => 0,
    }
}

/// A path's pattern score is the largest score among the rules that match
/// it, and 0 when none does: it is bounded by every matching rule's score
/// and reached by one of them, so neither summing nor rule order enters.
pub proof fn lemma_score_is_maximum(rules: Seq<PriorityRule>, path: Seq<char>)
    ensures
        best_score(rules, path).is_none() <==> forall|k: int|
            0 <= k < rules.len() ==> !rule_hits(#[trigger] rules[k], path),
        forall|k: int|
            0 <= k < rules.len() && rule_hits(#[trigger] rules[k], path) ==> rules[k].score
                <= pattern_score(rules, path),
        best_score(rules, path).is_some() ==> exists|k: int|
            0 <= k < rules.len() && rule_hits(#[trigger] rules[k], path) && rules[k].score
                == pattern_score(rules, path),
    decreases rules.len(),
{
    if rules.len() > 0 {
        let init = rules.drop_last();
        lemma_score_is_maximum(init, path);
        let n = rules.len() - 1;
        assert forall|k: int| 0 <= k < n implies #[trigger] rules[k] == init[k] by {}
        if best_score(init, path).is_some() {
            let k0 = choose|k: int|
                0 <= k < init.len() && rule_hits(#[trigger] init[k], path) && init[k].score
                    == pattern_score(init, path);
            assert(rules[k0] == init[k0]);
        }
        if rule_hits(rules[n], path) {
            assert(best_score(rules, path).is_some());
        }
    }
}

/// The rules compiled once, in order; `None` where a rule does not compile.
pub struct CompiledRules {
    matchers: Vec<Option<Matcher>>,
    scores: Vec<i32>,
    sources: Ghost<Seq<PriorityRule>>,
}

impl CompiledRules {
    /// The rules these were compiled from.
    pub closed spec fn rules(&self) -> Seq<PriorityRule> {
        self.sources@
    }

    spec fn compiled_from(&self, rules: Seq<PriorityRule>) -> bool {
        &&& self.matchers@.len() == rules.len()
        &&& self.scores@.len() == rules.len()
        &&& forall|k: int|
            0 <= k < rules.len() ==> {
                let m = #[trigger] self.matchers@[k];
                &&& m.is_some() == regex_compiles(rules[k].pattern@)
                &&& m.is_some() ==> m.unwrap().pattern() == rules[k].pattern@
                &&& self.scores@[k] == rules[k].score
            }
    }

    /// Well formed: compiled from exactly `rules()`.
    pub closed spec fn wf(&self) -> bool {
        self.compiled_from(self.sources@)
    }

    pub fn compile(rules: &[PriorityRule]) -> (r: CompiledRules)
        ensures
            r.wf(),
            r.rules() == rules@,
    {
        let mut matchers: Vec<Option<Matcher>> = Vec::new();
        let mut scores: Vec<i32> = Vec::new();
        let mut i: usize = 0;
        while i < rules.len()
            invariant
                i <= rules@.len(),
                (CompiledRules { matchers, scores, sources: Ghost(rules@) }).compiled_from(
                    rules@.take(i as int),
                ),
            decreases rules@.len() - i,
        {
            let m = match Matcher::new(rules[i].pattern.as_str()) {
                Ok(m) => Some(m),
                Err(_) => None,
            };
            matchers.push(m);
            scores.push(rules[i].score);
            i = i + 1;
        }
        assert(rules@.take(i as int) =~= rules@);
        CompiledRules { matchers, scores, sources: Ghost(rules@) }
    }

    /// The pattern score of `path` under the rules.
    pub fn score(&self, path: &str) -> (r: i32)
        requires
            self.wf(),
        ensures
            r == pattern_score(self.rules(), path@),
    {
        let ghost rules = self.rules();
        let mut best: Option<i32> = None;
        let mut i: usize = 0;
        while i < self.matchers.len()
            invariant
                i <= self.matchers@.len(),
                self.compiled_from(rules),
                rules == self.rules(),
                best == best_score(rules.take(i as int), path@),
            decreases self.matchers@.len() - i,
        {
            assert(rules.take(i + 1).drop_last() =~= rules.take(i as int));
            let hit = match &self.matchers[i] {
                Some(m) => m.is_match(path),
                None => false,
            };
            if hit {
                let s = self.scores[i];
                best = match best {
                    Some(b) => Some(if b >= s { b } else { s }),
                    None => Some(s),
                };
            }
            i = i + 1;
        }
        assert(rules.take(i as int) =~= rules);
        match best {
            Some(s) => s,
            None => 0,
        }
    }
}

/// The pattern score of `path`: the largest score of the rules whose regex
/// matches it, or 0 when none does.
pub fn get_file_priority(path: &str, rules: &[PriorityRule]) -> (r: i32)
    ensures
        r == pattern_score(rules@, path@),
{
    let compiled = CompiledRules::compile(rules);
    compiled.score(path)
}

/// A file's priority: its pattern score plus its recency boost, held to
/// the range of `i32`.
pub fn combined_priority(score: i32, boost: i32) -> (r: i32)
    ensures
        r as int == if score + boost > i32::MAX {
            i32::MAX as int
        } else if score + boost < i32::MIN {
            i32::MIN as int
        } else {
            score + boost
        },
{
    let sum = score as i64 + boost as i64;
    if sum > i32::MAX as i64 {
        i32::MAX
    } else if sum < i32::MIN as i64 {
        i32::MIN
    } else {
        sum as i32
    }
}

/// Entry `j` comes before entry `i` in ascending time order (ties by position).
pub open spec fn older(times: Seq<u64>, j: int, i: int) -> bool {
    times[j] < times[i] || (times[j] == times[i] && j < i)
}

/// How many of the first `k` entries come before entry `i`.
pub open spec fn count_older(times: Seq<u64>, i: int, k: int) -> nat
    decreases k,
{
    if k <= 0 {
        0
    } else {
        count_older(times, i, k - 1) + if older(times, k - 1, i) {
            1nat
        } else {
            0nat
        }
    }
}

/// Rank of entry `i` by ascending commit time: 0 for the oldest.
pub open spec fn rank(times: Seq<u64>, i: int) -> nat {
    count_older(times, i, times.len() as int)
}

/// `rank / (n - 1) * max_boost`, rounded to the nearest integer (halves up);
/// 0 for everyone when fewer than two files have history.
pub open spec fn boost(times: Seq<u64>, i: int, max_boost: nat) -> nat {
    let last = times.len() - 1;
    if times.len() <= 1 {
        0
    } else {
        ((2 * rank(times, i) * max_boost + last) / (2 * last)) as nat
    }
}

pub open spec fn times_of(history: Seq<(String, u64)>) -> Seq<u64> {
    history.map_values(|e: (String, u64)| e.1)
}

proof fn lemma_count_bound(times: Seq<u64>, i: int, k: int)
    requires
        0 <= k <= times.len(),
    ensures
        count_older(times, i, k) <= k,
        0 <= i < k ==> count_older(times, i, k) < k,
    decreases k,
{
    if k > 0 {
        lemma_count_bound(times, i, k - 1);
    }
}

proof fn lemma_count_none(times: Seq<u64>, i: int, k: int)
    requires
        0 <= k <= times.len(),
        forall|j: int| 0 <= j < times.len() ==> !older(times, j, i),
    ensures
        count_older(times, i, k) == 0,
    decreases k,
{
    if k > 0 {
        lemma_count_none(times, i, k - 1);
    }
}

proof fn lemma_count_all(times: Seq<u64>, i: int, k: int)
    requires
        0 <= i < times.len(),
        0 <= k <= times.len(),
        forall|j: int| 0 <= j < times.len() && j != i ==> older(times, j, i),
    ensures
        count_older(times, i, k) == if i < k {
            k - 1
        } else {
            k
        },
    decreases k,
{
    if k > 0 {
        lemma_count_all(times, i, k - 1);
    }
}

/// With history for two or more files, the oldest file gets no boost and
/// the newest gets the whole `max_boost`; with fewer, no file gets any.
pub proof fn lemma_boost_oldest_and_newest(times: Seq<u64>, i: int, max_boost: nat)
    requires
        0 <= i < times.len(),
    ensures
        (forall|j: int| 0 <= j < times.len() ==> !older(times, j, i)) ==> boost(times, i, max_boost)
            == 0,
        (forall|j: int| 0 <= j < times.len() && j != i ==> older(times, j, i)) ==> boost(
            times,
            i,
            max_boost,
        ) == if times.len() <= 1 {
            0
        } else {
            max_boost
        },
{
    let n = times.len() as int;
    if forall|j: int| 0 <= j < times.len() ==> !older(times, j, i) {
        lemma_count_none(times, i, n);
        assert(rank(times, i) == 0);
        if n > 1 {
            let l = n - 1;
            let m = max_boost as int;
            assert((2 * 0 * m + l) / (2 * l) == 0) by (nonlinear_arith)
                requires
                    l >= 1,
            ;
        }
    }
    if forall|j: int| 0 <= j < times.len() && j != i ==> older(times, j, i) {
        lemma_count_all(times, i, n);
        if n > 1 {
            let l = n - 1;
            let m = max_boost as int;
            assert((2 * l * m + l) / (2 * l) == m) by (nonlinear_arith)
                requires
                    l >= 1,
                    m >= 0,
            ;
        }
    }
}

/// Recency boost of each file with history, by rank of its commit time:
/// the oldest gets 0, the newest `max_boost`, the rest in proportion.
pub fn compute_recentness_boost(commit_times: &[(String, u64)], max_boost: i32) -> (r: Vec<(String, i32)>)
    requires
        max_boost >= 0,
    ensures
        r@.len() == commit_times@.len(),
        forall|i: int|
            0 <= i < r@.len() ==> (#[trigger] r@[i]).0 == commit_times@[i].0 && r@[i].1 as int
                == boost(times_of(commit_times@), i, max_boost as nat) as int,
{
    let ghost times = times_of(commit_times@);
    let n = commit_times.len();
    let mut r: Vec<(String, i32)> = Vec::new();
    let mut i: usize = 0;
    while i < n
        invariant
            n == commit_times@.len(),
            times == times_of(commit_times@),
            i <= n,
            max_boost >= 0,
            r@.len() == i,
            forall|k: int|
                0 <= k < i ==> (#[trigger] r@[k]).0 == commit_times@[k].0 && r@[k].1 as int
                    == boost(times, k, max_boost as nat) as int,
        decreases n - i,
    {
        let mut rk: usize = 0;
        let mut j: usize = 0;
        while j < n
            invariant
                n == commit_times@.len(),
                times == times_of(commit_times@),
                i < n,
                j <= n,
                rk as nat == count_older(times, i as int, j as int),
            decreases n - j,
        {
            proof {
                lemma_count_bound(times, i as int, j as int);
            }
            let tj = commit_times[j].1;
            let ti = commit_times[i].1;
            if tj < ti || (tj == ti && j < i) {
                rk = rk + 1;
            }
            j = j + 1;
        }
        proof {
            lemma_count_bound(times, i as int, n as int);
        }
        let b: i32 = if n <= 1 {
            0
        } else {
            let last = (n - 1) as u128;
            let a = rk as u128;
            let m = max_boost as u128;
            assert(a * m <= 0x1_0000_0000_0000_0000u128 * 0x8000_0000u128) by (nonlinear_arith)
                requires
                    a <= 0x1_0000_0000_0000_0000u128,
                    m <= 0x8000_0000u128,
            ;
            let num: u128 = 2 * (a * m) + last;
            assert(2 * (a * m) == 2 * a * m) by (nonlinear_arith);
            let q: u128 = num / (2 * last);
            proof {
                let rr = rk as int;
                let m = max_boost as int;
                let l = last as int;
                assert(rr <= l);
                assert(2 * rr * m + l <= 2 * l * m + l) by (nonlinear_arith)
                    requires
                        rr <= l,
                        0 <= m,
                        0 <= rr,
                ;
                assert((2 * rr * m + l) / (2 * l) <= m) by (nonlinear_arith)
                    requires
                        2 * rr * m + l <= 2 * l * m + l,
                        l >= 1,
                        m >= 0,
                ;
            }
            q as i32
        };
        r.push((commit_times[i].0.clone(), b));
        i = i + 1;
    }
    r
}

} // verus!
