use vstd::prelude::*;

use crate::size::{parse_all, parse_unsigned};
use crate::text::{char_vec, chars_equal, split_by, split_chars, string_of};

verus! {

/// A line without the `\r` that ends it, if any.
pub open spec fn strip_cr(line: Seq<char>) -> Seq<char> {
    if line.len() > 0 && line.last() == '\r' {
        line.drop_last()
    } else {
        line
    }
}

/// What reading one line of commit-log text does to the current timestamp
/// and to the times recorded so far: an empty line does nothing, a number
/// starts a commit, any other line names a file of the current commit.
pub open spec fn log_step(
    state: (u64, Seq<(Seq<char>, u64)>),
    raw: Seq<char>,
) -> (u64, Seq<(Seq<char>, u64)>) {
    let line = strip_cr(raw);
    let (ts, times) = state;
    if line.len() == 0 {
        state
    } else if parse_unsigned(line, u64::MAX as nat).is_some() {
        (parse_unsigned(line, u64::MAX as nat).unwrap() as u64, times)
    } else {
        (ts, record(times, line, ts))
    }
}

/// Records that `path` changed at `ts`, keeping the latest time per path.
pub open spec fn record(times: Seq<(Seq<char>, u64)>, path: Seq<char>, ts: u64) -> Seq<(Seq<char>, u64)> {
    if exists|k: int| 0 <= k < times.len() && times[k].0 == path {
        let k = choose|k: int| 0 <= k < times.len() && times[k].0 == path;
        times.update(k, (path, if times[k].1 >= ts { times[k].1 } else { ts }))
    } else {
        times.push((path, ts))
    }
}

pub open spec fn log_fold(lines: Seq<Seq<char>>, n: nat) -> (u64, Seq<(Seq<char>, u64)>)
    decreases n,
{
    if n == 0 || n > lines.len() {
        (0, seq![])
    } else {
        log_step(log_fold(lines, (n - 1) as nat), lines[n - 1])
    }
}

/// Every path that the commit-log text names, once, with the latest commit
/// time that lists it, in order of first appearance.
pub open spec fn log_times(text: Seq<char>) -> Seq<(Seq<char>, u64)> {
    let lines = split_by(text, '\n');
    log_fold(lines, lines.len()).1
}

/// No path occurs twice.
pub open spec fn distinct(times: Seq<(Seq<char>, u64)>) -> bool {
    forall|a: int, b: int| 0 <= a < b < times.len() ==> times[a].0 != times[b].0
}

/// Reads commit-log text: lines holding a commit's Unix time, each followed
/// by the paths that commit changed. Gives each path once, with the latest
/// time of a commit that lists it.
pub fn parse_commit_log(text: &str) -> (r: Vec<(String, u64)>)
    ensures
        r@.len() == log_times(text@).len(),
        forall|k: int|
            0 <= k < r@.len() ==> (#[trigger] r@[k]).0@ == log_times(text@)[k].0 && r@[k].1
                == log_times(text@)[k].1,
        distinct(log_times(text@)),
{
    let cs = char_vec(text);
    let lines = split_chars(&cs, '\n');
    let ghost lv = lines@.map_values(|l: Vec<char>| l@);
    let mut paths: Vec<Vec<char>> = Vec::new();
    let mut times: Vec<u64> = Vec::new();
    let mut ts: u64 = 0;
    let mut i: usize = 0;
    while i < lines.len()
        invariant
            i <= lines@.len(),
            lv == lines@.map_values(|l: Vec<char>| l@),
            lv == split_by(text@, '\n'),
            paths@.len() == times@.len(),
            log_fold(lv, i as nat).0 == ts,
            log_fold(lv, i as nat).1.len() == paths@.len(),
            forall|k: int|
                0 <= k < paths@.len() ==> log_fold(lv, i as nat).1[k] == (
                    #[trigger] paths@[k]@,
                    times@[k],
                ),
            distinct(log_fold(lv, i as nat).1),
        decreases lines@.len() - i,
    {
        let raw = &lines[i];
        let mut line: Vec<char> = Vec::new();
        let mut end = raw.len();
        if end > 0 && raw[end - 1] == '\r' {
            end = end - 1;
        }
        let mut j: usize = 0;
        while j < end
            invariant
                end <= raw@.len(),
                j <= end,
                line@ == raw@.subrange(0, j as int),
            decreases end - j,
        {
            line.push(raw[j]);
            j = j + 1;
            assert(line@ =~= raw@.subrange(0, j as int));
        }
        assert(line@ =~= strip_cr(raw@));
        assert(lv[i as int] == raw@);
        let ghost prev = log_fold(lv, i as nat);
        if line.len() == 0 {
        } else {
            match parse_all(&line, u64::MAX) {
                Some(v) => {
                    ts = v;
                },
                None => {
                    let mut k: usize = 0;
                    let mut found = false;
                    while k < paths.len() && !found
                        invariant
                            k <= paths@.len(),
                            paths@.len() == times@.len(),
                            prev.1.len() == paths@.len(),
                            forall|q: int| 0 <= q < paths@.len() ==> prev.1[q] == (#[trigger] paths@[q]@, times@[q]),
                            found ==> k > 0 && paths@[k - 1]@ == line@,
                            !found ==> forall|q: int| 0 <= q < k ==> (#[trigger] paths@[q])@ != line@,
                        decreases paths@.len() - k + if found { 0int } else { 1int },
                    {
                        if chars_equal(&paths[k], &line) {
                            found = true;
                        }
                        k = k + 1;
                    }
                    if found {
                        let q = k - 1;
                        assert(prev.1[q as int].0 == line@);
                        let ghost w = choose|w: int| 0 <= w < prev.1.len() && prev.1[w].0 == line@;
                        assert(w == q) by {
                            if w != q {
                                if w < q {
                                    assert(prev.1[w].0 != prev.1[q as int].0);
                                } else {
                                    assert(prev.1[q as int].0 != prev.1[w].0);
                                }
                            }
                        }
                        if times[q] < ts {
                            times.set(q, ts);
                        }
                    } else {
                        assert(!(exists|w: int| 0 <= w < prev.1.len() && prev.1[w].0 == line@)) by {
                            assert forall|w: int| 0 <= w < prev.1.len() implies prev.1[w].0 != line@ by {
                                assert(paths@[w]@ != line@);
                            }
                        }
                        paths.push(line);
                        times.push(ts);
                    }
                },
            }
        }
        i = i + 1;
    }
    let mut r: Vec<(String, u64)> = Vec::new();
    let mut k: usize = 0;
    while k < paths.len()
        invariant
            k <= paths@.len(),
            paths@.len() == times@.len(),
            r@.len() == k,
            forall|q: int| 0 <= q < k ==> (#[trigger] r@[q]).0@ == paths@[q]@ && r@[q].1 == times@[q],
        decreases paths@.len() - k,
    {
        r.push((string_of(&paths[k]), times[k]));
        k = k + 1;
    }
    r
}

} // verus!
