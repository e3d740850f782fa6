use vstd::prelude::*;

use crate::text::{char_vec, is_space, is_whitespace};

verus! {

/// Why a size string was refused.
#[derive(Debug, Clone, Copy, PartialEq, Eq)]
pub enum SizeError {
    /// The number part is not an unsigned decimal integer that fits.
    InvalidNumber,
    /// The number times its suffix's multiplier does not fit.
    Overflow,
}

pub open spec fn is_digit(c: char) -> bool {
    '0' <= c && c <= '9'
}

pub open spec fn all_digits(s: Seq<char>) -> bool {
    forall|i: int| 0 <= i < s.len() ==> is_digit(#[trigger] s[i])
}

/// The value of a string of decimal digits.
pub open spec fn decimal_value(s: Seq<char>) -> nat
    decreases s.len(),
{
    if s.len() == 0 {
        0
    } else {
        decimal_value(s.drop_last()) * 10 + (s.last() as nat - '0' as nat) as nat
    }
}

/// What `str::parse` gives for an unsigned integer of at most `max`: an
/// optional `+`, then one or more decimal digits whose value fits.
pub open spec fn parse_unsigned(s: Seq<char>, max: nat) -> Option<nat> {
    let body = if s.len() > 0 && s[0] == '+' {
        s.skip(1)
    } else {
        s
    };
    if body.len() > 0 && all_digits(body) && decimal_value(body) <= max {
        Some(decimal_value(body))
    } else {
        None
    }
}

pub open spec fn trim_start(s: Seq<char>) -> Seq<char>
    decreases s.len(),
{
    if s.len() > 0 && is_space(s[0]) {
        trim_start(s.skip(1))
    } else {
        s
    }
}

pub open spec fn trim_end(s: Seq<char>) -> Seq<char>
    decreases s.len(),
{
    if s.len() > 0 && is_space(s.last()) {
        trim_end(s.drop_last())
    } else {
        s
    }
}

/// `s` without leading and trailing whitespace.
pub open spec fn trim(s: Seq<char>) -> Seq<char> {
    trim_end(trim_start(s))
}

proof fn lemma_value_mono(s: Seq<char>, k: int)
    requires
        all_digits(s),
        0 <= k <= s.len(),
    ensures
        decimal_value(s.take(k)) <= decimal_value(s),
    decreases s.len(),
{
    if k < s.len() {
        assert(s.drop_last().take(k) =~= s.take(k));
        lemma_value_mono(s.drop_last(), k);
    } else {
        assert(s.take(k) =~= s);
    }
}

/// Bounds `lo..hi` of `trim(s[lo0..hi0])` inside `s`.
fn trim_range(s: &Vec<char>, lo0: usize, hi0: usize) -> (r: (usize, usize))
    requires
        lo0 <= hi0 <= s@.len(),
    ensures
        lo0 <= r.0 <= r.1 <= hi0,
        s@.subrange(r.0 as int, r.1 as int) == trim(s@.subrange(lo0 as int, hi0 as int)),
{
    let mut lo = lo0;
    while lo < hi0 && is_whitespace(s[lo])
        invariant
            lo0 <= lo <= hi0 <= s@.len(),
            trim_start(s@.subrange(lo0 as int, hi0 as int)) == trim_start(s@.subrange(lo as int, hi0 as int)),
        decreases hi0 - lo,
    {
        assert(s@.subrange(lo as int, hi0 as int).skip(1) =~= s@.subrange(lo + 1, hi0 as int));
        lo = lo + 1;
    }
    let mut hi = hi0;
    while hi > lo && is_whitespace(s[hi - 1])
        invariant
            lo0 <= lo <= hi <= hi0 <= s@.len(),
            trim_start(s@.subrange(lo0 as int, hi0 as int)) == s@.subrange(lo as int, hi0 as int),
            trim(s@.subrange(lo0 as int, hi0 as int)) == trim_end(s@.subrange(lo as int, hi as int)),
        decreases hi - lo,
    {
        assert(s@.subrange(lo as int, hi as int).drop_last() =~= s@.subrange(lo as int, hi - 1));
        hi = hi - 1;
    }
    (lo, hi)
}

/// Parses `s[lo..hi]` as an unsigned integer of at most `max`.
fn parse_range(s: &Vec<char>, lo: usize, hi: usize, max: u64) -> (r: Option<u64>)
    requires
        lo <= hi <= s@.len(),
    ensures
        r.is_some() == parse_unsigned(s@.subrange(lo as int, hi as int), max as nat).is_some(),
        r.is_some() ==> r.unwrap() as nat == parse_unsigned(
            s@.subrange(lo as int, hi as int),
            max as nat,
        ).unwrap(),
{
    let ghost whole = s@.subrange(lo as int, hi as int);
    let mut start = lo;
    if start < hi && s[start] == '+' {
        start = start + 1;
    }
    let ghost body = s@.subrange(start as int, hi as int);
    assert(body =~= (if whole.len() > 0 && whole[0] == '+' { whole.skip(1) } else { whole }));
    if start == hi {
        return None;
    }
    let mut k = start;
    while k < hi
        invariant
            start <= k <= hi <= s@.len(),
            body == s@.subrange(start as int, hi as int),
            whole == s@.subrange(lo as int, hi as int),
            body == (if whole.len() > 0 && whole[0] == '+' { whole.skip(1) } else { whole }),
            body.len() > 0,
            forall|j: int| start <= j < k ==> is_digit(#[trigger] s@[j]),
        decreases hi - k,
    {
        if !(s[k] >= '0' && s[k] <= '9') {
            assert(body[k - start] == s@[k as int]);
            assert(!is_digit(body[k - start]));
            assert(!all_digits(body));
            return None;
        }
        k = k + 1;
    }
    assert(all_digits(body));
    let mut acc: u64 = 0;
    let mut k = start;
    while k < hi
        invariant
            start <= k <= hi <= s@.len(),
            body == s@.subrange(start as int, hi as int),
            whole == s@.subrange(lo as int, hi as int),
            body == (if whole.len() > 0 && whole[0] == '+' { whole.skip(1) } else { whole }),
            body.len() > 0,
            all_digits(body),
            acc as nat == decimal_value(body.take(k - start)),
            acc <= max,
        decreases hi - k,
    {
        assert(body[k - start] == s@[k as int]);
        assert(is_digit(body[k - start]));
        let d = ((s[k] as u32) - ('0' as u32)) as u64;
        assert(body.take(k + 1 - start).drop_last() =~= body.take(k - start));
        assert(body.take(k + 1 - start).last() == s@[k as int]);
        assert(decimal_value(body.take(k + 1 - start)) == acc * 10 + d);
        if d > max || acc > (max - d) / 10 {
            proof {
                assert(acc * 10 + d > max) by (nonlinear_arith)
                    requires
                        d > max || acc > (max - d) / 10,
                        d <= max ==> acc > (max - d) / 10,
                ;
                lemma_value_mono(body, k + 1 - start);
                assert(decimal_value(body) > max);
            }
            return None;
        }
        proof {
            assert(acc * 10 + d <= max) by (nonlinear_arith)
                requires
                    acc <= (max - d) / 10,
                    d <= max,
            ;
        }
        acc = acc * 10 + d;
        k = k + 1;
    }
    assert(body.take(hi - start) =~= body);
    Some(acc)
}

/// Parses all of `s` as an unsigned integer of at most `max`.
pub fn parse_all(s: &Vec<char>, max: u64) -> (r: Option<u64>)
    ensures
        r.is_some() == parse_unsigned(s@, max as nat).is_some(),
        r.is_some() ==> r.unwrap() as nat == parse_unsigned(s@, max as nat).unwrap(),
{
    assert(s@.subrange(0, s@.len() as int) =~= s@);
    parse_range(s, 0, s.len(), max)
}

/// `s` ends with the two-letter unit `u` followed by `B`, in either case.
pub open spec fn has_unit(s: Seq<char>, upper: char, lower: char) -> bool {
    s.len() >= 2 && (s.last() == 'B' || s.last() == 'b') && (s[s.len() - 2] == upper || s[s.len()
        - 2] == lower)
}

/// The number in `s`, times `mult`.
pub open spec fn scaled(s: Seq<char>, mult: nat) -> Result<nat, SizeError> {
    match parse_unsigned(s, usize::MAX as nat) {
        Some(v) => if v * mult <= usize::MAX {
            Ok(v * mult)
        } else {
            Err(SizeError::Overflow)
        },
        None => Err(SizeError::InvalidNumber),
    }
}

/// The size that `input` denotes. In token mode a trailing `k`/`K` means
/// thousands; otherwise a trailing `KB`, `MB` or `GB` (any case) means
/// 1024, 1024², 1024³ bytes. Surrounding whitespace is ignored.
pub open spec fn size_value(input: Seq<char>, is_tokens: bool) -> Result<nat, SizeError> {
    let s = trim(input);
    if is_tokens {
        if s.len() > 0 && (s.last() == 'k' || s.last() == 'K') {
            scaled(trim(s.drop_last()), 1000)
        } else {
            scaled(s, 1)
        }
    } else {
        let num = trim(s.take(s.len() - 2));
        if has_unit(s, 'K', 'k') {
            scaled(num, 1024)
        } else if has_unit(s, 'M', 'm') {
            scaled(num, 1048576)
        } else if has_unit(s, 'G', 'g') {
            scaled(num, 1073741824)
        } else {
            scaled(s, 1)
        }
    }
}

fn scale_range(s: &Vec<char>, lo: usize, hi: usize, mult: usize) -> (r: Result<usize, SizeError>)
    requires
        lo <= hi <= s@.len(),
    ensures
        match r {
            Ok(v) => scaled(s@.subrange(lo as int, hi as int), mult as nat) == Ok::<nat, SizeError>(v as nat),
            Err(e) => scaled(s@.subrange(lo as int, hi as int), mult as nat) == Err::<nat, SizeError>(e),
        },
{
    match parse_range(s, lo, hi, usize::MAX as u64) {
        Some(v) => {
            let v = v as usize;
            match v.checked_mul(mult) {
                Some(x) => Ok(x),
                None => Err(SizeError::Overflow),
            }
        },
        None => Err(SizeError::InvalidNumber),
    }
}

/// Parses a size threshold: bytes with an optional `KB`/`MB`/`GB` suffix,
/// or, in token mode, a token count with an optional `K` (thousands).
pub fn parse_size_input(input: &str, is_tokens: bool) -> (r: Result<usize, SizeError>)
    ensures
        match r {
            Ok(v) => size_value(input@, is_tokens) == Ok::<nat, SizeError>(v as nat),
            Err(e) => size_value(input@, is_tokens) == Err::<nat, SizeError>(e),
        },
{
    let s = char_vec(input);
    let (lo, hi) = trim_range(&s, 0, s.len());
    assert(s@.subrange(0, s@.len() as int) =~= input@);
    let ghost t = s@.subrange(lo as int, hi as int);
    if is_tokens {
        if hi > lo && (s[hi - 1] == 'k' || s[hi - 1] == 'K') {
            let (a, b) = trim_range(&s, lo, hi - 1);
            assert(s@.subrange(lo as int, hi - 1) =~= t.drop_last());
            scale_range(&s, a, b, 1000)
        } else {
            scale_range(&s, lo, hi, 1)
        }
    } else {
        if hi - lo >= 2 {
            let (a, b) = trim_range(&s, lo, hi - 2);
            assert(s@.subrange(lo as int, hi - 2) =~= t.take(t.len() - 2));
            let u = s[hi - 2];
            let l = s[hi - 1];
            if l == 'B' || l == 'b' {
                if u == 'K' || u == 'k' {
                    return scale_range(&s, a, b, 1024);
                } else if u == 'M' || u == 'm' {
                    return scale_range(&s, a, b, 1048576);
                } else if u == 'G' || u == 'g' {
                    return scale_range(&s, a, b, 1073741824);
                }
            }
        }
        scale_range(&s, lo, hi, 1)
    }
}

} // verus!
