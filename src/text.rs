use vstd::prelude::*;
use vstd::string::StringSliceAdditionalSpecFns;

verus! {

/// Unicode `White_Space`: the characters that separate tokens.
pub open spec fn is_space(c: char) -> bool {
    ('\u{9}' <= c && c <= '\u{d}') || c == ' ' || c == '\u{85}' || c == '\u{a0}' || c
        == '\u{1680}' || ('\u{2000}' <= c && c <= '\u{200a}') || c == '\u{2028}' || c
        == '\u{2029}' || c == '\u{202f}' || c == '\u{205f}' || c == '\u{3000}'
}

pub fn is_whitespace(c: char) -> (r: bool)
    ensures
        r == is_space(c),
{
    ('\u{9}' <= c && c <= '\u{d}') || c == ' ' || c == '\u{85}' || c == '\u{a0}' || c
        == '\u{1680}' || ('\u{2000}' <= c && c <= '\u{200a}') || c == '\u{2028}' || c
        == '\u{2029}' || c == '\u{202f}' || c == '\u{205f}' || c == '\u{3000}'
}

/// Decimal digits of `n`, most significant first, as ASCII bytes.
pub open spec fn digits(n: nat) -> Seq<u8>
    decreases n,
{
    if n < 10 {
        seq![(n + 48) as u8]
    } else {
        digits(n / 10) + seq![((n % 10) + 48) as u8]
    }
}

/// Appends the decimal form of `n`.
pub fn push_decimal(buf: &mut Vec<u8>, n: usize)
    ensures
        final(buf)@ == old(buf)@ + digits(n as nat),
    decreases n,
{
    if n >= 10 {
        push_decimal(buf, n / 10);
    }
    buf.push(((n % 10) + 48) as u8);
    proof {
        if n < 10 {
            assert(n % 10 == n);
        }
    }
}

/// Appends every byte of `src`.
pub fn push_all(buf: &mut Vec<u8>, src: &[u8])
    ensures
        final(buf)@ == old(buf)@ + src@,
{
    let ghost start = buf@;
    let mut i: usize = 0;
    while i < src.len()
        invariant
            i <= src@.len(),
            buf@ == start + src@.subrange(0, i as int),
        decreases src@.len() - i,
    {
        buf.push(src[i]);
        i = i + 1;
        assert(buf@ =~= start + src@.subrange(0, i as int));
    }
    assert(src@.subrange(0, i as int) =~= src@);
}

/// The UTF-8 bytes of `s`.
pub fn utf8_bytes(s: &str) -> (r: Vec<u8>)
    ensures
        r@ == s.spec_bytes(),
{
    let mut r: Vec<u8> = Vec::new();
    push_all(&mut r, s.as_bytes());
    assert(r@ =~= s.spec_bytes());
    r
}

/// Relies on `str::chars`: the characters of the string in order.
#[verifier::external_body]
pub(crate) fn char_vec(s: &str) -> (r: Vec<char>)
    ensures
        r@ == s@,
{
    s.chars().collect()
}

/// Relies on `String`'s `FromIterator<char>`: a string of these characters in order.
#[verifier::external_body]
pub(crate) fn string_of(v: &Vec<char>) -> (r: String)
    ensures
        r@ == v@,
{
    v.iter().collect()
}

/// Whitespace-delimited tokens of the first `i` characters, with the token
/// still being read.
pub open spec fn scan(s: Seq<char>, i: nat) -> (Seq<Seq<char>>, Seq<char>)
    decreases i,
{
    if i == 0 || i > s.len() {
        (seq![], seq![])
    } else {
        let (ts, cur) = scan(s, (i - 1) as nat);
        let c = s[i - 1];
        if is_space(c) {
            if cur.len() > 0 {
                (ts.push(cur), seq![])
            } else {
                (ts, cur)
            }
        } else {
            (ts, cur.push(c))
        }
    }
}

/// The whitespace-delimited tokens of `s`, in order.
pub open spec fn tokens(s: Seq<char>) -> Seq<Seq<char>> {
    let (ts, cur) = scan(s, s.len());
    if cur.len() > 0 {
        ts.push(cur)
    } else {
        ts
    }
}

/// Splits `s` into its whitespace-delimited tokens.
pub fn split_tokens(s: &Vec<char>) -> (r: Vec<Vec<char>>)
    ensures
        r@.map_values(|t: Vec<char>| t@) == tokens(s@),
{
    let mut ts: Vec<Vec<char>> = Vec::new();
    let mut cur: Vec<char> = Vec::new();
    let mut i: usize = 0;
    while i < s.len()
        invariant
            i <= s@.len(),
            (ts@.map_values(|t: Vec<char>| t@), cur@) == scan(s@, i as nat),
        decreases s@.len() - i,
    {
        let c = s[i];
        if is_whitespace(c) {
            if cur.len() > 0 {
                let ghost old_ts = ts@;
                ts.push(cur);
                cur = Vec::new();
                assert(ts@.map_values(|t: Vec<char>| t@) =~= old_ts.map_values(
                    |t: Vec<char>| t@,
                ).push(ts@[ts@.len() - 1]@));
            }
        } else {
            cur.push(c);
        }
        i = i + 1;
    }
    if cur.len() > 0 {
        let ghost old_ts = ts@;
        ts.push(cur);
        assert(ts@.map_values(|t: Vec<char>| t@) =~= old_ts.map_values(|t: Vec<char>| t@).push(
            ts@[ts@.len() - 1]@,
        ));
    }
    ts
}

/// Tokens joined by single spaces.
pub open spec fn join(ts: Seq<Seq<char>>) -> Seq<char>
    decreases ts.len(),
{
    if ts.len() == 0 {
        seq![]
    } else if ts.len() == 1 {
        ts[0]
    } else {
        join(ts.drop_last()) + seq![' '] + ts.last()
    }
}

/// Joins `ts[lo..hi]` by single spaces.
pub fn join_range(ts: &Vec<Vec<char>>, lo: usize, hi: usize) -> (r: Vec<char>)
    requires
        lo <= hi <= ts@.len(),
    ensures
        r@ == join(ts@.map_values(|t: Vec<char>| t@).subrange(lo as int, hi as int)),
{
    let ghost all = ts@.map_values(|t: Vec<char>| t@);
    let mut r: Vec<char> = Vec::new();
    let mut i: usize = lo;
    while i < hi
        invariant
            lo <= i <= hi <= ts@.len(),
            all == ts@.map_values(|t: Vec<char>| t@),
            r@ == join(all.subrange(lo as int, i as int)),
        decreases hi - i,
    {
        let ghost prev = r@;
        if i > lo {
            r.push(' ');
        }
        let t = &ts[i];
        let mut j: usize = 0;
        let ghost mid = r@;
        while j < t.len()
            invariant
                j <= t@.len(),
                r@ == mid + t@.subrange(0, j as int),
            decreases t@.len() - j,
        {
            r.push(t[j]);
            j = j + 1;
            assert(r@ =~= mid + t@.subrange(0, j as int));
        }
        assert(t@.subrange(0, j as int) =~= t@);
        let ghost next = all.subrange(lo as int, i + 1);
        assert(next.drop_last() =~= all.subrange(lo as int, i as int));
        assert(next.last() == all[i as int]);
        if i == lo {
            assert(next.len() == 1);
            assert(r@ =~= next[0]);
        } else {
            assert(r@ =~= prev + seq![' '] + next.last());
        }
        i = i + 1;
    }
    r
}

/// The pieces of `p` between `sep` characters, empty ones included, of the
/// first `i` characters, with the piece still being read.
pub open spec fn split_scan(p: Seq<char>, sep: char, i: nat) -> (Seq<Seq<char>>, Seq<char>)
    decreases i,
{
    if i == 0 || i > p.len() {
        (seq![], seq![])
    } else {
        let (done, cur) = split_scan(p, sep, (i - 1) as nat);
        if p[i - 1] == sep {
            (done.push(cur), seq![])
        } else {
            (done, cur.push(p[i - 1]))
        }
    }
}

/// The pieces of `p` between `sep` characters, as `str::split` gives them.
pub open spec fn split_by(p: Seq<char>, sep: char) -> Seq<Seq<char>> {
    let (done, cur) = split_scan(p, sep, p.len());
    done.push(cur)
}

pub fn split_chars(p: &Vec<char>, sep: char) -> (r: Vec<Vec<char>>)
    ensures
        r@.map_values(|s: Vec<char>| s@) == split_by(p@, sep),
{
    let mut done: Vec<Vec<char>> = Vec::new();
    let mut cur: Vec<char> = Vec::new();
    let mut i: usize = 0;
    while i < p.len()
        invariant
            i <= p@.len(),
            (done@.map_values(|s: Vec<char>| s@), cur@) == split_scan(p@, sep, i as nat),
        decreases p@.len() - i,
    {
        if p[i] == sep {
            let ghost before = done@;
            done.push(cur);
            cur = Vec::new();
            assert(done@.map_values(|s: Vec<char>| s@) =~= before.map_values(|s: Vec<char>| s@).push(
                done@[done@.len() - 1]@,
            ));
        } else {
            cur.push(p[i]);
        }
        i = i + 1;
    }
    let ghost before = done@;
    done.push(cur);
    assert(done@.map_values(|s: Vec<char>| s@) =~= before.map_values(|s: Vec<char>| s@).push(
        done@[done@.len() - 1]@,
    ));
    done
}

pub fn chars_equal(a: &Vec<char>, b: &Vec<char>) -> (r: bool)
    ensures
        r == (a@ == b@),
{
    if a.len() != b.len() {
        return false;
    }
    let mut i: usize = 0;
    while i < a.len()
        invariant
            i <= a@.len() == b@.len(),
            forall|j: int| 0 <= j < i ==> a@[j] == b@[j],
        decreases a@.len() - i,
    {
        if a[i] != b[i] {
            return false;
        }
        i = i + 1;
    }
    assert(a@ =~= b@);
    true
}

/// Decimal digits of `n` as characters.
pub open spec fn digit_chars(n: nat) -> Seq<char> {
    digits(n).map_values(|b: u8| b as char)
}

/// Appends the decimal form of `n` as characters.
pub fn push_decimal_chars(out: &mut Vec<char>, n: usize)
    ensures
        final(out)@ == old(out)@ + digit_chars(n as nat),
{
    let ghost start = out@;
    let mut ds: Vec<u8> = Vec::new();
    push_decimal(&mut ds, n);
    assert(ds@ =~= digits(n as nat));
    let mut i: usize = 0;
    while i < ds.len()
        invariant
            i <= ds@.len(),
            out@ == start + ds@.subrange(0, i as int).map_values(|b: u8| b as char),
        decreases ds@.len() - i,
    {
        out.push(ds[i] as char);
        i = i + 1;
        assert(out@ =~= start + ds@.subrange(0, i as int).map_values(|b: u8| b as char));
    }
    assert(ds@.subrange(0, i as int) =~= ds@);
}

/// Appends the characters of `s`.
pub fn push_str(out: &mut Vec<char>, s: &str)
    ensures
        final(out)@ == old(out)@ + s@,
{
    let cs = char_vec(s);
    let ghost start = out@;
    let mut i: usize = 0;
    while i < cs.len()
        invariant
            i <= cs@.len(),
            cs@ == s@,
            out@ == start + cs@.subrange(0, i as int),
        decreases cs@.len() - i,
    {
        out.push(cs[i]);
        i = i + 1;
        assert(out@ =~= start + cs@.subrange(0, i as int));
    }
    assert(cs@.subrange(0, i as int) =~= cs@);
}

/// A non-empty run of characters none of which is whitespace.
pub open spec fn is_word(w: Seq<char>) -> bool {
    w.len() > 0 && forall|j: int| 0 <= j < w.len() ==> !is_space(#[trigger] w[j])
}

pub open spec fn all_words(ts: Seq<Seq<char>>) -> bool {
    forall|k: int| 0 <= k < ts.len() ==> is_word(#[trigger] ts[k])
}

proof fn lemma_scan_words(s: Seq<char>, i: nat)
    ensures
        all_words(scan(s, i).0),
        forall|j: int| 0 <= j < scan(s, i).1.len() ==> !is_space(#[trigger] scan(s, i).1[j]),
    decreases i,
{
    if i > 0 && i <= s.len() {
        lemma_scan_words(s, (i - 1) as nat);
    }
}

/// The tokens of any text are words.
pub proof fn lemma_tokens_are_words(s: Seq<char>)
    ensures
        all_words(tokens(s)),
{
    lemma_scan_words(s, s.len());
}

proof fn lemma_scan_take(s: Seq<char>, i: nat, n: int)
    requires
        i <= n <= s.len(),
    ensures
        scan(s, i) == scan(s.take(n), i),
    decreases i,
{
    if i > 0 {
        lemma_scan_take(s, (i - 1) as nat, n);
    }
}

proof fn lemma_scan_word(s: Seq<char>, i: nat, k: nat)
    requires
        i + k <= s.len(),
        forall|j: int| i <= j < i + k ==> !is_space(#[trigger] s[j]),
    ensures
        scan(s, i + k) == (scan(s, i).0, scan(s, i).1 + s.subrange(i as int, (i + k) as int)),
    decreases k,
{
    if k == 0 {
        assert(scan(s, i).1 + s.subrange(i as int, i as int) =~= scan(s, i).1);
    } else {
        let k1 = (k - 1) as nat;
        lemma_scan_word(s, i, k1);
        assert(scan(s, i).1 + s.subrange(i as int, (i + k) as int) =~= (scan(s, i).1 + s.subrange(
            i as int,
            (i + k1) as int,
        )).push(s[(i + k1) as int]));
    }
}

proof fn lemma_scan_join(ts: Seq<Seq<char>>)
    requires
        ts.len() > 0,
        all_words(ts),
    ensures
        scan(join(ts), join(ts).len()) == (ts.drop_last(), ts.last()),
    decreases ts.len(),
{
    if ts.len() == 1 {
        let w = ts[0];
        assert(join(ts) == w);
        lemma_scan_word(w, 0, w.len());
        assert(w.subrange(0, w.len() as int) =~= w);
        assert(Seq::<char>::empty() + w =~= w);
        assert(ts.drop_last() =~= Seq::<Seq<char>>::empty());
    } else {
        let init = ts.drop_last();
        let last = ts.last();
        let j0 = join(init);
        let s = join(ts);
        assert(s == j0 + seq![' '] + last);
        assert(all_words(init)) by {
            assert forall|k: int| 0 <= k < init.len() implies is_word(#[trigger] init[k]) by {
                assert(init[k] == ts[k]);
            }
        }
        lemma_scan_join(init);
        lemma_scan_take(s, j0.len(), j0.len() as int);
        assert(s.take(j0.len() as int) =~= j0);
        let n0 = j0.len();
        assert(s[n0 as int] == ' ');
        assert(is_space(' '));
        assert(is_word(init.last()));
        assert(scan(s, n0 + 1) == (init.drop_last().push(init.last()), Seq::<char>::empty()));
        assert(init.drop_last().push(init.last()) =~= init);
        assert(is_word(last)) by {
            assert(last == ts[ts.len() - 1]);
        }
        assert forall|j: int| n0 + 1 <= j < n0 + 1 + last.len() implies !is_space(#[trigger] s[j]) by {
            assert(s[j] == last[j - n0 - 1]);
        }
        lemma_scan_word(s, n0 + 1, last.len());
        assert(s.subrange((n0 + 1) as int, (n0 + 1 + last.len()) as int) =~= last);
        assert(Seq::<char>::empty() + last =~= last);
    }
}

/// Joining words by spaces and splitting again gives the same words.
pub proof fn lemma_tokens_join(ts: Seq<Seq<char>>)
    requires
        all_words(ts),
    ensures
        tokens(join(ts)) == ts,
{
    if ts.len() == 0 {
        assert(join(ts) =~= Seq::<char>::empty());
        assert(tokens(join(ts)) =~= ts);
    } else {
        lemma_scan_join(ts);
        assert(is_word(ts.last()));
        assert(ts.drop_last().push(ts.last()) =~= ts);
    }
}

} // verus!
