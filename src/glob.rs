use vstd::prelude::*;

use crate::text::{char_vec, string_of};

verus! {

/// What `char::is_alphanumeric` returns: Unicode `Alphabetic` or `Numeric`.
pub uninterp spec fn alnum(c: char) -> bool;

/// Relies on `char::is_alphanumeric`; ASCII letters and digits are alphanumeric.
#[verifier::external_body]
fn is_alphanumeric(c: char) -> (r: bool)
    ensures
        r == alnum(c),
        ('a' <= c && c <= 'z') || ('A' <= c && c <= 'Z') || ('0' <= c && c <= '9') ==> r,
{
    c.is_alphanumeric()
}

/// Mode of the translation: plain text, inside `[...]`, inside `{...}`.
pub open spec fn plain() -> nat {
    0
}

pub open spec fn in_class() -> nat {
    1
}

pub open spec fn in_alternation() -> nat {
    2
}

/// The regex for the glob `s`, read in the given mode.
pub open spec fn glob_from(s: Seq<char>, mode: nat) -> Seq<char>
    decreases s.len(),
{
    if s.len() == 0 {
        seq![]
    } else {
        let c = s[0];
        let rest = s.skip(1);
        if mode == in_class() {
            if c == ']' {
                seq![']'] + glob_from(rest, plain())
            } else {
                seq![c] + glob_from(rest, in_class())
            }
        } else if mode == in_alternation() {
            if c == '}' {
                seq![')'] + glob_from(rest, plain())
            } else if c == ',' {
                seq!['|'] + glob_from(rest, in_alternation())
            } else {
                seq![c] + glob_from(rest, in_alternation())
            }
        } else if c == '*' {
            if rest.len() > 0 && rest[0] == '*' {
                seq!['.', '*'] + glob_from(s.skip(2), plain())
            } else {
                seq!['[', '^', '/', ']', '*'] + glob_from(rest, plain())
            }
        } else if c == '?' {
            seq!['.'] + glob_from(rest, plain())
        } else if c == '.' {
            seq!['\\', '.'] + glob_from(rest, plain())
        } else if c == '/' {
            seq!['/'] + glob_from(rest, plain())
        } else if c == '[' {
            seq!['['] + glob_from(rest, in_class())
        } else if c == '{' {
            seq!['('] + glob_from(rest, in_alternation())
        } else if alnum(c) || c == '_' || c == '-' {
            seq![c] + glob_from(rest, plain())
        } else {
            seq!['\\', c] + glob_from(rest, plain())
        }
    }
}

/// The regex for the glob `s`.
pub open spec fn glob_regex(s: Seq<char>) -> Seq<char> {
    glob_from(s, plain())
}

/// A pattern that starts with `^` or ends with `$` is already a regex.
pub open spec fn is_regex_form(p: Seq<char>) -> bool {
    p.len() > 0 && (p[0] == '^' || p.last() == '$')
}

/// The regex a configured ignore pattern stands for.
pub open spec fn pattern_regex(p: Seq<char>) -> Seq<char> {
    if is_regex_form(p) {
        p
    } else {
        glob_regex(p)
    }
}

fn push_seq(out: &mut Vec<char>, a: char, b: char)
    ensures
        final(out)@ == old(out)@ + seq![a, b],
{
    out.push(a);
    out.push(b);
    assert(final(out)@ =~= old(out)@ + seq![a, b]);
}

/// Converts a glob pattern to a regex: `*` stays within one path segment,
/// `**` crosses segments, `?` is one character, `.` is literal, `[...]` is
/// kept, `{a,b}` becomes `(a|b)`, and other punctuation is escaped.
pub fn glob_to_regex(pattern: &str) -> (r: String)
    ensures
        r@ == glob_regex(pattern@),
{
    let s = char_vec(pattern);
    let mut out: Vec<char> = Vec::new();
    let mut mode: u8 = 0;
    let mut i: usize = 0;
    proof {
        assert(s@.skip(0) =~= s@);
    }
    while i < s.len()
        invariant
            i <= s@.len(),
            s@ == pattern@,
            mode <= 2,
            out@ + glob_from(s@.skip(i as int), mode as nat) == glob_regex(pattern@),
        decreases s@.len() - i,
    {
        let ghost prev = out@;
        let ghost m0 = mode as nat;
        let ghost tail = s@.skip(i as int);
        let c = s[i];
        assert(tail[0] == c);
        assert(tail.skip(1) =~= s@.skip(i + 1));
        if mode == 1 {
            if c == ']' {
                out.push(']');
                mode = 0;
            } else {
                out.push(c);
            }
            i = i + 1;
        } else if mode == 2 {
            if c == '}' {
                out.push(')');
                mode = 0;
            } else if c == ',' {
                out.push('|');
            } else {
                out.push(c);
            }
            i = i + 1;
        } else if c == '*' {
            if i + 1 < s.len() && s[i + 1] == '*' {
                assert(tail.skip(2) =~= s@.skip(i + 2));
                push_seq(&mut out, '.', '*');
                i = i + 2;
            } else {
                out.push('[');
                out.push('^');
                out.push('/');
                out.push(']');
                out.push('*');
                assert(out@ =~= prev + seq!['[', '^', '/', ']', '*']);
                i = i + 1;
            }
        } else if c == '?' {
            out.push('.');
            i = i + 1;
        } else if c == '.' {
            push_seq(&mut out, '\\', '.');
            i = i + 1;
        } else if c == '/' {
            out.push('/');
            i = i + 1;
        } else if c == '[' {
            out.push('[');
            mode = 1;
            i = i + 1;
        } else if c == '{' {
            out.push('(');
            mode = 2;
            i = i + 1;
        } else if is_alphanumeric(c) || c == '_' || c == '-' {
            out.push(c);
            i = i + 1;
        } else {
            push_seq(&mut out, '\\', c);
            i = i + 1;
        }
        assert(out@ + glob_from(s@.skip(i as int), mode as nat) =~= prev + glob_from(tail, m0));
    }
    assert(s@.skip(i as int) =~= Seq::<char>::empty());
    assert(out@ =~= out@ + glob_from(s@.skip(i as int), mode as nat));
    string_of(&out)
}

} // verus!
