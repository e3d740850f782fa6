use vstd::prelude::*;

use crate::glob::{glob_to_regex, is_regex_form, pattern_regex};
use crate::paths::{is_vcs_metadata, segments};
use crate::text::char_vec;

verus! {

/// `regex::Regex`, carried opaque: what it matches is named by `regex_matches`.
#[verifier::external_type_specification]
#[verifier::external_body]
pub struct ExRegex(regex::Regex);

/// `regex::Error`, carried opaque to report why a pattern did not compile.
#[verifier::external_type_specification]
#[verifier::external_body]
pub struct ExRegexError(regex::Error);

/// Whether `regex::Regex::new` accepts the pattern.
pub uninterp spec fn regex_compiles(pattern: Seq<char>) -> bool;

/// Whether the regex compiled from `pattern` matches somewhere in `text`.
pub uninterp spec fn regex_matches(pattern: Seq<char>, text: Seq<char>) -> bool;

/// Relies on `regex::Regex::new`: `Ok` exactly when the pattern compiles.
#[verifier::external_body]
fn compile_regex(pattern: &str) -> (r: Result<regex::Regex, regex::Error>)
    ensures
        r.is_ok() == regex_compiles(pattern@),
{
    regex::Regex::new(pattern)
}

/// Relies on `regex::Error`'s `Display`: the message of a compile error.
#[verifier::external_body]
pub(crate) fn regex_error_text(e: &regex::Error) -> (r: String) {
    e.to_string()
}

/// A compiled regex together with the pattern it was compiled from.
pub struct Matcher {
    re: regex::Regex,
    source: Ghost<Seq<char>>,
}

impl Matcher {
    /// The pattern this matcher was compiled from.
    pub closed spec fn pattern(&self) -> Seq<char> {
        self.source@
    }

    /// Compiles `pattern`; fails exactly when the regex does not compile.
    pub fn new(pattern: &str) -> (r: Result<Matcher, regex::Error>)
        ensures
            r.is_ok() == regex_compiles(pattern@),
            r.is_ok() ==> r->Ok_0.pattern() == pattern@,
    {
        match compile_regex(pattern) {
            Ok(re) => Ok(Matcher { re, source: Ghost(pattern@) }),
            Err(e) => Err(e),
        }
    }

    /// Relies on `regex::Regex::is_match`: whether the regex matches
    /// anywhere in `text`; `re` was compiled from `source` by `new`.
    #[verifier::external_body]
    pub(crate) fn is_match(&self, text: &str) -> (r: bool)
        ensures
            r == regex_matches(self.pattern(), text@),
    {
        self.re.is_match(text)
    }
}

/// Whether `p` starts with `^` or ends with `$`.
pub fn is_regex_pattern(p: &str) -> (r: bool)
    ensures
        r == is_regex_form(p@),
{
    let s = char_vec(p);
    s.len() > 0 && (s[0] == '^' || s[s.len() - 1] == '$')
}

/// The regex that an ignore pattern stands for: the pattern itself when it
/// is already in regex form, else its glob translation.
pub fn pattern_to_regex(p: &str) -> (r: String)
    ensures
        r@ == pattern_regex(p@),
{
    if is_regex_pattern(p) {
        p.to_string()
    } else {
        glob_to_regex(p)
    }
}

/// Whether the configured ignore pattern `p` excludes `path`.
pub open spec fn pattern_excludes(p: Seq<char>, path: Seq<char>) -> bool {
    regex_compiles(pattern_regex(p)) && regex_matches(pattern_regex(p), path)
}

/// Whether some configured ignore pattern excludes `path`; a pattern whose
/// regex does not compile excludes nothing.
pub open spec fn ignored(patterns: Seq<String>, path: Seq<char>) -> bool {
    exists|k: int| 0 <= k < patterns.len() && pattern_excludes(#[trigger] patterns[k]@, path)
}

/// The ignore patterns compiled once, in order; `None` where one does not compile.
pub struct IgnoreMatchers {
    matchers: Vec<Option<Matcher>>,
    sources: Ghost<Seq<String>>,
}

impl IgnoreMatchers {
    /// The patterns these were compiled from.
    pub closed spec fn patterns(&self) -> Seq<String> {
        self.sources@
    }

    /// Well formed: compiled from exactly `patterns()`.
    pub closed spec fn wf(&self) -> bool {
        self.compiled_from(self.sources@)
    }

    spec fn compiled_from(&self, patterns: Seq<String>) -> bool {
        &&& self.matchers@.len() == patterns.len()
        &&& forall|k: int|
            0 <= k < patterns.len() ==> {
                let m = #[trigger] self.matchers@[k];
                &&& m.is_some() == regex_compiles(pattern_regex(patterns[k]@))
                &&& m.is_some() ==> m.unwrap().pattern() == pattern_regex(patterns[k]@)
            }
    }

    pub fn compile(patterns: &Vec<String>) -> (r: IgnoreMatchers)
        ensures
            r.wf(),
            r.patterns() == patterns@,
    {
        let mut matchers: Vec<Option<Matcher>> = Vec::new();
        let mut i: usize = 0;
        while i < patterns.len()
            invariant
                i <= patterns@.len(),
                (IgnoreMatchers { matchers, sources: Ghost(patterns@) }).compiled_from(patterns@.take(i as int)),
            decreases patterns@.len() - i,
        {
            let source = pattern_to_regex(patterns[i].as_str());
            let m = match Matcher::new(source.as_str()) {
                Ok(m) => Some(m),
                Err(_) => None,
            };
            matchers.push(m);
            i = i + 1;
            assert(patterns@.take(i as int).drop_last() =~= patterns@.take(i - 1));
        }
        assert(patterns@.take(i as int) =~= patterns@);
        IgnoreMatchers { matchers, sources: Ghost(patterns@) }
    }

    /// Whether `path` is excluded by the patterns these were compiled from.
    pub fn is_ignored(&self, path: &str) -> (r: bool)
        requires
            self.wf(),
        ensures
            r == ignored(self.patterns(), path@),
    {
        let ghost patterns = self.patterns();
        let mut i: usize = 0;
        while i < self.matchers.len()
            invariant
                i <= self.matchers@.len(),
                self.compiled_from(patterns),
                patterns == self.patterns(),
                forall|k: int| 0 <= k < i ==> !pattern_excludes(#[trigger] patterns[k]@, path@),
            decreases self.matchers@.len() - i,
        {
            match &self.matchers[i] {
                Some(m) => {
                    if m.is_match(path) {
                        assert(pattern_excludes(patterns[i as int]@, path@));
                        assert(ignored(patterns, path@));
                        return true;
                    }
                },
                None => {},
            }
            i = i + 1;
        }
        false
    }
}

/// Whether the walker visits a root-relative path: not inside the
/// version-control metadata directory, not matched by the repository's
/// ignore file (`gitignored`, as that matcher answered), and not excluded
/// by a configured ignore pattern.
pub fn keep_path(rel: &str, gitignored: bool, ignore: &IgnoreMatchers) -> (r: bool)
    requires
        ignore.wf(),
    ensures
        r == (segments(rel@)[0] != ".git"@ && !gitignored && !ignored(ignore.patterns(), rel@)),
{
    if is_vcs_metadata(rel) || gitignored {
        return false;
    }
    !ignore.is_ignored(rel)
}

} // verus!
