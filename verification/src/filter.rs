//! Path exclusion.
//!
//! A `PathFilter` holds an optional compiled exclusion pattern and
//! decides whether a path is allowed. With no pattern configured every
//! path is allowed; with one, a path is allowed exactly when the
//! pattern does not match it. The same filter is consulted both before
//! descending into a directory and before accepting a file, so an
//! excluded directory's subtree is never visited.

use vstd::prelude::*;

verus! {

#[verifier::external_type_specification]
#[verifier::external_body]
pub struct ExRegex(regex::Regex);

/// True when regex::Regex::new accepts the pattern: syntactically
/// valid and within the crate's default compiled-size limit. A pure
/// function of the pattern text.
pub uninterp spec fn regex_valid(pattern: Seq<char>) -> bool;

/// Whether the pattern matches anywhere in the string: what
/// regex::Regex::is_match returns, a pure function of the pattern
/// text and the string.
pub uninterp spec fn regex_match_of(pattern: Seq<char>, s: Seq<char>) -> bool;

/// A compiled exclusion pattern together with the text it was
/// compiled from. Only `compile_pattern` constructs one, so the kept
/// text always is the compiled pattern's source.
pub struct CompiledPattern {
    re: regex::Regex,
    source: String,
}

impl CompiledPattern {
    /// The pattern text this value was compiled from.
    pub closed spec fn pattern(self) -> Seq<char> {
        self.source@
    }
}

/// Relies on regex::Regex::new: it returns a compiled pattern exactly
/// when the pattern text is valid regex syntax and within the default
/// compiled-size limit — an outcome that depends on the text alone.
#[verifier::external_body]
fn compile_pattern(pattern: &str) -> (r: Option<CompiledPattern>)
    ensures
        r is Some <==> regex_valid(pattern@),
        r is Some ==> r->0.pattern() == pattern@,
{
    match regex::Regex::new(pattern) {
        Ok(re) => Some(CompiledPattern { re, source: pattern.to_string() }),
        Err(_) => None,
    }
}

/// Relies on regex::Regex::is_match: whether the pattern matches
/// anywhere in the string, a function of the compiled pattern's text
/// and the string alone.
#[verifier::external_body]
fn pattern_matches(p: &CompiledPattern, s: &str) -> (r: bool)
    ensures
        r == regex_match_of(p.pattern(), s@),
{
    p.re.is_match(s)
}

/// The `|`-alternation of the pattern texts, as the filter compiles
/// it.
pub open spec fn joined_patterns(patterns: Seq<String>) -> Seq<char>
    decreases patterns.len(),
{
    if patterns.len() == 0 {
        Seq::empty()
    } else if patterns.len() == 1 {
        patterns[0]@
    } else {
        joined_patterns(patterns.drop_last()) + seq!['|'] + patterns.last()@
    }
}

/// Decides whether a path is allowed, given an optional exclusion
/// pattern.
pub struct PathFilter {
    pattern: Option<CompiledPattern>,
}

impl PathFilter {
    /// True when no exclusion pattern is configured, in which case
    /// every path is allowed.
    pub closed spec fn unrestricted(self) -> bool {
        self.pattern is None
    }

    /// The configured pattern's text; meaningful when the filter is
    /// restricted.
    pub closed spec fn pattern(self) -> Seq<char> {
        self.pattern->0.pattern()
    }

    /// A filter with no exclusion pattern.
    pub fn accept_all() -> (r: PathFilter)
        ensures
            r.unrestricted(),
    {
        PathFilter { pattern: None }
    }

    /// Builds a filter from exclusion patterns, joined into one
    /// alternation. No patterns yield an unrestricted filter; the
    /// build succeeds exactly when the joined alternation compiles,
    /// and `None` is the fatal configuration error of a malformed
    /// pattern.
    pub fn from_patterns(patterns: &Vec<String>) -> (r: Option<PathFilter>)
        ensures
            r is Some <==> (patterns@.len() == 0 || regex_valid(joined_patterns(patterns@))),
            r is Some ==> (r->0.unrestricted() <==> patterns@.len() == 0),
            (r is Some && patterns@.len() > 0) ==> r->0.pattern() == joined_patterns(patterns@),
    {
        if patterns.len() == 0 {
            return Some(PathFilter { pattern: None });
        }
        let mut joined = String::new();
        let n = patterns.len();
        let mut i: usize = 0;
        proof {
            reveal_strlit("|");
        }
        while i < n
            invariant
                n == patterns@.len(),
                n >= 1,
                i <= n,
                joined@ == joined_patterns(patterns@.take(i as int)),
            decreases n - i,
        {
            if i > 0 {
                joined.append("|");
            }
            joined.append(patterns[i].as_str());
            proof {
                reveal_strlit("|");
                let pre = patterns@.take(i as int);
                let post = patterns@.take(i + 1);
                assert(post.drop_last() =~= pre);
                assert(post.last() == patterns@[i as int]);
                if i == 0 {
                    assert(joined@ =~= joined_patterns(post));
                } else {
                    assert(joined@ =~= joined_patterns(pre) + seq!['|'] + patterns@[i as int]@);
                    assert(joined_patterns(post) == joined_patterns(pre) + seq!['|']
                        + post.last()@);
                }
            }
            i = i + 1;
        }
        proof {
            assert(patterns@.take(n as int) =~= patterns@);
        }
        match compile_pattern(joined.as_str()) {
            Some(p) => Some(PathFilter { pattern: Some(p) }),
            None => None,
        }
    }

    /// True when the path is allowed: always with no pattern, and
    /// otherwise exactly when the exclusion pattern does not match.
    pub fn allows(&self, path: &str) -> (r: bool)
        ensures
            r == (self.unrestricted() || !regex_match_of(self.pattern(), path@)),
    {
        match &self.pattern {
            None => true,
            Some(p) => !pattern_matches(p, path),
        }
    }
}

} // verus!
