//! Recognition of the header line that opens each history entry.
use vstd::prelude::*;

use crate::entries::{is_ascii_digit, is_ascii_space};

verus! {

#[verifier::external_type_specification]
#[verifier::external_body]
pub struct ExRegex(regex::bytes::Regex);

#[verifier::external_type_specification]
#[verifier::external_body]
pub struct ExRegexError(regex::Error);

/// Whether `regex::bytes::Regex::new` accepts the pattern written as `pattern`.
pub uninterp spec fn regex_compiles(pattern: Seq<char>) -> bool;

/// Relies on regex::bytes::Regex::new: compiles `pattern`, or reports why it
/// cannot; which of the two depends on the pattern alone.
#[verifier::external_body]
fn compile(pattern: &str) -> (r: Result<regex::bytes::Regex, regex::Error>)
    ensures
        r is Ok <==> regex_compiles(pattern@),
{
    regex::bytes::Regex::new(pattern)
}

/// The header rule as a regular expression: at the very start of the line, a
/// colon, one ASCII whitespace byte, 10 to 13 ASCII digits of timestamp, a
/// colon, one ASCII digit of status flag and a semicolon.
pub open spec fn header_pattern() -> Seq<char> {
    "^:[\\t-\\r ][0-9]{10,13}:[0-9];"@
}

/// Whether `line` opens with a header of `c` timestamp digits.
pub open spec fn header_of_width(line: Seq<u8>, c: int) -> bool {
    &&& c + 5 <= line.len()
    &&& line[0] == 0x3a
    &&& is_ascii_space(line[1])
    &&& forall|j: int| 2 <= j < 2 + c ==> is_ascii_digit(#[trigger] line[j])
    &&& line[2 + c] == 0x3a
    &&& is_ascii_digit(line[3 + c])
    &&& line[4 + c] == 0x3b
}

/// Whether `line` opens a new entry: what `header_pattern` matches.
pub open spec fn is_header_line(line: Seq<u8>) -> bool {
    exists|c: int| 10 <= c <= 13 && #[trigger] header_of_width(line, c)
}

/// The header rule as a predicate on lines.
pub open spec fn header_rule() -> spec_fn(Seq<u8>) -> bool {
    |line: Seq<u8>| is_header_line(line)
}

/// Relies on regex::bytes::Regex::is_match: a regex compiled from
/// `header_pattern()` matches exactly the lines that `is_header_line` accepts
/// (`^` anchors it at the start of the haystack; the classes are ASCII).
#[verifier::external_body]
fn regex_matches(m: &HeaderMatcher, haystack: &[u8]) -> (r: bool)
    ensures
        m.pattern() == header_pattern() ==> (r == is_header_line(haystack@)),
{
    m.re.is_match(haystack)
}

/// A compiled header rule.
///
/// Its fields are private and `new` is the only constructor, so the compiled
/// regex is always the one built from `pattern()`, which is `header_pattern()`.
pub struct HeaderMatcher {
    re: regex::bytes::Regex,
    pattern: Ghost<Seq<char>>,
}

impl HeaderMatcher {
    /// The pattern that the matcher was compiled from.
    pub closed spec fn pattern(&self) -> Seq<char> {
        self.pattern@
    }

    #[verifier::type_invariant]
    spec fn compiled_from_header_pattern(&self) -> bool {
        self.pattern@ == header_pattern()
    }

    /// The set of lines that open a new entry under this matcher.
    pub open spec fn is_header(&self) -> spec_fn(Seq<u8>) -> bool {
        header_rule()
    }

    /// Compiles the header rule once, to be shared by every line of a run.
    pub fn new() -> (r: Result<HeaderMatcher, crate::HistoryError>)
        ensures
            r is Ok <==> regex_compiles(header_pattern()),
            r matches Ok(m) ==> m.pattern() == header_pattern(),
            r matches Err(e) ==> e == crate::HistoryError::InvalidPattern,
    {
        let pattern: &str = "^:[\\t-\\r ][0-9]{10,13}:[0-9];";
        proof {
            reveal_strlit("^:[\\t-\\r ][0-9]{10,13}:[0-9];");
        }
        match compile(pattern) {
            Ok(re) => Ok(HeaderMatcher { re, pattern: Ghost(pattern@) }),
            Err(_) => Err(crate::HistoryError::InvalidPattern),
        }
    }

    /// Whether `line` opens a new entry.
    pub fn matches(&self, line: &[u8]) -> (r: bool)
        ensures
            r == (self.is_header())(line@),
            r == is_header_line(line@),
    {
        proof {
            use_type_invariant(self);
        }
        regex_matches(self, line)
    }
}

} // verus!
