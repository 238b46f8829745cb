use vstd::prelude::*;
use vstd::string::StringSliceAdditionalSpecFns;
use vstd::utf8::*;

use crate::tokenize::api::TokenizeError;
use crate::tokenize::sexpr::valid_matches;
use crate::tokenize::util::spans_view;

verus! {

/// A compiled regular expression of the `regex` crate.
#[verifier::external_type_specification]
#[verifier::external_body]
pub struct ExRegex(regex::Regex);

/// Why the `regex` crate could not compile a pattern.
#[verifier::external_type_specification]
#[verifier::external_body]
pub struct ExRegexError(regex::Error);

/// The byte spans of the successive non-overlapping matches of the regular
/// expression `pattern` in `text`, leftmost first.
pub uninterp spec fn regex_matches(pattern: Seq<char>, text: Seq<char>) -> Seq<(int, int)>;

/// The characters that have a meaning of their own in a regular expression.
pub open spec fn regex_meta(c: char) -> bool {
    ||| c == '\\' || c == '.' || c == '+' || c == '*' || c == '?' || c == '(' || c == ')'
    ||| c == '|' || c == '[' || c == ']' || c == '{' || c == '}' || c == '^' || c == '$'
    ||| c == '#' || c == '&' || c == '-' || c == '~'
}

/// A pattern that matches `c` literally: `c`, behind a backslash where it has
/// a meaning of its own.
pub open spec fn escaped(c: char) -> Seq<char> {
    if regex_meta(c) {
        seq!['\\', c]
    } else {
        seq![c]
    }
}

/// A pattern that matches either `a` or `b`.
pub open spec fn alternation_of(a: char, b: char) -> Seq<char> {
    escaped(a) + seq!['|'] + escaped(b)
}

/// The byte spans of the occurrences of `a` or `b` in `s`, in order.
pub open spec fn char_occurrences(s: Seq<char>, a: char, b: char) -> Seq<(int, int)>
    decreases s.len(),
{
    if s.len() == 0 {
        seq![]
    } else {
        let prev = char_occurrences(s.drop_last(), a, b);
        if s.last() == a || s.last() == b {
            prev.push((encode_utf8(s.drop_last()).len() as int, encode_utf8(s).len() as int))
        } else {
            prev
        }
    }
}

/// Relies on `regex::Regex::new`: compiles `pattern`, or says why it cannot.
/// It fails only on a pattern that is not valid or that compiles beyond the
/// size limit, so an alternation of two literal characters compiles.
#[verifier::external_body]
fn compile(pattern: &str) -> (r: Result<regex::Regex, regex::Error>)
    ensures
        forall|a: char, b: char| #[trigger] alternation_of(a, b) == pattern@ ==> r is Ok,
{
    regex::Regex::new(pattern)
}

/// Relies on `regex::escape`: each character that `regex_syntax` counts as a
/// meta character gets a backslash in front, the others stand as they are.
#[verifier::external_body]
pub(crate) fn escape_char(c: char) -> (r: String)
    ensures
        r@ == escaped(c),
{
    regex::escape(&c.to_string())
}

/// A compiled regular expression, with the pattern it was compiled from.
pub struct Pattern {
    /// The pattern.
    source: String,
    /// `source`, compiled; only `Pattern::new` sets it.
    regex: regex::Regex,
}

impl View for Pattern {
    type V = Seq<char>;

    /// The pattern.
    closed spec fn view(&self) -> Seq<char> {
        self.source@
    }
}

impl Pattern {
    /// Compiles `source`; fails with `InvalidPattern` where `regex` cannot.
    /// An alternation of two literal characters always compiles.
    pub fn new(source: &str) -> (r: Result<Pattern, TokenizeError>)
        ensures
            match r {
                Ok(p) => p@ == source@,
                Err(e) => e == TokenizeError::InvalidPattern,
            },
            forall|a: char, b: char| #[trigger] alternation_of(a, b) == source@ ==> r is Ok,
    {
        match compile(source) {
            Ok(regex) => Ok(Pattern { source: String::from_str(source), regex }),
            Err(_) => Err(TokenizeError::InvalidPattern),
        }
    }

    /// The pattern, as text.
    pub fn as_str(&self) -> (r: &str)
        ensures
            r@ == self@,
    {
        self.source.as_str()
    }

    /// Relies on `regex::Regex::find_iter`: the successive non-overlapping
    /// matches of the pattern in `s`, leftmost first, as byte spans. They come
    /// in order, each with its start no later than its end, within `s` and on
    /// character boundaries; for an alternation of two literal characters they
    /// are the occurrences of either character.
    #[verifier::external_body]
    pub(crate) fn find_spans(&self, s: &str) -> (r: Vec<(usize, usize)>)
        ensures
            spans_view(r@) == regex_matches(self@, s@),
            valid_matches(s.spec_bytes(), spans_view(r@)),
            forall|a: char, b: char| #[trigger] alternation_of(a, b) == self@ ==> spans_view(r@)
                == char_occurrences(s@, a, b),
    {
        self.regex.find_iter(s).map(|m| (m.start(), m.end())).collect()
    }
}

} // verus!
