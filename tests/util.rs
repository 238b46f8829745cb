use rusty_nltk::tokenize::matcher::Pattern;
use rusty_nltk::tokenize::api::TokenizeError;
use rusty_nltk::tokenize::util::{
    pattern_span_tokenize, regexp_span_tokenize, spans_to_relative, string_span_tokenize,
};

#[test]
fn string_span_tokenize_test() {
    let test_string = "hello world";
    let separator = " ";
    let result = string_span_tokenize(test_string, separator);
    let expected = vec![(0, 5), (6, 11)];
    assert_eq!(Ok(expected), result);
}

#[test]
fn regexp_span_tokenize_test() {
    let test_string = "hello world";
    let whitespace = r"\s";
    let separator = Pattern::new(whitespace).unwrap();
    let result = regexp_span_tokenize(test_string, &separator);
    let expected = vec![(0, 5), (6, 11)];
    assert_eq!(Ok(expected), result);
}

#[test]
fn spans_to_relative_test() {
    let test_span = vec![(0, 5), (6, 11)];
    let result = spans_to_relative(&test_span);
    let expected = vec![(0, 5), (1, 5)];
    assert_eq!(expected, result);
}

#[test]
fn string_span_tokenize_empty_separator() {
    assert_eq!(Err(TokenizeError::EmptySeparator), string_span_tokenize("abc", ""));
    assert_eq!(Err(TokenizeError::EmptySeparator), string_span_tokenize("", ""));
}

#[test]
fn string_span_tokenize_separator_at_both_ends() {
    assert_eq!(Ok(vec![(0, 0), (1, 4), (5, 5)]), string_span_tokenize("|abc|", "|"));
}

#[test]
fn string_span_tokenize_separator_longer_than_text() {
    assert_eq!(Ok(vec![(0, 2)]), string_span_tokenize("ab", "abc"));
}

#[test]
fn regexp_span_tokenize_empty_pattern() {
    let empty = Pattern::new("").unwrap();
    assert_eq!(Err(TokenizeError::EmptySeparator), regexp_span_tokenize("ab", &empty));
}

#[test]
fn regexp_span_tokenize_runs_of_whitespace() {
    let separator = Pattern::new(r"\s+").unwrap();
    assert_eq!(
        Ok(vec![(0, 3), (6, 9), (10, 10)]),
        regexp_span_tokenize("one \t two ", &separator)
    );
}

#[test]
fn regexp_span_tokenize_without_match() {
    let separator = Pattern::new(",").unwrap();
    assert_eq!(Ok(vec![(0, 4)]), regexp_span_tokenize("abcd", &separator));
}

#[test]
fn pattern_span_tokenize_around_matches() {
    assert_eq!(vec![(0, 2), (3, 5), (7, 8)], pattern_span_tokenize("ab cd  e", &[(2, 3), (5, 7)]));
    assert_eq!(vec![(0, 3)], pattern_span_tokenize("abc", &[]));
    assert_eq!(vec![(0, 0), (1, 1)], pattern_span_tokenize(",", &[(0, 1)]));
}

#[test]
fn pattern_spans_agree_with_literal_spans() {
    let text = "a,b,,c";
    let literal = string_span_tokenize(text, ",").unwrap();
    let pattern = pattern_span_tokenize(text, &[(1, 2), (3, 4), (4, 5)]);
    assert_eq!(literal, pattern);
}

#[test]
fn spans_to_relative_of_nothing() {
    assert_eq!(Vec::<(usize, usize)>::new(), spans_to_relative(&[]));
}

#[test]
fn spans_to_relative_with_gaps_and_empty_spans() {
    let spans = vec![(2, 2), (2, 7), (10, 10), (15, 20)];
    assert_eq!(vec![(2, 0), (0, 5), (3, 0), (5, 5)], spans_to_relative(&spans));
}

#[test]
fn relative_spans_rebuild_absolute_spans() {
    let spans = vec![(1, 4), (4, 4), (6, 11), (30, 31)];
    let relative = spans_to_relative(&spans);
    let mut rebuilt = Vec::new();
    let mut end = 0;
    for (gap, width) in relative {
        let start = end + gap;
        end = start + width;
        rebuilt.push((start, end));
    }
    assert_eq!(spans, rebuilt);
}

#[test]
fn pattern_keeps_its_source() {
    let pattern = Pattern::new(r"a|\(").unwrap();
    assert_eq!(r"a|\(", pattern.as_str());
}

#[test]
fn invalid_pattern_is_refused() {
    assert!(matches!(Pattern::new("a("), Err(TokenizeError::InvalidPattern)));
}
