use rusty_nltk::tokenize::api::{StringTokenizerBuilder, TokenizeError, Tokenizer};

#[test]
fn tokenize_sents_test() {
    let tokenizer = StringTokenizerBuilder::new(" ").build();
    let test_strings = vec!["hello world", "foo bar"];
    let result = tokenizer.tokenize_sents(&test_strings);
    let expected = vec![vec!["hello", "world"], vec!["foo", "bar"]];
    assert_eq!(Ok(expected), result);
}

#[test]
fn span_tokenize_sents_test() {
    let tokenizer = StringTokenizerBuilder::new(" ").build();
    let test_strings = vec!["hello world", "foo bar"];
    let result = tokenizer.span_tokenize_sents(&test_strings);
    let expected = vec![vec![(0, 5), (6, 11)], vec![(0, 3), (4, 7)]];
    assert_eq!(Ok(expected), result);
}

#[test]
fn tokenize_test() {
    let tokenizer = StringTokenizerBuilder::new(" ").build();
    let test_string = "hello world";
    let result = tokenizer.tokenize(test_string);
    let expected = vec!["hello", "world"];
    assert_eq!(Ok(expected), result);
}

#[test]
fn span_tokenize_test() {
    let tokenizer = StringTokenizerBuilder::new(" ").build();
    let test_string = "hello world";
    let result = tokenizer.span_tokenize(test_string);
    let expected = vec![(0, 5), (6, 11)];
    assert_eq!(Ok(expected), result);
}

#[test]
fn empty_separator_fails_on_empty_text() {
    let tokenizer = StringTokenizerBuilder::new("").build();
    assert_eq!(Err(TokenizeError::EmptySeparator), tokenizer.tokenize(""));
    assert_eq!(Err(TokenizeError::EmptySeparator), tokenizer.span_tokenize(""));
}

#[test]
fn empty_separator_fails_on_text() {
    let tokenizer = StringTokenizerBuilder::new("").build();
    assert_eq!(Err(TokenizeError::EmptySeparator), tokenizer.tokenize("abc"));
    assert_eq!(Err(TokenizeError::EmptySeparator), tokenizer.span_tokenize("abc"));
}

#[test]
fn empty_separator_fails_the_batch() {
    let tokenizer = StringTokenizerBuilder::new("").build();
    let texts = vec!["a", "b"];
    assert_eq!(Err(TokenizeError::EmptySeparator), tokenizer.tokenize_sents(&texts));
    assert_eq!(Err(TokenizeError::EmptySeparator), tokenizer.span_tokenize_sents(&texts));
}

#[test]
fn batch_of_no_texts_is_empty() {
    let tokenizer = StringTokenizerBuilder::new(" ").build();
    let texts: Vec<&str> = vec![];
    assert_eq!(Ok(Vec::<Vec<&str>>::new()), tokenizer.tokenize_sents(&texts));
    assert_eq!(Ok(Vec::<Vec<(usize, usize)>>::new()), tokenizer.span_tokenize_sents(&texts));
}

#[test]
fn literal_split_keeps_empty_pieces() {
    let tokenizer = StringTokenizerBuilder::new(",").build();
    assert_eq!(Ok(vec!["", "a", "", "b", ""]), tokenizer.tokenize(",a,,b,"));
    assert_eq!(
        Ok(vec![(0, 0), (1, 2), (3, 3), (4, 5), (6, 6)]),
        tokenizer.span_tokenize(",a,,b,")
    );
}

#[test]
fn literal_split_of_empty_text_is_one_empty_piece() {
    let tokenizer = StringTokenizerBuilder::new(" ").build();
    assert_eq!(Ok(vec![""]), tokenizer.tokenize(""));
    assert_eq!(Ok(vec![(0, 0)]), tokenizer.span_tokenize(""));
}

#[test]
fn literal_split_takes_leftmost_occurrences() {
    let tokenizer = StringTokenizerBuilder::new("aa").build();
    assert_eq!(Ok(vec!["", "", "a"]), tokenizer.tokenize("aaaaa"));
    assert_eq!(Ok(vec![(0, 0), (2, 2), (4, 5)]), tokenizer.span_tokenize("aaaaa"));
}

#[test]
fn literal_split_with_multibyte_text() {
    let tokenizer = StringTokenizerBuilder::new("→").build();
    assert_eq!(Ok(vec!["é", "ü", ""]), tokenizer.tokenize("é→ü→"));
    assert_eq!(Ok(vec![(0, 2), (5, 7), (10, 10)]), tokenizer.span_tokenize("é→ü→"));
}

#[test]
fn literal_round_trip_rebuilds_text() {
    let text = "one, two,, three ,four";
    let tokenizer = StringTokenizerBuilder::new(", ").build();
    let pieces = tokenizer.tokenize(text).unwrap();
    assert_eq!(vec!["one", "two,", "three ,four"], pieces);
    assert_eq!(text, pieces.join(", "));
}

#[test]
fn spans_slice_to_tokens() {
    let text = "a--bc----d--";
    let tokenizer = StringTokenizerBuilder::new("--").build();
    let pieces = tokenizer.tokenize(text).unwrap();
    let spans = tokenizer.span_tokenize(text).unwrap();
    assert_eq!(pieces.len(), spans.len());
    let mut previous_end = 0;
    for (piece, (start, end)) in pieces.iter().zip(spans.iter()) {
        assert!(previous_end <= *start && start <= end && *end <= text.len());
        assert_eq!(*piece, &text[*start..*end]);
        previous_end = *end;
    }
}

#[test]
fn error_messages() {
    assert_eq!(
        "Error! Separator has a length of 0!",
        TokenizeError::EmptySeparator.message()
    );
    assert_eq!("Not implemented.", TokenizeError::NotImplemented.message());
    assert_eq!(
        "Unmatched open token at 0",
        TokenizeError::UnmatchedCloseDelimiter { position: 0 }.message()
    );
    assert_eq!(
        "Unmatched open token at 1203",
        TokenizeError::UnmatchedCloseDelimiter { position: 1203 }.message()
    );
    assert_eq!(
        "The pattern is not a valid regular expression.",
        TokenizeError::InvalidPattern.message()
    );
}
