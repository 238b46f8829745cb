use rusty_nltk::tokenize::api::{TokenizeError, Tokenizer};
use rusty_nltk::tokenize::sexpr::{
    sexpression_tokenize, tokenize_with_delimiters, SExpressionTokenizerBuilder,
};
use rusty_nltk::tokenize::text::is_whitespace;

#[test]
fn passing_strict_parens_test() {
    let strict = true;
    let tokenizer = SExpressionTokenizerBuilder::new(strict).build();
    let text = "(a b (c d)) e f (g)";
    let expected = vec!["(a b (c d))", "e", "f", "(g)"];
    let result = tokenizer.tokenize(text);
    assert_eq!(Ok(expected), result);
}

#[test]
fn passing_strict_parens_test_fn() {
    let strict = true;
    let text = "(a b (c d)) e f (g)";
    let expected = vec!["(a b (c d))", "e", "f", "(g)"];
    let result = sexpression_tokenize(text, strict);
    assert_eq!(Ok(expected), result);
}

#[test]
fn passing_strict_braces_test() {
    let strict = true;
    let tokenizer = SExpressionTokenizerBuilder::new(strict).open_close('{', '}').build();

    let text = "{a b {c d}} e f {g}";
    let expected = vec!["{a b {c d}}", "e", "f", "{g}"];
    let result = tokenizer.tokenize(text);
    assert_eq!(Ok(expected), result);
}

#[test]
fn failing_strict_braces_test() {
    let strict = true;
    let tokenizer = SExpressionTokenizerBuilder::new(strict).open_close('{', '}').build();

    let text = "{a b {c d}} e f {g} }";
    let result = tokenizer.tokenize(text);
    assert_eq!(Err("Unmatched open token at 20".to_string()), result.map_err(|e| e.message()))
}

#[test]
fn failing_strict_braces_position() {
    let tokenizer = SExpressionTokenizerBuilder::new(true).open_close('{', '}').build();
    assert_eq!(
        Err(TokenizeError::UnmatchedCloseDelimiter { position: 20 }),
        tokenizer.tokenize("{a b {c d}} e f {g} }")
    );
}

#[test]
fn lenient_mode_passes_over_unmatched_close() {
    let tokenizer = SExpressionTokenizerBuilder::new(false).build();
    assert_eq!(Ok(vec!["a", ")", "b", "(c)"]), tokenizer.tokenize("a ) b (c)"));
    assert_eq!(Ok(vec!["(x)", ")"]), sexpression_tokenize("(x))", false));
}

#[test]
fn text_after_last_group_gives_words() {
    assert_eq!(Ok(vec!["(a)", "b", "c"]), sexpression_tokenize("(a) b  c ", true));
}

#[test]
fn text_without_delimiters_gives_words() {
    assert_eq!(Ok(vec!["a", "b", "c"]), sexpression_tokenize(" a\tb\nc", true));
    assert_eq!(Ok(Vec::<&str>::new()), sexpression_tokenize("", true));
    assert_eq!(Ok(Vec::<&str>::new()), sexpression_tokenize(" \t ", true));
}

#[test]
fn unclosed_group_gives_no_token() {
    assert_eq!(Ok(vec!["a"]), sexpression_tokenize("a (b (c)", true));
    assert_eq!(Ok(Vec::<&str>::new()), sexpression_tokenize("(", true));
}

#[test]
fn group_next_to_words() {
    assert_eq!(Ok(vec!["x", "(y)", "z"]), sexpression_tokenize("x(y)z", true));
}

#[test]
fn unicode_white_space_separates_words() {
    assert_eq!(Ok(vec!["a", "b", "(ü)"]), sexpression_tokenize("a\u{3000}b\u{a0}(ü)", true));
}

#[test]
fn brackets_as_delimiters() {
    let tokenizer = SExpressionTokenizerBuilder::new(false).open_close('[', ']').build();
    assert_eq!(Ok(vec!["[a [b]]", "(c)"]), tokenizer.tokenize("[a [b]] (c)"));
}

#[test]
fn delimiter_tokenizer_has_no_spans() {
    let tokenizer = SExpressionTokenizerBuilder::new(true).build();
    assert_eq!(Err(TokenizeError::NotImplemented), tokenizer.span_tokenize("(a)"));
    let texts = vec!["(a)"];
    assert_eq!(Err(TokenizeError::NotImplemented), tokenizer.span_tokenize_sents(&texts));
}

#[test]
fn delimiter_batch_stops_at_first_failure() {
    let tokenizer = SExpressionTokenizerBuilder::new(true).build();
    let texts = vec!["(a) b", ") c", "d )"];
    assert_eq!(
        Err(TokenizeError::UnmatchedCloseDelimiter { position: 0 }),
        tokenizer.tokenize_sents(&texts)
    );
    let good = vec!["(a) b", "c"];
    assert_eq!(Ok(vec![vec!["(a)", "b"], vec!["c"]]), tokenizer.tokenize_sents(&good));
}

#[test]
fn tokenize_with_given_delimiters() {
    let text = "(a b) c";
    assert_eq!(Ok(vec!["(a b)", "c"]), tokenize_with_delimiters(text, &[(0, 1), (4, 5)], '(', ')', true));
    assert_eq!(
        Err(TokenizeError::UnmatchedCloseDelimiter { position: 4 }),
        tokenize_with_delimiters(text, &[(4, 5)], '(', ')', true)
    );
    assert_eq!(Ok(vec!["(a", "b)", "c"]), tokenize_with_delimiters(text, &[], '(', ')', true));
}

#[test]
fn balanced_input_closes_every_group() {
    let result = sexpression_tokenize("((a) (b (c))) d", true).unwrap();
    assert_eq!(vec!["((a) (b (c)))", "d"], result);
}

#[test]
fn white_space_matches_std() {
    for u in 0..0x11_0000u32 {
        if let Some(c) = char::from_u32(u) {
            assert_eq!(c.is_whitespace(), is_whitespace(c), "{:?}", c);
        }
    }
}

#[test]
fn lenient_mode_on_leading_close() {
    let tokenizer = SExpressionTokenizerBuilder::new(false).build();
    assert_eq!(Ok(vec![")", "(a)"]), tokenizer.tokenize(") (a)"));
}

#[test]
fn meta_and_word_characters_as_delimiters() {
    let tokenizer = SExpressionTokenizerBuilder::new(true).open_close('<', '>').build();
    assert_eq!(Ok(vec!["<a <b>>", "c"]), tokenizer.tokenize("<a <b>> c"));
    let tokenizer = SExpressionTokenizerBuilder::new(true).open_close('b', 'e').build();
    assert_eq!(Ok(vec!["x", "bxe", "y"]), tokenizer.tokenize("x bxe y"));
    let tokenizer = SExpressionTokenizerBuilder::new(true).open_close('|', '|').build();
    assert_eq!(Ok(vec!["x"]), tokenizer.tokenize("x |a|b"));
}

#[test]
fn balanced_input_keeps_every_character() {
    let text = " x ((a) (b (c)))\td (e) ";
    for strict in [true, false] {
        let tokens = sexpression_tokenize(text, strict).unwrap();
        let kept: String = tokens.concat().chars().filter(|c| !c.is_whitespace()).collect();
        let all: String = text.chars().filter(|c| !c.is_whitespace()).collect();
        assert_eq!(all, kept);
        assert_eq!(vec!["x", "((a) (b (c)))", "d", "(e)"], tokens);
    }
}
