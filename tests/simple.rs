use rusty_nltk::tokenize::api::Tokenizer;
use rusty_nltk::tokenize::simple::{SpaceTokenizerBuilder, TabTokenizerBuilder};

#[test]
fn test_space_tokenize() {
    let s = "Good muffins cost $3.88\nin New York.  Please buy me\ntwo of them.\n\nThanks.";
    let tokenizer = SpaceTokenizerBuilder::new().build();
    let result = tokenizer.tokenize(s).unwrap();
    let expected = vec!["Good", "muffins", "cost", "$3.88\nin", "New", "York.", "",
    "Please", "buy", "me\ntwo", "of", "them.\n\nThanks."];
    assert_eq!(expected, result);
}

#[test]
fn test_tab_tokenizer() {
    let s = "a\tb c\n\t d";
    let tokenizer = TabTokenizerBuilder::new().build();
    let result = tokenizer.tokenize(s).unwrap();
    let expected = vec!["a", "b c\n", " d"];
    assert_eq!(expected, result);
}

#[test]
fn space_tokenizer_spans() {
    let tokenizer = SpaceTokenizerBuilder::new().build();
    assert_eq!(Ok(vec![(0, 5), (6, 11)]), tokenizer.span_tokenize("hello world"));
    assert_eq!(" ", tokenizer.string);
}

#[test]
fn tab_tokenizer_spans() {
    let tokenizer = TabTokenizerBuilder::new().build();
    assert_eq!(Ok(vec![(0, 1), (2, 6), (7, 9)]), tokenizer.span_tokenize("a\tb c\n\t d"));
    assert_eq!("\t", tokenizer.string);
}
