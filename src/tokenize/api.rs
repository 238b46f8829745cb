use vstd::prelude::*;
use vstd::string::StringSliceAdditionalSpecFns;
use vstd::utf8::*;

use crate::tokenize::text::{decode_range, substr};
use crate::tokenize::util::{
    lemma_split_spans_cover,
    literal_pieces,
    ordered_spans,
    spans_run,
    spans_view,
    split_spans,
    string_span_tokenize,
};

verus! {

broadcast use encode_utf8_valid_utf8;

/// Why a tokenizer could not tokenize a text.
#[derive(Debug, Clone, Copy, PartialEq, Eq, Structural)]
pub enum TokenizeError {
    /// A literal-separator tokenizer was given an empty separator.
    EmptySeparator,
    /// The tokenizer does not compute spans.
    NotImplemented,
    /// A strict delimiter tokenizer met a closing delimiter with no open group;
    /// `position` is the byte offset of the scan's cursor at that point.
    UnmatchedCloseDelimiter { position: usize },
    /// A pattern could not be compiled.
    InvalidPattern,
}

/// The decimal digit `d`.
pub open spec fn digit_char(d: nat) -> char {
    seq!['0', '1', '2', '3', '4', '5', '6', '7', '8', '9'][d as int]
}

/// The decimal numeral of `n`.
pub open spec fn decimal(n: nat) -> Seq<char>
    decreases n,
{
    if n < 10 {
        seq![digit_char(n)]
    } else {
        decimal(n / 10).push(digit_char(n % 10))
    }
}

/// The sentence that says what went wrong.
pub open spec fn error_message(e: TokenizeError) -> Seq<char> {
    match e {
        TokenizeError::EmptySeparator => "Error! Separator has a length of 0!"@,
        TokenizeError::NotImplemented => "Not implemented."@,
        TokenizeError::UnmatchedCloseDelimiter { position } => "Unmatched open token at "@
            + decimal(position as nat),
        TokenizeError::InvalidPattern => "The pattern is not a valid regular expression."@,
    }
}

/// The decimal digit `d`, as text.
fn digit_str(d: usize) -> (r: &'static str)
    requires
        d < 10,
    ensures
        r@ == seq![digit_char(d as nat)],
{
    proof {
        reveal_strlit("0");
        reveal_strlit("1");
        reveal_strlit("2");
        reveal_strlit("3");
        reveal_strlit("4");
        reveal_strlit("5");
        reveal_strlit("6");
        reveal_strlit("7");
        reveal_strlit("8");
        reveal_strlit("9");
    }
    match d {
        0 => "0",
        1 => "1",
        2 => "2",
        3 => "3",
        4 => "4",
        5 => "5",
        6 => "6",
        7 => "7",
        8 => "8",
        _ => "9",
    }
}

/// Appends the decimal numeral of `n` to `out`.
fn push_decimal(out: &mut String, n: usize)
    ensures
        final(out)@ == old(out)@ + decimal(n as nat),
    decreases n,
{
    if n >= 10 {
        push_decimal(out, n / 10);
    }
    out.append(digit_str(n % 10));
}

impl TokenizeError {
    /// The sentence that says what went wrong.
    pub fn message(&self) -> (r: String)
        ensures
            r@ == error_message(*self),
    {
        match self {
            TokenizeError::EmptySeparator => String::from_str("Error! Separator has a length of 0!"),
            TokenizeError::NotImplemented => String::from_str("Not implemented."),
            TokenizeError::UnmatchedCloseDelimiter { position } => {
                let mut r = String::from_str("Unmatched open token at ");
                push_decimal(&mut r, *position);
                r
            },
            TokenizeError::InvalidPattern => String::from_str(
                "The pattern is not a valid regular expression.",
            ),
        }
    }
}

/// The texts of some tokens.
pub open spec fn token_texts(v: Seq<&str>) -> Seq<Seq<char>> {
    v.map_values(|t: &str| t@)
}

/// A tokenizing result, with its tokens as texts.
pub open spec fn tokens_view(r: Result<Vec<&str>, TokenizeError>) -> Result<
    Seq<Seq<char>>,
    TokenizeError,
> {
    match r {
        Ok(v) => Ok(token_texts(v@)),
        Err(e) => Err(e),
    }
}

/// A span tokenizing result, with its spans as pairs of integers.
pub open spec fn spans_result_view(r: Result<Vec<(usize, usize)>, TokenizeError>) -> Result<
    Seq<(int, int)>,
    TokenizeError,
> {
    match r {
        Ok(v) => Ok(spans_view(v@)),
        Err(e) => Err(e),
    }
}

/// Splits texts into tokens, and reports where the tokens stand.
pub trait Tokenizer {
    /// What `tokenize` gives for the text `s`.
    spec fn tokenize_spec(&self, s: Seq<char>) -> Result<Seq<Seq<char>>, TokenizeError>;

    /// What `span_tokenize` gives for the text `s`.
    spec fn span_tokenize_spec(&self, s: Seq<char>) -> Result<Seq<(int, int)>, TokenizeError>;

    /// Splits `s` into tokens.
    fn tokenize<'a>(&self, s: &'a str) -> (r: Result<Vec<&'a str>, TokenizeError>)
        ensures
            tokens_view(r) == self.tokenize_spec(s@),
    ;

    /// Returns the byte spans of the tokens of `s`. A tokenizer that does not
    /// compute spans returns `NotImplemented`. There is no default body: a
    /// default could not be held to `span_tokenize_spec`, which each
    /// tokenizer defines for itself.
    fn span_tokenize(&self, s: &str) -> (r: Result<Vec<(usize, usize)>, TokenizeError>)
        ensures
            spans_result_view(r) == self.span_tokenize_spec(s@),
    ;

    /// Tokenizes each text in order; the first failure is returned.
    fn tokenize_sents<'a>(&self, strings: &[&'a str]) -> (r: Result<
        Vec<Vec<&'a str>>,
        TokenizeError,
    >)
        ensures
            match r {
                Ok(all) => all@.len() == strings@.len() && forall|i: int|
                    0 <= i < strings@.len() ==> #[trigger] self.tokenize_spec(strings@[i]@) == Ok::<
                        Seq<Seq<char>>,
                        TokenizeError,
                    >(token_texts(all@[i]@)),
                Err(e) => exists|i: int|
                    0 <= i < strings@.len() && #[trigger] self.tokenize_spec(strings@[i]@) == Err::<
                        Seq<Seq<char>>,
                        TokenizeError,
                    >(e) && forall|j: int|
                        0 <= j < i ==> #[trigger] self.tokenize_spec(strings@[j]@) is Ok,
            },
    {
        let mut all: Vec<Vec<&'a str>> = Vec::new();
        let mut i: usize = 0;
        while i < strings.len()
            invariant
                i <= strings@.len(),
                all@.len() == i,
                forall|j: int|
                    0 <= j < i ==> #[trigger] self.tokenize_spec(strings@[j]@) == Ok::<
                        Seq<Seq<char>>,
                        TokenizeError,
                    >(token_texts(all@[j]@)),
            decreases strings.len() - i,
        {
            let r = self.tokenize(strings[i]);
            match r {
                Ok(tokens) => {
                    let ghost before = all@;
                    all.push(tokens);
                    assert forall|j: int| 0 <= j < i + 1 implies #[trigger] self.tokenize_spec(
                        strings@[j]@,
                    ) == Ok::<Seq<Seq<char>>, TokenizeError>(token_texts(all@[j]@)) by {
                        if j < i {
                            assert(all@[j] == before[j]);
                        }
                    }
                },
                Err(e) => {
                    assert(self.tokenize_spec(strings@[i as int]@) == Err::<
                        Seq<Seq<char>>,
                        TokenizeError,
                    >(e));
                    return Err(e);
                },
            }
            i = i + 1;
        }
        Ok(all)
    }

    /// Computes the spans of each text in order; the first failure is
    /// returned.
    fn span_tokenize_sents(&self, strings: &[&str]) -> (r: Result<
        Vec<Vec<(usize, usize)>>,
        TokenizeError,
    >)
        ensures
            match r {
                Ok(all) => all@.len() == strings@.len() && forall|i: int|
                    0 <= i < strings@.len() ==> #[trigger] self.span_tokenize_spec(strings@[i]@)
                        == Ok::<Seq<(int, int)>, TokenizeError>(spans_view(all@[i]@)),
                Err(e) => exists|i: int|
                    0 <= i < strings@.len() && #[trigger] self.span_tokenize_spec(strings@[i]@)
                        == Err::<Seq<(int, int)>, TokenizeError>(e) && forall|j: int|
                        0 <= j < i ==> #[trigger] self.span_tokenize_spec(strings@[j]@) is Ok,
            },
    {
        let mut all: Vec<Vec<(usize, usize)>> = Vec::new();
        let mut i: usize = 0;
        while i < strings.len()
            invariant
                i <= strings@.len(),
                all@.len() == i,
                forall|j: int|
                    0 <= j < i ==> #[trigger] self.span_tokenize_spec(strings@[j]@) == Ok::<
                        Seq<(int, int)>,
                        TokenizeError,
                    >(spans_view(all@[j]@)),
            decreases strings.len() - i,
        {
            let r = self.span_tokenize(strings[i]);
            match r {
                Ok(spans) => {
                    let ghost before = all@;
                    all.push(spans);
                    assert forall|j: int| 0 <= j < i + 1 implies #[trigger] self.span_tokenize_spec(
                        strings@[j]@,
                    ) == Ok::<Seq<(int, int)>, TokenizeError>(spans_view(all@[j]@)) by {
                        if j < i {
                            assert(all@[j] == before[j]);
                        }
                    }
                },
                Err(e) => {
                    assert(self.span_tokenize_spec(strings@[i as int]@) == Err::<
                        Seq<(int, int)>,
                        TokenizeError,
                    >(e));
                    return Err(e);
                },
            }
            i = i + 1;
        }
        Ok(all)
    }
}

/// `StringTokenizerBuilder` builds tokenizers that split on each occurrence
/// of a literal separator.
pub struct StringTokenizerBuilder {
    _string: &'static str,
}

impl View for StringTokenizerBuilder {
    type V = Seq<char>;

    /// The separator.
    closed spec fn view(&self) -> Seq<char> {
        self._string@
    }
}

impl StringTokenizerBuilder {
    /// Constructs a builder of tokenizers that split on `string`.
    pub fn new(string: &'static str) -> (r: StringTokenizerBuilder)
        ensures
            r@ == string@,
    {
        StringTokenizerBuilder { _string: string }
    }

    /// Builds a `StringTokenizer` that splits on this builder's separator.
    pub fn build(self) -> (r: StringTokenizer)
        ensures
            r.string@ == self@,
    {
        StringTokenizer { string: self._string }
    }
}

/// `StringTokenizer` splits text on each occurrence of its separator.
pub struct StringTokenizer {
    pub string: &'static str,
}

/// The tokens of `s` split on `sep`: every piece, empty ones included;
/// `EmptySeparator` when `sep` is empty.
pub open spec fn literal_tokens(s: Seq<char>, sep: Seq<char>) -> Result<
    Seq<Seq<char>>,
    TokenizeError,
> {
    if sep.len() == 0 {
        Err(TokenizeError::EmptySeparator)
    } else {
        Ok(literal_pieces(s, sep))
    }
}

/// The byte spans of the tokens of `s` split on `sep`; `EmptySeparator` when
/// `sep` is empty.
pub open spec fn literal_spans(s: Seq<char>, sep: Seq<char>) -> Result<
    Seq<(int, int)>,
    TokenizeError,
> {
    if sep.len() == 0 {
        Err(TokenizeError::EmptySeparator)
    } else {
        Ok(split_spans(encode_utf8(s), encode_utf8(sep)))
    }
}

/// The spans and the tokens of a literal split agree: both succeed or both
/// fail alike, and when they succeed the spans are as many as the tokens,
/// run in order from the start of the text to its end, and the text between
/// the bounds of each span is the token at the same place.
pub proof fn lemma_spans_match_tokens(s: Seq<char>, sep: Seq<char>)
    ensures
        literal_spans(s, sep) is Err <==> literal_tokens(s, sep) is Err,
        literal_spans(s, sep) is Err ==> literal_spans(s, sep)->Err_0 == literal_tokens(
            s,
            sep,
        )->Err_0,
        literal_spans(s, sep) is Ok ==> spans_run(
            literal_spans(s, sep)->Ok_0,
            0,
            encode_utf8(s).len() as int,
        ),
        literal_spans(s, sep) is Ok ==> ordered_spans(literal_spans(s, sep)->Ok_0),
        literal_spans(s, sep) is Ok ==> literal_tokens(s, sep)->Ok_0 == literal_spans(
            s,
            sep,
        )->Ok_0.map_values(|sp: (int, int)| decode_range(encode_utf8(s), sp.0, sp.1)),
{
    if sep.len() > 0 {
        lemma_split_spans_cover(s, sep);
    }
}

impl Tokenizer for StringTokenizer {
    open spec fn tokenize_spec(&self, s: Seq<char>) -> Result<Seq<Seq<char>>, TokenizeError> {
        literal_tokens(s, self.string@)
    }

    open spec fn span_tokenize_spec(&self, s: Seq<char>) -> Result<Seq<(int, int)>, TokenizeError> {
        literal_spans(s, self.string@)
    }

    fn tokenize<'a>(&self, s: &'a str) -> (r: Result<Vec<&'a str>, TokenizeError>) {
        let spans = match string_span_tokenize(s, self.string) {
            Ok(spans) => spans,
            Err(e) => {
                return Err(e);
            },
        };
        let ghost t = s.spec_bytes();
        let ghost sp = spans_view(spans@);
        proof {
            lemma_split_spans_cover(s@, self.string@);
        }
        let mut tokens: Vec<&'a str> = Vec::new();
        let mut k: usize = 0;
        while k < spans.len()
            invariant
                t == s.spec_bytes(),
                sp == spans_view(spans@),
                sp == split_spans(t, self.string.spec_bytes()),
                literal_pieces(s@, self.string@) == sp.map_values(
                    |p: (int, int)| decode_utf8(t.subrange(p.0, p.1)),
                ),
                forall|j: int| 0 <= j < sp.len() ==> 0 <= #[trigger] sp[j].0 <= sp[j].1 <= t.len(),
                forall|j: int|
                    0 <= j < sp.len() ==> is_char_boundary(t, #[trigger] sp[j].0)
                        && is_char_boundary(t, sp[j].1),
                k <= spans@.len(),
                token_texts(tokens@) == literal_pieces(s@, self.string@).take(k as int),
            decreases spans.len() - k,
        {
            let (a, b) = spans[k];
            assert(sp[k as int] == (a as int, b as int));
            let piece = substr(s, a, b);
            let ghost before = tokens@;
            tokens.push(piece);
            assert(token_texts(tokens@) =~= token_texts(before).push(piece@));
            assert(literal_pieces(s@, self.string@).take(k + 1) =~= literal_pieces(
                s@,
                self.string@,
            ).take(k as int).push(piece@));
            k = k + 1;
        }
        assert(literal_pieces(s@, self.string@).take(k as int) =~= literal_pieces(
            s@,
            self.string@,
        ));
        Ok(tokens)
    }

    fn span_tokenize(&self, s: &str) -> (r: Result<Vec<(usize, usize)>, TokenizeError>) {
        string_span_tokenize(s, self.string)
    }
}

} // verus!
