use vstd::prelude::*;

use crate::tokenize::api::StringTokenizer;

verus! {

/// `SpaceTokenizerBuilder` builds tokenizers that split on each space.
pub struct SpaceTokenizerBuilder {
    _string: &'static str,
}

impl View for SpaceTokenizerBuilder {
    type V = Seq<char>;

    /// The separator.
    closed spec fn view(&self) -> Seq<char> {
        self._string@
    }
}

impl SpaceTokenizerBuilder {
    /// Constructs a builder of tokenizers that split on `" "`.
    pub fn new() -> (r: SpaceTokenizerBuilder)
        ensures
            r@ == seq![' '],
    {
        proof {
            reveal_strlit(" ");
        }
        SpaceTokenizerBuilder { _string: " " }
    }

    /// Builds a `StringTokenizer` that splits on this builder's separator.
    pub fn build(self) -> (r: StringTokenizer)
        ensures
            r.string@ == self@,
    {
        StringTokenizer { string: self._string }
    }
}

/// `TabTokenizerBuilder` builds tokenizers that split on each tab.
pub struct TabTokenizerBuilder {
    _string: &'static str,
}

impl View for TabTokenizerBuilder {
    type V = Seq<char>;

    /// The separator.
    closed spec fn view(&self) -> Seq<char> {
        self._string@
    }
}

impl TabTokenizerBuilder {
    /// Constructs a builder of tokenizers that split on `"\t"`.
    pub fn new() -> (r: TabTokenizerBuilder)
        ensures
            r@ == seq!['\t'],
    {
        proof {
            reveal_strlit("\t");
        }
        TabTokenizerBuilder { _string: "\t" }
    }

    /// Builds a `StringTokenizer` that splits on this builder's separator.
    pub fn build(self) -> (r: StringTokenizer)
        ensures
            r.string@ == self@,
    {
        StringTokenizer { string: self._string }
    }
}

} // verus!
