use vstd::prelude::*;
use vstd::std_specs::iter::IteratorSpec;
use vstd::string::StringSliceAdditionalSpecFns;
use vstd::utf8::*;

use crate::tokenize::api::{token_texts, tokens_view, TokenizeError, Tokenizer};
use crate::tokenize::matcher::{alternation_of, char_occurrences, escape_char, Pattern};
use crate::tokenize::text::{
    char_width,
    decode_range,
    is_whitespace,
    lemma_decode_range_split,
    lemma_encode_concat,
    lemma_encode_take,
    lemma_prefix_boundary,
    substr,
    white_space,
};
use crate::tokenize::util::spans_view;

verus! {

broadcast use {encode_utf8_valid_utf8, encode_utf8_decode_utf8};

/// The words of `cs`: its maximal runs of characters that are not white
/// space, in order. A character that is not white space extends the last word
/// when the character before it is not white space either, and starts a new
/// word otherwise.
pub open spec fn words(cs: Seq<char>) -> Seq<Seq<char>>
    decreases cs.len(),
{
    if cs.len() == 0 {
        seq![]
    } else {
        let w = words(cs.drop_last());
        let c = cs.last();
        if white_space(c) {
            w
        } else if cs.len() >= 2 && !white_space(cs[cs.len() - 2]) {
            w.update(w.len() - 1, w.last().push(c))
        } else {
            w.push(seq![c])
        }
    }
}

/// A run of non-white-space characters from `rc` to the end of `cs`, preceded
/// by white space or by nothing, is the last word of `cs`.
proof fn lemma_words_last_run(cs: Seq<char>, rc: int)
    requires
        0 <= rc < cs.len(),
        rc == 0 || white_space(cs[rc - 1]),
        forall|j: int| rc <= j < cs.len() ==> !white_space(#[trigger] cs[j]),
    ensures
        words(cs) == words(cs.take(rc)).push(cs.subrange(rc, cs.len() as int)),
    decreases cs.len(),
{
    let n = cs.len() as int;
    assert(!white_space(cs[n - 1]));
    if n == rc + 1 {
        assert(cs.drop_last() =~= cs.take(rc));
        assert(cs.subrange(rc, n) =~= seq![cs[n - 1]]);
    } else {
        let d = cs.drop_last();
        assert(!white_space(cs[n - 2]));
        assert(d.take(rc) =~= cs.take(rc));
        if rc > 0 {
            assert(d[rc - 1] == cs[rc - 1]);
        }
        lemma_words_last_run(d, rc);
        assert(d.subrange(rc, d.len() as int).push(cs[n - 1]) =~= cs.subrange(rc, n));
        assert(words(d).last() == d.subrange(rc, d.len() as int));
        assert(words(cs) =~= words(cs.take(rc)).push(cs.subrange(rc, n)));
    }
}

/// Appends to `out` the words of the part of `s` between the byte offsets `a`
/// and `b`.
fn push_words<'a>(out: &mut Vec<&'a str>, s: &'a str, a: usize, b: usize)
    requires
        a <= b <= s.spec_bytes().len(),
        is_char_boundary(s.spec_bytes(), a as int),
        is_char_boundary(s.spec_bytes(), b as int),
    ensures
        token_texts(final(out)@) == token_texts(old(out)@) + words(
            decode_range(s.spec_bytes(), a as int, b as int),
        ),
{
    let gap = substr(s, a, b);
    let ghost cs = gap@;
    let ghost base = token_texts(out@);
    let n = gap.unicode_len();
    let mut chars = gap.chars();
    let mut i: usize = 0;
    let mut off: usize = 0;
    let mut in_run = false;
    let mut run_start: usize = 0;
    let ghost mut rc: int = 0;
    assert(cs.take(0) =~= Seq::<char>::empty());
    while i < n
        invariant
            cs == gap@,
            n == cs.len(),
            gap.spec_bytes().len() <= usize::MAX,
            i <= n,
            chars.remaining() == cs.skip(i as int),
            off == encode_utf8(cs.take(i as int)).len(),
            in_run ==> {
                &&& 0 <= rc < i
                &&& run_start == encode_utf8(cs.take(rc)).len()
                &&& rc == 0 || white_space(cs[rc - 1])
                &&& forall|j: int| rc <= j < i ==> !white_space(#[trigger] cs[j])
                &&& token_texts(out@) == base + words(cs.take(rc))
            },
            !in_run ==> {
                &&& i == 0 || white_space(cs[i - 1])
                &&& token_texts(out@) == base + words(cs.take(i as int))
            },
        decreases n - i,
    {
        let c = chars.next().unwrap();
        assert(c == cs[i as int]);
        assert(cs.take(i + 1).drop_last() =~= cs.take(i as int));
        assert(cs.take(i + 1).last() == c);
        if is_whitespace(c) {
            if in_run {
                proof {
                    lemma_encode_take(cs, rc, i as int);
                    lemma_words_last_run(cs.take(i as int), rc);
                    assert(cs.take(i as int).take(rc) =~= cs.take(rc));
                    assert(cs.take(i as int).subrange(rc, i as int) =~= cs.subrange(rc, i as int));
                }
                let word = substr(gap, run_start, off);
                let ghost before = out@;
                out.push(word);
                assert(token_texts(out@) =~= token_texts(before).push(word@));
                in_run = false;
            }
        } else if !in_run {
            in_run = true;
            run_start = off;
            proof {
                rc = i as int;
            }
        }
        proof {
            lemma_encode_take(cs, i as int, i + 1);
            assert(cs.subrange(i as int, i + 1) =~= seq![c]);
            assert(seq![c].drop_first() =~= Seq::<char>::empty());
            assert(encode_utf8(seq![c]) =~= encode_scalar(c as u32) + encode_utf8(
                Seq::<char>::empty(),
            ));
        }
        off = off + char_width(c);
        i = i + 1;
    }
    assert(cs.take(n as int) =~= cs);
    if in_run {
        proof {
            lemma_encode_take(cs, rc, n as int);
            lemma_words_last_run(cs, rc);
        }
        let word = substr(gap, run_start, off);
        let ghost before = out@;
        out.push(word);
        assert(token_texts(out@) =~= token_texts(before).push(word@));
    }
}

/// What the text of a delimiter match is.
#[derive(Debug, Clone, Copy, PartialEq, Eq, Structural)]
pub enum Delimiter {
    /// The opening delimiter.
    Open,
    /// The closing delimiter.
    Close,
    /// Neither delimiter.
    Neither,
}

/// What the bytes of `t` that the match `m` covers hold.
pub open spec fn delimiter_of(t: Seq<u8>, m: (int, int), open: char, close: char) -> Delimiter {
    let text = decode_range(t, m.0, m.1);
    if text == seq![open] {
        Delimiter::Open
    } else if text == seq![close] {
        Delimiter::Close
    } else {
        Delimiter::Neither
    }
}

/// Matches in order, each within `t` and on character boundaries, none
/// overlapping the next.
pub open spec fn valid_matches(t: Seq<u8>, ms: Seq<(int, int)>) -> bool {
    forall|k: int|
        0 <= k < ms.len() ==> {
            &&& 0 <= #[trigger] ms[k].0 <= ms[k].1 <= t.len()
            &&& is_char_boundary(t, ms[k].0)
            &&& is_char_boundary(t, ms[k].1)
            &&& k > 0 ==> ms[k - 1].1 <= ms[k].0
        }
}

/// One step of the delimiter scan over `t`, from the state `st` (tokens so
/// far, cursor, depth) at the match `m`. Outside any group the words between
/// the cursor and the match become tokens and the cursor moves to the match.
/// An opening delimiter goes one level deeper. A closing delimiter outside
/// any group fails in strict mode with the cursor, and is passed over
/// otherwise; one that closes the outermost group makes the group a token
/// and moves the cursor past it; a deeper one goes one level up.
pub open spec fn scan_step(
    t: Seq<u8>,
    st: (Seq<Seq<char>>, int, nat),
    m: (int, int),
    open: char,
    close: char,
    strict: bool,
) -> Result<(Seq<Seq<char>>, int, nat), int> {
    let depth = st.2;
    let tokens = if depth == 0 {
        st.0 + words(decode_range(t, st.1, m.0))
    } else {
        st.0
    };
    let pos = if depth == 0 {
        m.0
    } else {
        st.1
    };
    match delimiter_of(t, m, open, close) {
        Delimiter::Open => Ok((tokens, pos, depth + 1)),
        Delimiter::Close => if depth == 0 {
            if strict {
                Err(pos)
            } else {
                Ok((tokens, pos, 0))
            }
        } else if depth == 1 {
            Ok((tokens.push(decode_range(t, pos, m.1)), m.1, 0))
        } else {
            Ok((tokens, pos, (depth - 1) as nat))
        },
        Delimiter::Neither => Ok((tokens, pos, depth)),
    }
}

/// The state of the delimiter scan over `t` after the matches `ms`, or the
/// cursor at which it failed.
pub open spec fn scan(t: Seq<u8>, ms: Seq<(int, int)>, open: char, close: char, strict: bool) -> Result<
    (Seq<Seq<char>>, int, nat),
    int,
>
    decreases ms.len(),
{
    if ms.len() == 0 {
        Ok((seq![], 0, 0))
    } else {
        match scan(t, ms.drop_last(), open, close, strict) {
            Ok(st) => scan_step(t, st, ms.last(), open, close, strict),
            Err(p) => Err(p),
        }
    }
}

/// The tokens of the balanced-delimiter split of `t` with the delimiter
/// matches `ms`. After the last match, the rest of the text gives its words
/// outside any group; a group that is never closed gives no token.
pub open spec fn sexpr_tokens(
    t: Seq<u8>,
    ms: Seq<(int, int)>,
    open: char,
    close: char,
    strict: bool,
) -> Result<Seq<Seq<char>>, TokenizeError> {
    match scan(t, ms, open, close, strict) {
        Ok(st) => Ok(
            if st.2 == 0 {
                st.0 + words(decode_range(t, st.1, t.len() as int))
            } else {
                st.0
            },
        ),
        Err(p) => Err(TokenizeError::UnmatchedCloseDelimiter { position: p as usize }),
    }
}

/// A scan that fails on a prefix of the matches fails on all of them, at the
/// same cursor.
proof fn lemma_scan_failure_stays(
    t: Seq<u8>,
    ms: Seq<(int, int)>,
    k: int,
    open: char,
    close: char,
    strict: bool,
)
    requires
        0 <= k <= ms.len(),
        scan(t, ms.take(k), open, close, strict) is Err,
    ensures
        scan(t, ms, open, close, strict) == scan(t, ms.take(k), open, close, strict),
    decreases ms.len() - k,
{
    if k < ms.len() {
        assert(ms.take(k + 1).drop_last() =~= ms.take(k));
        lemma_scan_failure_stays(t, ms, k + 1, open, close, strict);
    } else {
        assert(ms.take(k) =~= ms);
    }
}

/// How many more opening than closing delimiters the matches `ms` hold.
pub open spec fn nesting(t: Seq<u8>, ms: Seq<(int, int)>, open: char, close: char) -> int
    decreases ms.len(),
{
    if ms.len() == 0 {
        0
    } else {
        nesting(t, ms.drop_last(), open, close) + match delimiter_of(t, ms.last(), open, close) {
            Delimiter::Open => 1,
            Delimiter::Close => -1,
            Delimiter::Neither => 0,
        }
    }
}

/// The delimiters balance: no prefix of the matches closes more groups than
/// it opens, and all of them together close every group they open.
pub open spec fn balanced(t: Seq<u8>, ms: Seq<(int, int)>, open: char, close: char) -> bool {
    &&& forall|k: int| 0 <= k <= ms.len() ==> nesting(t, #[trigger] ms.take(k), open, close) >= 0
    &&& nesting(t, ms, open, close) == 0
}

/// While no prefix closes more groups than it opens, the scan never fails and
/// its depth is the nesting of the matches so far.
proof fn lemma_scan_depth(t: Seq<u8>, ms: Seq<(int, int)>, open: char, close: char, strict: bool)
    requires
        forall|k: int| 0 <= k <= ms.len() ==> nesting(t, #[trigger] ms.take(k), open, close) >= 0,
    ensures
        scan(t, ms, open, close, strict) is Ok,
        scan(t, ms, open, close, strict)->Ok_0.2 == nesting(t, ms, open, close),
    decreases ms.len(),
{
    if ms.len() > 0 {
        let init = ms.drop_last();
        assert forall|k: int| 0 <= k <= init.len() implies nesting(
            t,
            #[trigger] init.take(k),
            open,
            close,
        ) >= 0 by {
            assert(init.take(k) =~= ms.take(k));
        }
        lemma_scan_depth(t, init, open, close, strict);
        assert(ms.take(ms.len() as int) =~= ms);
    }
}

/// With balanced delimiters, the scan never fails and ends outside any group,
/// in strict mode as in lenient mode.
pub proof fn lemma_balanced_scan_ends_at_depth_zero(
    t: Seq<u8>,
    ms: Seq<(int, int)>,
    open: char,
    close: char,
    strict: bool,
)
    requires
        balanced(t, ms, open, close),
    ensures
        scan(t, ms, open, close, strict) is Ok,
        scan(t, ms, open, close, strict)->Ok_0.2 == 0,
        sexpr_tokens(t, ms, open, close, strict) is Ok,
{
    lemma_scan_depth(t, ms, open, close, strict);
}

/// A strict scan that succeeds has kept every prefix of the matches from
/// closing more groups than it opened, and ends at the nesting of the
/// matches; one that fails does so at the start of the first closing
/// delimiter that closes more groups than were opened before it.
proof fn lemma_strict_scan(t: Seq<u8>, ms: Seq<(int, int)>, open: char, close: char)
    ensures
        scan(t, ms, open, close, true) is Ok ==> scan(t, ms, open, close, true)->Ok_0.2 == nesting(
            t,
            ms,
            open,
            close,
        ),
        scan(t, ms, open, close, true) is Ok ==> forall|k: int|
            0 <= k <= ms.len() ==> nesting(t, #[trigger] ms.take(k), open, close) >= 0,
        scan(t, ms, open, close, true) is Err ==> exists|k: int|
            #![trigger ms[k]]
            0 <= k < ms.len() && scan(t, ms, open, close, true)->Err_0 == ms[k].0 && nesting(
                t,
                ms.take(k + 1),
                open,
                close,
            ) < 0 && forall|j: int| 0 <= j <= k ==> nesting(t, #[trigger] ms.take(j), open, close) >= 0,
    decreases ms.len(),
{
    if ms.len() == 0 {
        assert(ms.take(0) =~= ms);
    } else {
        let n = ms.len() - 1;
        let init = ms.drop_last();
        lemma_strict_scan(t, init, open, close);
        assert(ms.take(ms.len() as int) =~= ms);
        assert forall|k: int| 0 <= k <= init.len() implies #[trigger] init.take(k) == ms.take(k) by {
            assert(init.take(k) =~= ms.take(k));
        }
        match scan(t, init, open, close, true) {
            Ok(st) => {
                if scan(t, ms, open, close, true) is Ok {
                    assert forall|k: int| 0 <= k <= ms.len() implies nesting(
                        t,
                        #[trigger] ms.take(k),
                        open,
                        close,
                    ) >= 0 by {
                        if k <= n {
                            assert(init.take(k) == ms.take(k));
                        }
                    }
                }
                if scan(t, ms, open, close, true) is Err {
                    assert(ms[n] == ms.last());
                    assert(ms.take(n + 1) =~= ms);
                    assert(scan(t, ms, open, close, true)->Err_0 == ms[n].0);
                    assert forall|j: int| 0 <= j <= n implies nesting(
                        t,
                        #[trigger] ms.take(j),
                        open,
                        close,
                    ) >= 0 by {
                        assert(init.take(j) == ms.take(j));
                    }
                }
            },
            Err(p) => {
                let k = choose|k: int|
                    #![trigger init[k]]
                    0 <= k < init.len() && p == init[k].0 && nesting(
                        t,
                        init.take(k + 1),
                        open,
                        close,
                    ) < 0 && forall|j: int|
                        0 <= j <= k ==> nesting(t, #[trigger] init.take(j), open, close) >= 0;
                assert(init[k] == ms[k]);
                assert(init.take(k + 1) == ms.take(k + 1));
                assert forall|j: int| 0 <= j <= k implies nesting(
                    t,
                    #[trigger] ms.take(j),
                    open,
                    close,
                ) >= 0 by {
                    assert(init.take(j) == ms.take(j));
                }
            },
        }
    }
}

/// A strict scan fails exactly when some prefix of the matches closes more
/// groups than it opens, and then at the start of the first closing
/// delimiter that does so.
pub proof fn lemma_strict_fails_at_first_unmatched_close(
    t: Seq<u8>,
    ms: Seq<(int, int)>,
    open: char,
    close: char,
)
    ensures
        scan(t, ms, open, close, true) is Err <==> exists|k: int|
            0 <= k <= ms.len() && nesting(t, #[trigger] ms.take(k), open, close) < 0,
        scan(t, ms, open, close, true) is Err ==> exists|k: int|
            #![trigger ms[k]]
            0 <= k < ms.len() && scan(t, ms, open, close, true)->Err_0 == ms[k].0 && nesting(
                t,
                ms.take(k + 1),
                open,
                close,
            ) < 0 && forall|j: int| 0 <= j <= k ==> nesting(t, #[trigger] ms.take(j), open, close) >= 0,
{
    lemma_strict_scan(t, ms, open, close);
    if !(exists|k: int| 0 <= k <= ms.len() && nesting(t, #[trigger] ms.take(k), open, close) < 0) {
        lemma_scan_depth(t, ms, open, close, true);
    }
}

/// Where a strict scan succeeds, a lenient one gives the same result: the
/// two differ only at a closing delimiter outside any group.
pub proof fn lemma_strict_success_agrees_with_lenient(
    t: Seq<u8>,
    ms: Seq<(int, int)>,
    open: char,
    close: char,
)
    requires
        scan(t, ms, open, close, true) is Ok,
    ensures
        scan(t, ms, open, close, false) == scan(t, ms, open, close, true),
        sexpr_tokens(t, ms, open, close, false) == sexpr_tokens(t, ms, open, close, true),
    decreases ms.len(),
{
    if ms.len() > 0 {
        lemma_strict_success_agrees_with_lenient(t, ms.drop_last(), open, close);
    }
}

/// A text whose delimiters balance splits without failing and ends outside
/// any group, in strict mode as in lenient mode.
pub proof fn lemma_balanced_text_splits(s: Seq<char>, open: char, close: char, strict: bool)
    requires
        balanced(encode_utf8(s), char_occurrences(s, open, close), open, close),
    ensures
        sexpr_split(s, open, close, strict) is Ok,
        scan(encode_utf8(s), char_occurrences(s, open, close), open, close, strict)->Ok_0.2 == 0,
{
    lemma_balanced_scan_ends_at_depth_zero(
        encode_utf8(s),
        char_occurrences(s, open, close),
        open,
        close,
        strict,
    );
}

/// How often `c` occurs in `cs`.
pub open spec fn count_char(c: char, cs: Seq<char>) -> nat
    decreases cs.len(),
{
    if cs.len() == 0 {
        0
    } else {
        count_char(c, cs.drop_last()) + if cs.last() == c {
            1nat
        } else {
            0nat
        }
    }
}

/// The tokens one after the other.
pub open spec fn concat_all(ts: Seq<Seq<char>>) -> Seq<char>
    decreases ts.len(),
{
    if ts.len() == 0 {
        seq![]
    } else {
        concat_all(ts.drop_last()) + ts.last()
    }
}

proof fn lemma_count_concat(c: char, a: Seq<char>, b: Seq<char>)
    ensures
        count_char(c, a + b) == count_char(c, a) + count_char(c, b),
    decreases b.len(),
{
    if b.len() == 0 {
        assert(a + b =~= a);
    } else {
        assert((a + b).drop_last() =~= a + b.drop_last());
        lemma_count_concat(c, a, b.drop_last());
    }
}

proof fn lemma_concat_all_append(a: Seq<Seq<char>>, b: Seq<Seq<char>>)
    ensures
        concat_all(a + b) == concat_all(a) + concat_all(b),
    decreases b.len(),
{
    if b.len() == 0 {
        assert(a + b =~= a);
        assert(concat_all(a) + concat_all(b) =~= concat_all(a));
    } else {
        assert((a + b).drop_last() =~= a + b.drop_last());
        lemma_concat_all_append(a, b.drop_last());
        assert(concat_all(a + b) =~= concat_all(a) + concat_all(b));
    }
}

/// The words of a text hold each character that is not white space as often
/// as the text does.
proof fn lemma_words_keep_characters(c: char, cs: Seq<char>)
    requires
        !white_space(c),
    ensures
        count_char(c, concat_all(words(cs))) == count_char(c, cs),
        cs.len() > 0 && !white_space(cs.last()) ==> words(cs).len() > 0,
    decreases cs.len(),
{
    if cs.len() > 0 {
        let init = cs.drop_last();
        let x = cs.last();
        let w = words(init);
        lemma_words_keep_characters(c, init);
        if white_space(x) {
        } else if cs.len() >= 2 && !white_space(cs[cs.len() - 2]) {
            assert(init.last() == cs[cs.len() - 2]);
            let n = w.len() - 1;
            let u = w.update(n, w[n].push(x));
            assert(u.drop_last() =~= w.drop_last());
            assert(concat_all(u) =~= concat_all(w).push(x));
            assert(concat_all(w).push(x).drop_last() =~= concat_all(w));
        } else {
            assert(w.push(seq![x]).drop_last() =~= w);
            assert(concat_all(w) + seq![x] =~= concat_all(w).push(x));
            assert(concat_all(w).push(x).drop_last() =~= concat_all(w));
        }
    }
}

/// Through every scan that does not fail, the tokens so far hold each
/// character that is not white space as often as the text before the cursor.
proof fn lemma_scan_keeps_characters(
    t: Seq<u8>,
    ms: Seq<(int, int)>,
    open: char,
    close: char,
    strict: bool,
    c: char,
)
    requires
        valid_utf8(t),
        valid_matches(t, ms),
        !white_space(c),
        scan(t, ms, open, close, strict) is Ok,
    ensures
        ({
            let st = scan(t, ms, open, close, strict)->Ok_0;
            &&& 0 <= st.1 <= t.len()
            &&& is_char_boundary(t, st.1)
            &&& ms.len() > 0 ==> st.1 <= ms.last().1
            &&& count_char(c, concat_all(st.0)) == count_char(c, decode_range(t, 0, st.1))
        }),
    decreases ms.len(),
{
    if ms.len() == 0 {
        is_char_boundary_start_end_of_seq(t);
        assert(t.subrange(0, 0) =~= Seq::<u8>::empty());
        assert(decode_range(t, 0, 0) =~= Seq::<char>::empty());
        assert(concat_all(Seq::<Seq<char>>::empty()) =~= Seq::<char>::empty());
    } else {
        let init = ms.drop_last();
        let m = ms.last();
        assert(m == ms[ms.len() - 1]);
        assert(valid_matches(t, init)) by {
            assert forall|k: int| 0 <= k < init.len() implies #[trigger] init[k] == ms[k] by {}
        }
        if scan(t, init, open, close, strict) is Err {
            assert(false);
        }
        lemma_scan_keeps_characters(t, init, open, close, strict, c);
        let st = scan(t, init, open, close, strict)->Ok_0;
        if init.len() > 0 {
            assert(init.last() == ms[ms.len() - 2]);
        }
        assert(st.1 <= m.0);
        is_char_boundary_start_end_of_seq(t);
        if st.2 == 0 {
            let gap = words(decode_range(t, st.1, m.0));
            lemma_words_keep_characters(c, decode_range(t, st.1, m.0));
            lemma_concat_all_append(st.0, gap);
            lemma_count_concat(c, concat_all(st.0), concat_all(gap));
            lemma_decode_range_split(t, 0, st.1, m.0);
            lemma_count_concat(c, decode_range(t, 0, st.1), decode_range(t, st.1, m.0));
            let tokens = st.0 + gap;
            assert(concat_all(tokens) == concat_all(st.0) + concat_all(gap));
            assert(count_char(c, concat_all(tokens)) == count_char(c, decode_range(t, 0, m.0)));
            assert(ms.drop_last() == init);
            let nst = scan(t, ms, open, close, strict)->Ok_0;
            assert(nst.0 == tokens && nst.1 == m.0);
            assert(count_char(c, concat_all(nst.0)) == count_char(c, decode_range(t, 0, nst.1)));
        } else if st.2 == 1 && delimiter_of(t, m, open, close) == Delimiter::Close {
            lemma_decode_range_split(t, 0, st.1, m.1);
            lemma_count_concat(c, decode_range(t, 0, st.1), decode_range(t, st.1, m.1));
            assert(st.0.push(decode_range(t, st.1, m.1)).drop_last() =~= st.0);
            let nst = scan(t, ms, open, close, strict)->Ok_0;
            assert(nst.0 == st.0.push(decode_range(t, st.1, m.1)));
            assert(concat_all(nst.0) == concat_all(st.0) + decode_range(t, st.1, m.1));
            lemma_count_concat(c, concat_all(st.0), decode_range(t, st.1, m.1));
            assert(nst.1 == m.1);
            assert(count_char(c, concat_all(nst.0)) == count_char(c, decode_range(t, 0, nst.1)));
        }
    }
}

/// On a text whose delimiters balance, the split never fails, and its tokens
/// hold each character that is not white space, delimiters included, as
/// often as the text does: every delimiter ends up inside a group token and
/// no text outside the white space is lost.
pub proof fn lemma_balanced_text_keeps_characters(
    s: Seq<char>,
    open: char,
    close: char,
    strict: bool,
    c: char,
)
    requires
        balanced(encode_utf8(s), char_occurrences(s, open, close), open, close),
        !white_space(c),
    ensures
        sexpr_split(s, open, close, strict) is Ok,
        count_char(c, concat_all(sexpr_split(s, open, close, strict)->Ok_0)) == count_char(c, s),
{
    let t = encode_utf8(s);
    let ms = char_occurrences(s, open, close);
    lemma_balanced_text_splits(s, open, close, strict);
    lemma_occurrences_valid(s, open, close);
    lemma_scan_keeps_characters(t, ms, open, close, strict, c);
    let st = scan(t, ms, open, close, strict)->Ok_0;
    let rest = words(decode_range(t, st.1, t.len() as int));
    lemma_words_keep_characters(c, decode_range(t, st.1, t.len() as int));
    lemma_concat_all_append(st.0, rest);
    lemma_count_concat(c, concat_all(st.0), concat_all(rest));
    is_char_boundary_start_end_of_seq(t);
    lemma_decode_range_split(t, 0, st.1, t.len() as int);
    lemma_count_concat(c, decode_range(t, 0, st.1), decode_range(t, st.1, t.len() as int));
    assert(t.subrange(0, t.len() as int) =~= t);
}

/// The occurrences of two characters in a text are valid matches of its
/// encoding.
proof fn lemma_occurrences_valid(s: Seq<char>, a: char, b: char)
    ensures
        valid_matches(encode_utf8(s), char_occurrences(s, a, b)),
        forall|k: int|
            0 <= k < char_occurrences(s, a, b).len() ==> #[trigger] char_occurrences(
                s,
                a,
                b,
            )[k].1 <= encode_utf8(s).len(),
    decreases s.len(),
{
    let t = encode_utf8(s);
    let occ = char_occurrences(s, a, b);
    if s.len() > 0 {
        let init = s.drop_last();
        let ti = encode_utf8(init);
        let prev = char_occurrences(init, a, b);
        lemma_occurrences_valid(init, a, b);
        assert(s =~= init + seq![s.last()]);
        lemma_encode_concat(init, seq![s.last()]);
        assert(s.take(s.len() - 1) =~= init);
        lemma_prefix_boundary(s, s.len() - 1);
        is_char_boundary_start_end_of_seq(t);
        is_char_boundary_start_end_of_seq(ti);
        assert forall|x: int| 0 <= x <= ti.len() && is_char_boundary(ti, x) implies is_char_boundary(
            t,
            x,
        ) by {
            if x < ti.len() {
                is_char_boundary_iff_not_is_continuation_byte(ti, x);
                assert(t[x] == ti[x]);
                is_char_boundary_iff_not_is_continuation_byte(t, x);
            }
        }
        assert forall|k: int| 0 <= k < occ.len() implies {
            &&& 0 <= #[trigger] occ[k].0 <= occ[k].1 <= t.len()
            &&& is_char_boundary(t, occ[k].0)
            &&& is_char_boundary(t, occ[k].1)
            &&& k > 0 ==> occ[k - 1].1 <= occ[k].0
        } by {
            if k < prev.len() {
                assert(occ[k] == prev[k]);
                if k > 0 {
                    assert(occ[k - 1] == prev[k - 1]);
                }
            } else {
                if k > 0 {
                    assert(occ[k - 1] == prev[k - 1]);
                }
            }
        }
    }
}

/// What the part of `s` between the byte offsets `a` and `b` holds.
fn delimiter_at(s: &str, a: usize, b: usize, open: char, close: char) -> (r: Delimiter)
    requires
        a <= b <= s.spec_bytes().len(),
        is_char_boundary(s.spec_bytes(), a as int),
        is_char_boundary(s.spec_bytes(), b as int),
    ensures
        r == delimiter_of(s.spec_bytes(), (a as int, b as int), open, close),
{
    let m = substr(s, a, b);
    if m.unicode_len() == 1 {
        let c = m.get_char(0);
        assert(m@ =~= seq![c]);
        if c == open {
            Delimiter::Open
        } else if c == close {
            Delimiter::Close
        } else {
            Delimiter::Neither
        }
    } else {
        assert(m@ != seq![open]);
        assert(m@ != seq![close]);
        Delimiter::Neither
    }
}

/// Splits `s` into balanced-delimiter tokens, given the byte spans `delims`
/// of the occurrences of `open` and `close` in `s`. Outside any group, text
/// splits into its words; a group, from its opening delimiter to the one that
/// closes it, is one token. In strict mode, a closing delimiter outside any
/// group fails with `UnmatchedCloseDelimiter`; otherwise it is passed over.
/// After the last delimiter, the rest of the text splits into its words; a
/// group that is never closed gives no token.
pub fn tokenize_with_delimiters<'a>(
    s: &'a str,
    delims: &[(usize, usize)],
    open: char,
    close: char,
    strict: bool,
) -> (r: Result<Vec<&'a str>, TokenizeError>)
    requires
        valid_matches(s.spec_bytes(), spans_view(delims@)),
    ensures
        tokens_view(r) == sexpr_tokens(s.spec_bytes(), spans_view(delims@), open, close, strict),
{
    let ghost t = s.spec_bytes();
    let ghost ms = spans_view(delims@);
    let mut result: Vec<&'a str> = Vec::new();
    let mut pos: usize = 0;
    let mut depth: usize = 0;
    let mut k: usize = 0;
    proof {
        is_char_boundary_start_end_of_seq(t);
        assert(ms.take(0) =~= Seq::<(int, int)>::empty());
        assert(token_texts(result@) =~= Seq::<Seq<char>>::empty());
    }
    while k < delims.len()
        invariant
            t == s.spec_bytes(),
            ms == spans_view(delims@),
            valid_matches(t, ms),
            k <= ms.len(),
            scan(t, ms.take(k as int), open, close, strict) == Ok::<
                (Seq<Seq<char>>, int, nat),
                int,
            >((token_texts(result@), pos as int, depth as nat)),
            pos <= t.len(),
            is_char_boundary(t, pos as int),
            k < ms.len() ==> pos <= ms[k as int].0,
            depth <= k,
        decreases delims.len() - k,
    {
        let (start, end) = delims[k];
        assert(ms[k as int] == (start as int, end as int));
        assert(ms.take(k + 1).drop_last() =~= ms.take(k as int));
        assert(ms.take(k + 1).last() == ms[k as int]);
        if k + 1 < delims.len() {
            assert(ms[k + 1].0 >= end);
        }
        if depth == 0 {
            push_words(&mut result, s, pos, start);
            pos = start;
        }
        match delimiter_at(s, start, end, open, close) {
            Delimiter::Open => {
                depth = depth + 1;
            },
            Delimiter::Close => {
                if depth == 0 {
                    if strict {
                        proof {
                            lemma_scan_failure_stays(t, ms, k + 1, open, close, strict);
                        }
                        return Err(TokenizeError::UnmatchedCloseDelimiter { position: pos });
                    }
                } else {
                    depth = depth - 1;
                    if depth == 0 {
                        let group = substr(s, pos, end);
                        let ghost before = result@;
                        result.push(group);
                        assert(token_texts(result@) =~= token_texts(before).push(group@));
                        pos = end;
                    }
                }
            },
            Delimiter::Neither => {},
        }
        k = k + 1;
    }
    assert(ms.take(k as int) =~= ms);
    if depth == 0 {
        push_words(&mut result, s, pos, s.as_bytes().len());
    }
    Ok(result)
}

/// `SExpressionTokenizerBuilder` builds balanced-delimiter tokenizers with
/// varying strictness. Unless changed, the delimiters are `(` and `)`.
pub struct SExpressionTokenizerBuilder {
    /// Whether a closing delimiter outside any group is an error.
    _strict: bool,
    /// The delimiter that opens a group.
    _open_paren: char,
    /// The delimiter that closes a group.
    _close_paren: char,
}

impl View for SExpressionTokenizerBuilder {
    type V = (bool, char, char);

    /// Strictness, opening delimiter, closing delimiter.
    closed spec fn view(&self) -> (bool, char, char) {
        (self._strict, self._open_paren, self._close_paren)
    }
}

impl SExpressionTokenizerBuilder {
    /// Constructs a builder with strictness `strict` and the delimiters `(`
    /// and `)`.
    pub fn new(strict: bool) -> (r: SExpressionTokenizerBuilder)
        ensures
            r@ == (strict, '(', ')'),
    {
        SExpressionTokenizerBuilder { _strict: strict, _open_paren: '(', _close_paren: ')' }
    }

    /// Changes the delimiters to `open` and `close`.
    pub fn open_close(self, open: char, close: char) -> (r: SExpressionTokenizerBuilder)
        ensures
            r@ == (self@.0, open, close),
    {
        SExpressionTokenizerBuilder { _open_paren: open, _close_paren: close, ..self }
    }

    /// Builds an `SExpressionTokenizer` with this builder's settings, and the
    /// pattern that matches either delimiter.
    pub fn build(self) -> (r: SExpressionTokenizer)
        ensures
            r@ == self@,
    {
        let mut pattern = escape_char(self._open_paren);
        pattern.append("|");
        let close = escape_char(self._close_paren);
        pattern.append(close.as_str());
        proof {
            reveal_strlit("|");
            assert(pattern@ =~= alternation_of(self._open_paren, self._close_paren));
        }
        let paren_regexp = Pattern::new(pattern.as_str()).unwrap();
        SExpressionTokenizer {
            strict: self._strict,
            open_paren: self._open_paren,
            close_paren: self._close_paren,
            paren_regexp,
        }
    }
}

/// `SExpressionTokenizer` splits text into balanced-delimiter tokens, with
/// the settings of its builder.
pub struct SExpressionTokenizer {
    /// Whether a closing delimiter outside any group is an error.
    strict: bool,
    /// The delimiter that opens a group.
    open_paren: char,
    /// The delimiter that closes a group.
    close_paren: char,
    /// Matches either delimiter.
    paren_regexp: Pattern,
}

impl SExpressionTokenizer {
    /// The pattern matches either delimiter.
    #[verifier::type_invariant]
    spec fn pattern_matches_delimiters(&self) -> bool {
        self.paren_regexp@ == alternation_of(self.open_paren, self.close_paren)
    }
}

impl View for SExpressionTokenizer {
    type V = (bool, char, char);

    /// Strictness, opening delimiter, closing delimiter.
    closed spec fn view(&self) -> (bool, char, char) {
        (self.strict, self.open_paren, self.close_paren)
    }
}

/// The balanced-delimiter split of `s` with the delimiters `open` and `close`,
/// at each of their occurrences.
pub open spec fn sexpr_split(s: Seq<char>, open: char, close: char, strict: bool) -> Result<
    Seq<Seq<char>>,
    TokenizeError,
> {
    sexpr_tokens(encode_utf8(s), char_occurrences(s, open, close), open, close, strict)
}

impl Tokenizer for SExpressionTokenizer {
    open spec fn tokenize_spec(&self, s: Seq<char>) -> Result<Seq<Seq<char>>, TokenizeError> {
        sexpr_split(s, self@.1, self@.2, self@.0)
    }

    open spec fn span_tokenize_spec(&self, s: Seq<char>) -> Result<Seq<(int, int)>, TokenizeError> {
        Err(TokenizeError::NotImplemented)
    }

    fn tokenize<'a>(&self, s: &'a str) -> (r: Result<Vec<&'a str>, TokenizeError>) {
        proof {
            use_type_invariant(self);
        }
        let delims = self.paren_regexp.find_spans(s);
        tokenize_with_delimiters(s, &delims, self.open_paren, self.close_paren, self.strict)
    }

    fn span_tokenize(&self, s: &str) -> (r: Result<Vec<(usize, usize)>, TokenizeError>) {
        Err(TokenizeError::NotImplemented)
    }
}

/// Splits `s` into balanced-delimiter tokens with strictness `strict` and the
/// delimiters `(` and `)`.
pub fn sexpression_tokenize<'a>(s: &'a str, strict: bool) -> (r: Result<Vec<&'a str>, TokenizeError>)
    ensures
        tokens_view(r) == sexpr_split(s@, '(', ')', strict),
{
    let tokenizer = SExpressionTokenizerBuilder::new(strict).build();
    tokenizer.tokenize(s)
}

} // verus!
