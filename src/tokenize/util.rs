use vstd::prelude::*;
use vstd::string::StringSliceAdditionalSpecFns;
use vstd::utf8::*;

use crate::tokenize::api::TokenizeError;
use crate::tokenize::matcher::{regex_matches, Pattern};
use crate::tokenize::text::{
    decode_range,
    lemma_encode_concat,
    lemma_occurrence_on_boundaries,
    lemma_range_valid,
    occurs_at,
};

verus! {

broadcast use {encode_utf8_valid_utf8, encode_utf8_decode_utf8};

/// The spans of the pieces of `t` between the leftmost non-overlapping
/// occurrences of `p`, for a scan that has reached offset `i` while the
/// current piece starts at `left`.
pub open spec fn split_spans_from(t: Seq<u8>, p: Seq<u8>, left: int, i: int) -> Seq<(int, int)>
    decreases t.len() - i,
{
    if p.len() == 0 || i < 0 || i + p.len() > t.len() {
        seq![(left, t.len() as int)]
    } else if occurs_at(t, p, i) {
        seq![(left, i)] + split_spans_from(t, p, i + p.len(), i + p.len())
    } else {
        split_spans_from(t, p, left, i + 1)
    }
}

/// The spans of the pieces of `t` between the leftmost non-overlapping
/// occurrences of `p`, empty pieces included.
pub open spec fn split_spans(t: Seq<u8>, p: Seq<u8>) -> Seq<(int, int)> {
    split_spans_from(t, p, 0, 0)
}

/// The spans of the text around the matches `ms` in a text of `len` bytes:
/// the gap before each match, then the rest after the last one.
pub open spec fn gap_spans(len: int, ms: Seq<(int, int)>) -> Seq<(int, int)> {
    Seq::new(
        ms.len() + 1,
        |k: int|
            (
                if k == 0 {
                    0
                } else {
                    ms[k - 1].1
                },
                if k < ms.len() {
                    ms[k].0
                } else {
                    len
                },
            ),
    )
}

/// Pieces joined, with `sep` between each two neighbours.
pub open spec fn join_with<A>(pieces: Seq<Seq<A>>, sep: Seq<A>) -> Seq<A>
    decreases pieces.len(),
{
    if pieces.len() == 0 {
        seq![]
    } else if pieces.len() == 1 {
        pieces[0]
    } else {
        pieces[0] + sep + join_with(pieces.drop_first(), sep)
    }
}

/// The bytes of `t` that each span covers.
pub open spec fn span_bytes(t: Seq<u8>, spans: Seq<(int, int)>) -> Seq<Seq<u8>> {
    spans.map_values(|sp: (int, int)| t.subrange(sp.0, sp.1))
}

/// The spans run in order from `left` to `end`, each within those bounds.
pub open spec fn spans_run(sp: Seq<(int, int)>, left: int, end: int) -> bool {
    &&& sp.len() >= 1
    &&& sp[0].0 == left
    &&& sp.last().1 == end
    &&& forall|k: int| 0 <= k < sp.len() ==> left <= #[trigger] sp[k].0 <= sp[k].1 <= end
}

/// Between each two neighbouring spans stands exactly one occurrence of `p`.
pub open spec fn separated_by(t: Seq<u8>, p: Seq<u8>, sp: Seq<(int, int)>) -> bool {
    forall|k: int|
        0 < k < sp.len() ==> #[trigger] sp[k].0 == sp[k - 1].1 + p.len() && occurs_at(
            t,
            p,
            sp[k - 1].1,
        )
}

/// Every span starts and ends on a character boundary of `t`.
pub open spec fn on_boundaries(t: Seq<u8>, sp: Seq<(int, int)>) -> bool {
    forall|k: int|
        0 <= k < sp.len() ==> is_char_boundary(t, #[trigger] sp[k].0) && is_char_boundary(
            t,
            sp[k].1,
        )
}

/// The shape of a scan from `left`: the spans run in order from `left` to the
/// end of `t` with an occurrence of `p` between neighbours, the pieces joined
/// with `p` give back the text, and where both encodings are valid the spans
/// start and end on character boundaries.
#[verifier::spinoff_prover]
proof fn lemma_split_spans_from_shape(t: Seq<u8>, p: Seq<u8>, left: int, i: int)
    requires
        p.len() > 0,
        0 <= left <= i <= t.len(),
    ensures
        spans_run(split_spans_from(t, p, left, i), left, t.len() as int),
        separated_by(t, p, split_spans_from(t, p, left, i)),
        join_with(span_bytes(t, split_spans_from(t, p, left, i)), p) == t.subrange(left, t.len() as int),
        valid_utf8(t) && valid_utf8(p) && is_char_boundary(t, left) ==> on_boundaries(t, split_spans_from(t, p, left, i)),
    decreases t.len() - i,
{
    let sp = split_spans_from(t, p, left, i);
    if i + p.len() > t.len() {
        assert(span_bytes(t, sp) =~= seq![t.subrange(left, t.len() as int)]);
        if valid_utf8(t) {
            is_char_boundary_start_end_of_seq(t);
        }
    } else if occurs_at(t, p, i) {
        let j = i + p.len();
        let rest = split_spans_from(t, p, j, j);
        lemma_split_spans_from_shape(t, p, j, j);
        if valid_utf8(t) && valid_utf8(p) {
            lemma_occurrence_on_boundaries(t, p, i);
        }
        let head = seq![(left, i)];
        assert(sp == head + rest);
        assert(sp.len() == rest.len() + 1);
        assert(sp[0] == (left, i));
        assert forall|k: int| 0 < k < sp.len() implies sp[k] == rest[k - 1] by {
            assert((head + rest)[k] == rest[k - 1]);
        }
        assert(separated_by(t, p, sp)) by {
            assert forall|k: int| 0 < k < sp.len() implies #[trigger] sp[k].0 == sp[k - 1].1
                + p.len() && occurs_at(t, p, sp[k - 1].1) by {
                if k > 1 {
                    assert(sp[k - 1] == rest[k - 2]);
                } else {
                    assert(sp[1] == rest[0]);
                    assert(rest[0].0 == j);
                }
            }
        }
        if valid_utf8(t) && valid_utf8(p) && is_char_boundary(t, left) {
            assert(on_boundaries(t, sp)) by {
                assert forall|k: int| 0 <= k < sp.len() implies is_char_boundary(
                    t,
                    #[trigger] sp[k].0,
                ) && is_char_boundary(t, sp[k].1) by {
                    if k > 0 {
                        assert(sp[k] == rest[k - 1]);
                    }
                }
            }
        }
        let bytes = span_bytes(t, sp);
        assert(bytes.drop_first() =~= span_bytes(t, rest));
        assert(bytes[0] == t.subrange(left, i));
        assert(t.subrange(left, t.len() as int) =~= t.subrange(left, i) + p + t.subrange(
            j,
            t.len() as int,
        ));
    } else {
        lemma_split_spans_from_shape(t, p, left, i + 1);
    }
}

/// Whether `p` occurs in `t` at byte offset `i`, where `p` fits there.
fn occurs_at_exec(t: &[u8], p: &[u8], i: usize) -> (r: bool)
    requires
        i + p@.len() <= t@.len(),
    ensures
        r == occurs_at(t@, p@, i as int),
{
    let n = t.len();
    let mut j: usize = 0;
    while j < p.len()
        invariant
            n == t@.len(),
            i + p@.len() <= t@.len(),
            j <= p@.len(),
            forall|k: int| 0 <= k < j ==> t@[i + k] == p@[k],
        decreases p.len() - j,
    {
        if t[i + j] != p[j] {
            assert(t@.subrange(i as int, i + p@.len())[j as int] != p@[j as int]);
            return false;
        }
        j = j + 1;
    }
    assert(t@.subrange(i as int, i + p@.len()) =~= p@);
    true
}

/// A non-empty text has a non-empty encoding.
proof fn lemma_encoding_nonempty(s: Seq<char>)
    requires
        s.len() > 0,
    ensures
        encode_utf8(s).len() > 0,
{
    assert(encode_scalar(s[0] as u32).len() > 0);
}

/// The spans of `v`, as pairs of integers.
pub open spec fn spans_view(v: Seq<(usize, usize)>) -> Seq<(int, int)> {
    v.map_values(|p: (usize, usize)| (p.0 as int, p.1 as int))
}

/// Each span starts no later than it ends, and no earlier than the one before
/// it ended.
pub open spec fn ordered_spans(spans: Seq<(int, int)>) -> bool {
    forall|k: int|
        0 <= k < spans.len() ==> {
            &&& 0 <= #[trigger] spans[k].0 <= spans[k].1
            &&& k > 0 ==> spans[k - 1].1 <= spans[k].0
        }
}

/// Where the span before the `k`-th one ends (0 for the first).
pub open spec fn end_before(spans: Seq<(int, int)>, k: int) -> int {
    if k == 0 {
        0
    } else {
        spans[k - 1].1
    }
}

/// Each span as its gap since the end of the previous span, and its width.
pub open spec fn relative_spans(spans: Seq<(int, int)>) -> Seq<(int, int)> {
    Seq::new(spans.len(), |k: int| (spans[k].0 - end_before(spans, k), spans[k].1 - spans[k].0))
}

/// Absolute spans rebuilt from `(gap, width)` pairs by a running sum: each
/// span starts its gap after the end of the one before it (after 0 for the
/// first) and is as wide as its width.
pub open spec fn absolute_spans(rel: Seq<(int, int)>) -> Seq<(int, int)>
    decreases rel.len(),
{
    if rel.len() == 0 {
        seq![]
    } else {
        let prev = absolute_spans(rel.drop_last());
        let base = if prev.len() == 0 {
            0
        } else {
            prev.last().1
        };
        prev.push((base + rel.last().0, base + rel.last().0 + rel.last().1))
    }
}

/// Rebuilding absolute spans by a running sum from the relative spans of
/// ordered spans gives those spans back.
pub proof fn lemma_relative_round_trip(spans: Seq<(int, int)>)
    requires
        ordered_spans(spans),
    ensures
        absolute_spans(relative_spans(spans)) == spans,
    decreases spans.len(),
{
    if spans.len() > 0 {
        let n = spans.len() - 1;
        let init = spans.drop_last();
        assert(relative_spans(spans).drop_last() =~= relative_spans(init));
        assert(ordered_spans(init)) by {
            assert forall|k: int| 0 <= k < init.len() implies 0 <= #[trigger] init[k].0 <= init[k].1
                && (k > 0 ==> init[k - 1].1 <= init[k].0) by {
                assert(init[k] == spans[k]);
                if k > 0 {
                    assert(init[k - 1] == spans[k - 1]);
                }
            }
        }
        lemma_relative_round_trip(init);
        if n > 0 {
            assert(init.last() == spans[n - 1]);
        }
        assert(absolute_spans(relative_spans(spans)) =~= spans);
    }
}

/// Returns each span as `(gap, width)`: the gap since the end of the
/// previous span (since 0 for the first), and the span's width.
pub fn spans_to_relative(spans: &[(usize, usize)]) -> (r: Vec<(usize, usize)>)
    requires
        ordered_spans(spans_view(spans@)),
    ensures
        spans_view(r@) == relative_spans(spans_view(spans@)),
{
    let ghost abs = spans_view(spans@);
    let mut result: Vec<(usize, usize)> = Vec::new();
    let mut prev: usize = 0;
    let mut k: usize = 0;
    while k < spans.len()
        invariant
            abs == spans_view(spans@),
            ordered_spans(abs),
            k <= spans.len(),
            prev == end_before(abs, k as int),
            spans_view(result@) == relative_spans(abs).take(k as int),
        decreases spans.len() - k,
    {
        let (left, right) = spans[k];
        assert(abs[k as int] == (left as int, right as int));
        let ghost before = result@;
        result.push((left - prev, right - left));
        assert(spans_view(result@) =~= spans_view(before).push(relative_spans(abs)[k as int]));
        assert(relative_spans(abs).take(k + 1) =~= relative_spans(abs).take(k as int).push(
            relative_spans(abs)[k as int],
        ));
        prev = right;
        k = k + 1;
    }
    assert(relative_spans(abs).take(k as int) =~= relative_spans(abs));
    result
}

/// The pieces of `s` between the leftmost non-overlapping occurrences of
/// `sep`, empty pieces included.
pub open spec fn literal_pieces(s: Seq<char>, sep: Seq<char>) -> Seq<Seq<char>> {
    let t = encode_utf8(s);
    split_spans(t, encode_utf8(sep)).map_values(|sp: (int, int)| decode_range(t, sp.0, sp.1))
}

/// The spans that the literal split of a text yields run in order from its
/// start to its end, each within the text and on character boundaries, and
/// the text between the bounds of each span is the corresponding piece of the
/// split.
pub proof fn lemma_split_spans_cover(s: Seq<char>, sep: Seq<char>)
    requires
        sep.len() > 0,
    ensures
        spans_run(split_spans(encode_utf8(s), encode_utf8(sep)), 0, encode_utf8(s).len() as int),
        ordered_spans(split_spans(encode_utf8(s), encode_utf8(sep))),
        on_boundaries(encode_utf8(s), split_spans(encode_utf8(s), encode_utf8(sep))),
        literal_pieces(s, sep) == split_spans(encode_utf8(s), encode_utf8(sep)).map_values(
            |sp: (int, int)| decode_range(encode_utf8(s), sp.0, sp.1),
        ),
{
    let t = encode_utf8(s);
    lemma_encoding_nonempty(sep);
    is_char_boundary_start_end_of_seq(t);
    lemma_split_spans_from_shape(t, encode_utf8(sep), 0, 0);
}

/// Encoding pieces joined with a separator gives their encodings joined with
/// the separator's encoding.
proof fn lemma_encode_join(pieces: Seq<Seq<char>>, sep: Seq<char>)
    ensures
        encode_utf8(join_with(pieces, sep)) == join_with(
            pieces.map_values(|c: Seq<char>| encode_utf8(c)),
            encode_utf8(sep),
        ),
    decreases pieces.len(),
{
    let enc = pieces.map_values(|c: Seq<char>| encode_utf8(c));
    if pieces.len() >= 2 {
        let rest = pieces.drop_first();
        lemma_encode_join(rest, sep);
        assert(enc.drop_first() =~= rest.map_values(|c: Seq<char>| encode_utf8(c)));
        lemma_encode_concat(pieces[0] + sep, join_with(rest, sep));
        lemma_encode_concat(pieces[0], sep);
    }
}

/// Joining the pieces of the literal split of a text with the separator gives
/// back the text, for every non-empty separator.
pub proof fn lemma_literal_round_trip(s: Seq<char>, sep: Seq<char>)
    requires
        sep.len() > 0,
    ensures
        join_with(literal_pieces(s, sep), sep) == s,
{
    let t = encode_utf8(s);
    let p = encode_utf8(sep);
    let sp = split_spans(t, p);
    let pieces = literal_pieces(s, sep);
    lemma_split_spans_cover(s, sep);
    lemma_split_spans_from_shape(t, p, 0, 0);
    assert(pieces.map_values(|c: Seq<char>| encode_utf8(c)) =~= span_bytes(t, sp)) by {
        assert forall|k: int| 0 <= k < sp.len() implies encode_utf8(pieces[k]) == t.subrange(
            sp[k].0,
            sp[k].1,
        ) by {
            lemma_range_valid(t, sp[k].0, sp[k].1);
            decode_utf8_encode_utf8(t.subrange(sp[k].0, sp[k].1));
        }
    }
    lemma_encode_join(pieces, sep);
    assert(t.subrange(0, t.len() as int) =~= t);
    encode_utf8_decode_utf8(join_with(pieces, sep));
}

/// The occurrences of `p` that the literal split of `t` splits at, as byte
/// spans.
pub open spec fn split_occurrences(t: Seq<u8>, p: Seq<u8>) -> Seq<(int, int)> {
    let sp = split_spans(t, p);
    Seq::new((sp.len() - 1) as nat, |k: int| (sp[k].1, sp[k].1 + p.len()))
}

/// Splitting around matches gives the literal split when the matches are the
/// occurrences of the separator that the literal split splits at.
pub proof fn lemma_gap_spans_agree_with_literal(t: Seq<u8>, p: Seq<u8>)
    requires
        p.len() > 0,
    ensures
        forall|k: int|
            0 <= k < split_occurrences(t, p).len() ==> occurs_at(
                t,
                p,
                #[trigger] split_occurrences(t, p)[k].0,
            ),
        gap_spans(t.len() as int, split_occurrences(t, p)) == split_spans(t, p),
{
    let sp = split_spans(t, p);
    let occ = split_occurrences(t, p);
    lemma_split_spans_from_shape(t, p, 0, 0);
    assert forall|k: int| 0 <= k < occ.len() implies occurs_at(t, p, #[trigger] occ[k].0) by {
        assert(sp[k + 1].0 == sp[k].1 + p.len());
    }
    assert forall|k: int| 0 <= k < sp.len() implies #[trigger] gap_spans(t.len() as int, occ)[k]
        == sp[k] by {
        if k > 0 {
            assert(sp[k].0 == sp[k - 1].1 + p.len());
        }
    }
    assert(gap_spans(t.len() as int, occ) =~= sp);
}

/// Returns the spans of the pieces of `s` between the leftmost
/// non-overlapping occurrences of `sep`, empty pieces included, as byte
/// offsets. Fails with `EmptySeparator` when `sep` is empty.
pub fn string_span_tokenize(s: &str, sep: &str) -> (r: Result<Vec<(usize, usize)>, TokenizeError>)
    ensures
        match r {
            Ok(spans) => sep@.len() > 0 && spans_view(spans@) == split_spans(
                s.spec_bytes(),
                sep.spec_bytes(),
            ),
            Err(e) => sep@.len() == 0 && e == TokenizeError::EmptySeparator,
        },
{
    if sep.is_empty() {
        return Err(TokenizeError::EmptySeparator);
    }
    let t = s.as_bytes();
    let p = sep.as_bytes();
    let n = t.len();
    let m = p.len();
    proof {
        lemma_encoding_nonempty(sep@);
    }
    let ghost whole = split_spans(t@, p@);
    let mut spans: Vec<(usize, usize)> = Vec::new();
    let mut left: usize = 0;
    let mut i: usize = 0;
    while m <= n && i <= n - m
        invariant
            n == t@.len(),
            m == p@.len(),
            m > 0,
            i <= n,
            whole == split_spans(t@, p@),
            spans_view(spans@) + split_spans_from(t@, p@, left as int, i as int) == whole,
        decreases n - i,
    {
        let ghost before = spans@;
        if occurs_at_exec(t, p, i) {
            spans.push((left, i));
            assert(spans_view(spans@) =~= spans_view(before).push((left as int, i as int)));
            i = i + m;
            left = i;
        } else {
            i = i + 1;
            assert(spans_view(spans@) =~= spans_view(before));
        }
        assert(spans_view(spans@) + split_spans_from(t@, p@, left as int, i as int) =~= whole);
    }
    let ghost before = spans@;
    spans.push((left, n));
    assert(spans_view(spans@) =~= spans_view(before).push((left as int, n as int)));
    assert(spans_view(spans@) =~= whole);
    Ok(spans)
}

/// Returns the spans of the text of `s` around the `matches` of a pattern:
/// for each match the gap between the previous match (or the start) and it,
/// then the rest after the last match.
pub fn pattern_span_tokenize(s: &str, matches: &[(usize, usize)]) -> (r: Vec<(usize, usize)>)
    ensures
        spans_view(r@) == gap_spans(s.spec_bytes().len() as int, spans_view(matches@)),
{
    let ghost ms = spans_view(matches@);
    let ghost whole = gap_spans(s.spec_bytes().len() as int, ms);
    let mut spans: Vec<(usize, usize)> = Vec::new();
    let mut left: usize = 0;
    let mut k: usize = 0;
    while k < matches.len()
        invariant
            ms == spans_view(matches@),
            whole == gap_spans(s.spec_bytes().len() as int, ms),
            k <= ms.len(),
            left == whole[k as int].0,
            spans_view(spans@) == whole.take(k as int),
        decreases matches.len() - k,
    {
        let (start, end) = matches[k];
        assert(ms[k as int] == (start as int, end as int));
        let ghost before = spans@;
        spans.push((left, start));
        assert(spans_view(spans@) =~= spans_view(before).push(whole[k as int]));
        assert(whole.take(k + 1) =~= whole.take(k as int).push(whole[k as int]));
        left = end;
        k = k + 1;
    }
    let ghost before = spans@;
    spans.push((left, s.as_bytes().len()));
    assert(spans_view(spans@) =~= spans_view(before).push(whole[k as int]));
    assert(spans_view(spans@) =~= whole);
    spans
}

/// Returns the spans of the text of `s` around the successive matches of
/// `regexp`. Fails with `EmptySeparator` when the pattern is empty.
pub fn regexp_span_tokenize(s: &str, regexp: &Pattern) -> (r: Result<
    Vec<(usize, usize)>,
    TokenizeError,
>)
    ensures
        match r {
            Ok(spans) => regexp@.len() > 0 && spans_view(spans@) == gap_spans(
                s.spec_bytes().len() as int,
                regex_matches(regexp@, s@),
            ),
            Err(e) => regexp@.len() == 0 && e == TokenizeError::EmptySeparator,
        },
{
    if regexp.as_str().is_empty() {
        return Err(TokenizeError::EmptySeparator);
    }
    let matches = regexp.find_spans(s);
    Ok(pattern_span_tokenize(s, &matches))
}

} // verus!
