use vstd::prelude::*;
use vstd::string::StringSliceAdditionalSpecFns;
use vstd::utf8::*;

verus! {

broadcast use {encode_utf8_valid_utf8, encode_utf8_decode_utf8};

/// `p` occurs in `t` at byte offset `i`.
pub open spec fn occurs_at(t: Seq<u8>, p: Seq<u8>, i: int) -> bool {
    0 <= i && i + p.len() <= t.len() && t.subrange(i, i + p.len()) == p
}

/// The text that the bytes `t[a..b]` encode.
pub open spec fn decode_range(t: Seq<u8>, a: int, b: int) -> Seq<char> {
    decode_utf8(t.subrange(a, b))
}

/// A non-empty valid encoding never starts with a continuation byte.
proof fn lemma_first_byte_leads(u: Seq<u8>)
    requires
        valid_utf8(u),
        u.len() > 0,
    ensures
        !is_continuation_byte(u[0]),
{
}

/// When a valid encoding `u` starts with a valid encoding `p`, the byte after
/// `p` in `u` is no continuation byte.
proof fn lemma_prefix_ends_on_boundary(u: Seq<u8>, p: Seq<u8>)
    requires
        valid_utf8(u),
        valid_utf8(p),
        p.len() < u.len(),
        u.subrange(0, p.len() as int) == p,
    ensures
        !is_continuation_byte(u[p.len() as int]),
    decreases p.len(),
{
    if p.len() == 0 {
        lemma_first_byte_leads(u);
    } else {
        assert(u[0] == p[0]);
        let w = length_of_first_scalar(p);
        assert(w == length_of_first_scalar(u));
        let pu = pop_first_scalar(u);
        let pp = pop_first_scalar(p);
        assert(pu.subrange(0, pp.len() as int) =~= pp) by {
            assert forall|j: int| 0 <= j < pp.len() implies pu[j] == pp[j] by {
                assert(pu[j] == u[j + w]);
                assert(pp[j] == p[j + w]);
                assert(u.subrange(0, p.len() as int)[j + w] == u[j + w]);
            }
        }
        lemma_prefix_ends_on_boundary(pu, pp);
        assert(pu[pp.len() as int] == u[p.len() as int]);
    }
}

/// An occurrence of a valid encoding in a valid encoding starts and ends on
/// character boundaries.
pub proof fn lemma_occurrence_on_boundaries(t: Seq<u8>, p: Seq<u8>, i: int)
    requires
        valid_utf8(t),
        valid_utf8(p),
        p.len() > 0,
        occurs_at(t, p, i),
    ensures
        is_char_boundary(t, i),
        is_char_boundary(t, i + p.len()),
{
    assert(t[i] == t.subrange(i, i + p.len())[0]);
    lemma_first_byte_leads(p);
    is_char_boundary_iff_not_is_continuation_byte(t, i);
    if i + p.len() == t.len() {
        is_char_boundary_start_end_of_seq(t);
    } else {
        let u = t.subrange(i, t.len() as int);
        valid_utf8_split(t, i);
        assert(u.subrange(0, p.len() as int) =~= p);
        lemma_prefix_ends_on_boundary(u, p);
        assert(u[p.len() as int] == t[i + p.len()]);
        is_char_boundary_iff_not_is_continuation_byte(t, i + p.len());
    }
}

/// A character boundary of `t` at or after `a` is one of `t[a..]` too.
proof fn lemma_boundary_in_suffix(t: Seq<u8>, a: int, b: int)
    requires
        valid_utf8(t),
        is_char_boundary(t, a),
        is_char_boundary(t, b),
        0 <= a <= b <= t.len(),
    ensures
        is_char_boundary(t.subrange(a, t.len() as int), b - a),
{
    let u = t.subrange(a, t.len() as int);
    valid_utf8_split(t, a);
    if b == t.len() {
        is_char_boundary_start_end_of_seq(u);
    } else {
        is_char_boundary_iff_not_is_continuation_byte(t, b);
        assert(u[b - a] == t[b]);
        is_char_boundary_iff_not_is_continuation_byte(u, b - a);
    }
}

/// The bytes between two character boundaries of a valid encoding are a valid
/// encoding.
pub proof fn lemma_range_valid(t: Seq<u8>, a: int, b: int)
    requires
        valid_utf8(t),
        is_char_boundary(t, a),
        is_char_boundary(t, b),
        0 <= a <= b <= t.len(),
    ensures
        valid_utf8(t.subrange(a, b)),
{
    let u = t.subrange(a, t.len() as int);
    valid_utf8_split(t, a);
    lemma_boundary_in_suffix(t, a, b);
    valid_utf8_split(u, b - a);
    assert(u.subrange(0, b - a) =~= t.subrange(a, b));
}

/// Between three character boundaries of a valid encoding, the text of the
/// whole range is the text of its two parts one after the other.
pub proof fn lemma_decode_range_split(t: Seq<u8>, a: int, b: int, c: int)
    requires
        valid_utf8(t),
        0 <= a <= b <= c <= t.len(),
        is_char_boundary(t, a),
        is_char_boundary(t, b),
        is_char_boundary(t, c),
    ensures
        decode_range(t, a, c) == decode_range(t, a, b) + decode_range(t, b, c),
{
    let x = t.subrange(a, c);
    lemma_range_valid(t, a, c);
    if b == c {
        is_char_boundary_start_end_of_seq(x);
    } else {
        is_char_boundary_iff_not_is_continuation_byte(t, b);
        assert(x[b - a] == t[b]);
        is_char_boundary_iff_not_is_continuation_byte(x, b - a);
    }
    decode_utf8_split(x, b - a);
    assert(x.subrange(0, b - a) =~= t.subrange(a, b));
    assert(x.subrange(b - a, x.len() as int) =~= t.subrange(b, c));
}

/// The encoding of two texts one after the other is their encodings one after
/// the other.
pub proof fn lemma_encode_concat(a: Seq<char>, b: Seq<char>)
    ensures
        encode_utf8(a + b) == encode_utf8(a) + encode_utf8(b),
    decreases a.len(),
{
    if a.len() == 0 {
        assert(a + b =~= b);
        assert(encode_utf8(a) + encode_utf8(b) =~= encode_utf8(b));
    } else {
        assert((a + b).drop_first() =~= a.drop_first() + b);
        lemma_encode_concat(a.drop_first(), b);
        assert(encode_utf8(a + b) =~= encode_utf8(a) + encode_utf8(b));
    }
}

/// The encoding of a text's first `b` characters, split after its first `a`
/// characters, ends on character boundaries, and the bytes between the two
/// lengths encode the characters between `a` and `b`.
pub proof fn lemma_encode_take(cs: Seq<char>, a: int, b: int)
    requires
        0 <= a <= b <= cs.len(),
    ensures
        encode_utf8(cs.take(a)).len() <= encode_utf8(cs.take(b)).len() <= encode_utf8(cs).len(),
        is_char_boundary(encode_utf8(cs), encode_utf8(cs.take(a)).len() as int),
        is_char_boundary(encode_utf8(cs), encode_utf8(cs.take(b)).len() as int),
        encode_utf8(cs).subrange(
            encode_utf8(cs.take(a)).len() as int,
            encode_utf8(cs.take(b)).len() as int,
        ) == encode_utf8(cs.subrange(a, b)),
{
    assert(cs =~= cs.take(a) + cs.subrange(a, b) + cs.skip(b));
    assert(cs.take(b) =~= cs.take(a) + cs.subrange(a, b));
    lemma_encode_concat(cs.take(a), cs.subrange(a, b));
    lemma_encode_concat(cs.take(a) + cs.subrange(a, b), cs.skip(b));
    lemma_prefix_boundary(cs, a);
    lemma_prefix_boundary(cs, b);
    let e = encode_utf8(cs);
    let ea = encode_utf8(cs.take(a));
    let eab = encode_utf8(cs.subrange(a, b));
    assert(e.subrange(ea.len() as int, (ea.len() + eab.len()) as int) =~= eab);
}

/// The encoding of a text's first `i` characters ends on a character boundary
/// of the text's encoding.
pub proof fn lemma_prefix_boundary(cs: Seq<char>, i: int)
    requires
        0 <= i <= cs.len(),
    ensures
        is_char_boundary(encode_utf8(cs), encode_utf8(cs.take(i)).len() as int),
    decreases i,
{
    let e = encode_utf8(cs);
    if i == 0 {
        assert(cs.take(0) =~= Seq::<char>::empty());
    } else {
        encode_utf8_first_scalar(cs);
        assert(pop_first_scalar(e) =~= encode_utf8(cs.drop_first()));
        assert(cs.take(i).drop_first() =~= cs.drop_first().take(i - 1));
        assert(cs.take(i)[0] == cs[0]);
        lemma_prefix_boundary(cs.drop_first(), i - 1);
        assert(cs =~= cs.take(i) + cs.skip(i));
        lemma_encode_concat(cs.take(i), cs.skip(i));
    }
}

/// The characters with Unicode's White_Space property.
pub open spec fn white_space(c: char) -> bool {
    let u = c as u32;
    ||| 0x09 <= u <= 0x0d
    ||| u == 0x20 || u == 0x85 || u == 0xa0 || u == 0x1680
    ||| 0x2000 <= u <= 0x200a
    ||| u == 0x2028 || u == 0x2029 || u == 0x202f || u == 0x205f || u == 0x3000
}

/// Whether `c` has Unicode's White_Space property.
pub fn is_whitespace(c: char) -> (r: bool)
    ensures
        r == white_space(c),
{
    let u = c as u32;
    (0x09 <= u && u <= 0x0d) || u == 0x20 || u == 0x85 || u == 0xa0 || u == 0x1680 || (0x2000 <= u
        && u <= 0x200a) || u == 0x2028 || u == 0x2029 || u == 0x202f || u == 0x205f || u == 0x3000
}

/// The number of bytes that UTF-8 takes for `c`.
pub(crate) fn char_width(c: char) -> (r: usize)
    ensures
        r == encode_scalar(c as u32).len(),
{
    proof {
        char_is_scalar(c);
    }
    let u = c as u32;
    if u <= 0x7f {
        1
    } else if u <= 0x7ff {
        2
    } else if u <= 0xffff {
        3
    } else {
        4
    }
}

/// The part of `s` between the byte offsets `a` and `b`.
pub(crate) fn substr<'a>(s: &'a str, a: usize, b: usize) -> (r: &'a str)
    requires
        a <= b <= s.spec_bytes().len(),
        is_char_boundary(s.spec_bytes(), a as int),
        is_char_boundary(s.spec_bytes(), b as int),
    ensures
        r.spec_bytes() == s.spec_bytes().subrange(a as int, b as int),
        r@ == decode_range(s.spec_bytes(), a as int, b as int),
{
    proof {
        lemma_boundary_in_suffix(s.spec_bytes(), a as int, b as int);
    }
    let (_, rest) = s.split_at(a);
    let (piece, _) = rest.split_at(b - a);
    assert(piece.spec_bytes() =~= s.spec_bytes().subrange(a as int, b as int));
    piece
}

} // verus!
