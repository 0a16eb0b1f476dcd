//! Executable UTF-8 helpers and lemmas connecting byte-level scans to
//! vstd's UTF-8 theory (`vstd::utf8`).
use vstd::prelude::*;

verus! {

use vstd::utf8::*;

/// True when `b` is a UTF-8 continuation byte (`10xxxxxx`).
pub fn cont_byte(b: u8) -> (r: bool)
    ensures
        r == is_continuation_byte(b),
{
    0x80 <= b && b <= 0xbf
}

/// Byte width of the scalar encoding that starts with leading byte `b`.
pub fn width_of_leading(b: u8) -> (r: usize)
    requires
        !is_continuation_byte(b),
    ensures
        1 <= r <= 4,
        is_leading_byte_width_1(b) ==> r == 1,
        is_leading_byte_width_2(b) ==> r == 2,
        is_leading_byte_width_3(b) ==> r == 3,
        is_leading_byte_width_4(b) ==> r == 4,
{
    if b < 0x80 {
        1
    } else if b < 0xe0 {
        2
    } else if b < 0xf0 {
        3
    } else {
        4
    }
}

/// Computes the UTF-8 encoding of `c` as a byte vector, matching the
/// mathematical encoding `encode_scalar(c as u32)`.
pub fn encode_char_vec(c: char) -> (r: Vec<u8>)
    ensures
        r@ == encode_scalar(c as u32),
        1 <= r@.len() <= 4,
{
    proof {
        char_is_scalar(c);
    }
    let v = c as u32;
    let mut r: Vec<u8> = Vec::new();
    if v < 0x80 {
        r.push((v & 0x7f) as u8);
        proof {
            assert(r@ =~= encode_scalar(c as u32));
        }
    } else if v < 0x800 {
        r.push(0xc0u8 | ((v >> 6) & 0x1f) as u8);
        r.push(0x80u8 | (v & 0x3f) as u8);
        proof {
            assert(r@ =~= encode_scalar(c as u32));
        }
    } else if v < 0x10000 {
        r.push(0xe0u8 | ((v >> 12) & 0x0f) as u8);
        r.push(0x80u8 | ((v >> 6) & 0x3f) as u8);
        r.push(0x80u8 | (v & 0x3f) as u8);
        proof {
            assert(r@ =~= encode_scalar(c as u32));
        }
    } else {
        r.push(0xf0u8 | ((v >> 18) & 0x07) as u8);
        r.push(0x80u8 | ((v >> 12) & 0x3f) as u8);
        r.push(0x80u8 | ((v >> 6) & 0x3f) as u8);
        r.push(0x80u8 | (v & 0x3f) as u8);
        proof {
            assert(r@ =~= encode_scalar(c as u32));
        }
    }
    r
}

/// The encoding of a pushed character extends the encoding of the sequence.
pub proof fn lemma_encode_utf8_push(cs: Seq<char>, c: char)
    ensures
        encode_utf8(cs.push(c)) == encode_utf8(cs) + encode_scalar(c as u32),
    decreases cs.len(),
{
    let p = cs.push(c);
    assert(p.len() == cs.len() + 1);
    if cs.len() == 0 {
        assert(p.drop_first() =~= Seq::<char>::empty());
        assert(p[0] == c);
        assert(encode_utf8(p) == encode_scalar(c as u32) + encode_utf8(Seq::<char>::empty()));
        assert(encode_utf8(p) =~= encode_utf8(cs) + encode_scalar(c as u32));
    } else {
        assert(p.drop_first() =~= cs.drop_first().push(c));
        lemma_encode_utf8_push(cs.drop_first(), c);
        assert(p[0] == cs[0]);
        assert(encode_utf8(p) == encode_scalar(cs[0] as u32) + encode_utf8(p.drop_first()));
        assert(encode_utf8(p.drop_first()) == encode_utf8(cs.drop_first()) + encode_scalar(
            c as u32,
        ));
        assert(encode_utf8(p) =~= encode_utf8(cs) + encode_scalar(c as u32));
    }
}

/// The encoding of a single character is the encoding of its scalar.
pub proof fn lemma_encode_utf8_singleton(c: char)
    ensures
        encode_utf8(seq![c]) == encode_scalar(c as u32),
{
    assert(seq![c] =~= Seq::<char>::empty().push(c));
    lemma_encode_utf8_push(Seq::<char>::empty(), c);
    assert(encode_utf8(Seq::<char>::empty()) + encode_scalar(c as u32) =~= encode_scalar(
        c as u32,
    ));
}

/// A valid, non-empty UTF-8 sequence starts with a leading (non-continuation) byte.
pub proof fn lemma_valid_first_byte_not_cont(s: Seq<u8>)
    requires
        valid_utf8(s),
        s.len() > 0,
    ensures
        !is_continuation_byte(s[0]),
{
    assert(valid_first_scalar(s));
}

/// Facts about the scalar that starts at character boundary `b` of a valid
/// UTF-8 sequence: its width, that the following position is again a
/// boundary, and that its interior bytes are continuation bytes.
pub proof fn lemma_step_forward(s: Seq<u8>, b: int)
    requires
        valid_utf8(s),
        is_char_boundary(s, b),
        0 <= b < s.len(),
    ensures
        ({
            let l = length_of_first_scalar(s.subrange(b, s.len() as int));
            &&& 1 <= l <= 4
            &&& b + l <= s.len()
            &&& is_char_boundary(s, b + l)
            &&& !is_continuation_byte(s[b])
            &&& forall|j: int| b < j < b + l ==> is_continuation_byte(s[j])
            &&& forall|j: int| b < j < b + l ==> !is_char_boundary(s, j)
        }),
{
    broadcast use group_utf8_lib;

    let suf = s.subrange(b, s.len() as int);
    assert(valid_utf8(suf));
    assert(valid_first_scalar(suf));
    let l = length_of_first_scalar(suf);
    assert(1 <= l <= 4 && l <= suf.len());
    assert(forall|j: int| b < j < b + l ==> is_continuation_byte(s[j])) by {
        assert forall|j: int| b < j < b + l implies is_continuation_byte(s[j]) by {
            assert(s[j] == suf[j - b]);
        }
    }
    lemma_valid_first_byte_not_cont(suf);
    assert(s[b] == suf[0]);
    // the next position is a boundary
    if b + l == s.len() {
        assert(is_char_boundary(s, b + l));
    } else {
        let rest = pop_first_scalar(suf);
        assert(rest =~= s.subrange(b + l, s.len() as int));
        assert(valid_utf8(rest));
        lemma_valid_first_byte_not_cont(rest);
        assert(s[b + l] == rest[0]);
        assert(is_char_boundary(s, b + l));
    }
}

/// Facts about the scalar that ends at the end of a valid UTF-8 sequence:
/// `length_of_last_scalar` names its true width, the position where it
/// starts is a boundary, and its interior bytes are continuation bytes.
pub proof fn lemma_last_scalar(s: Seq<u8>)
    requires
        valid_utf8(s),
        s.len() > 0,
    ensures
        ({
            let l = length_of_last_scalar(s);
            &&& 1 <= l <= 4
            &&& l <= s.len()
            &&& is_char_boundary(s, s.len() - l)
            &&& !is_continuation_byte(s[s.len() - l])
            &&& forall|j: int| s.len() - l < j < s.len() ==> is_continuation_byte(s[j])
            &&& forall|j: int| s.len() - l < j < s.len() ==> !is_char_boundary(s, j)
            &&& length_of_first_scalar(s.subrange(s.len() - l, s.len() as int)) == l
            &&& valid_utf8(s.subrange(0, s.len() - l))
            &&& valid_utf8(s.subrange(s.len() - l, s.len() as int))
        }),
    decreases s.len(),
{
    broadcast use group_utf8_lib;

    let n = s.len() as int;
    let l1 = length_of_first_scalar(s);
    let rest = pop_first_scalar(s);
    if rest.len() == 0 {
        // `s` is the encoding of exactly one scalar
        lemma_step_forward(s, 0);
        assert(l1 == n);
        assert(forall|j: int| 0 < j < n ==> is_continuation_byte(s[j]));
        assert(!is_continuation_byte(s[0]));
        // unfold length_of_last_scalar by cases on n
        assert(length_of_last_scalar(s) == n);
        assert(s.subrange(0, 0) =~= Seq::<u8>::empty());
        assert(s.subrange(0, n) =~= s);
    } else {
        lemma_last_scalar(rest);
        let lr = length_of_last_scalar(rest);
        let m = rest.len() as int;
        // positions of rest map into s shifted by l1
        assert(forall|j: int| 0 <= j < m ==> rest[j] == s[j + l1]);
        // the last-scalar scan in s sees the same bytes as in rest
        assert(length_of_last_scalar(s) == lr);
        let start = n - lr;
        assert(start == l1 + (m - lr));
        // boundary transfer: is_char_boundary(s, i + l1) <==> is_char_boundary(rest, i)
        assert(is_char_boundary(s, start)) by {
            assert(is_char_boundary(rest, m - lr));
            assert(!is_continuation_byte(rest[m - lr]));
            assert(s[start] == rest[m - lr]);
        }
        assert(forall|j: int| start < j < n ==> is_continuation_byte(s[j])) by {
            assert forall|j: int| start < j < n implies is_continuation_byte(s[j]) by {
                assert(s[j] == rest[j - l1]);
            }
        }
        assert(s.subrange(start, n) =~= rest.subrange(m - lr, m));
        assert(valid_utf8(s.subrange(0, start)));
    }
}

/// A UTF-8 encoding has at least one byte per character.
pub proof fn lemma_encode_utf8_len_ge(cs: Seq<char>)
    ensures
        encode_utf8(cs).len() >= cs.len(),
    decreases cs.len(),
{
    if cs.len() == 0 {
    } else {
        char_is_scalar(cs[0]);
        lemma_encode_utf8_len_ge(cs.drop_first());
    }
}

/// The last scalar of a concatenation is the last scalar of its non-empty
/// right part.
pub proof fn lemma_last_scalar_concat(a: Seq<u8>, b: Seq<u8>)
    requires
        valid_utf8(a),
        valid_utf8(b),
        b.len() > 0,
    ensures
        length_of_last_scalar(a + b) == length_of_last_scalar(b),
{
    lemma_last_scalar(b);
    let c = a + b;
    let n = c.len() as int;
    let m = b.len() as int;
    let l = length_of_last_scalar(b);
    assert(forall|j: int| 0 <= j < m ==> c[a.len() + j] == b[j]);
    assert(c[n - 1] == b[m - 1]);
    if l >= 2 {
        assert(c[n - 2] == b[m - 2]);
    }
    if l >= 3 {
        assert(c[n - 3] == b[m - 3]);
    }
    if l >= 4 {
        assert(c[n - 4] == b[m - 4]);
    }
    assert(!is_continuation_byte(b[m - l]));
    assert(forall|j: int| m - l < j < m ==> is_continuation_byte(b[j]));
}

/// The first scalar of a concatenation is the first scalar of its non-empty
/// left part.
pub proof fn lemma_first_scalar_concat(b: Seq<u8>, y: Seq<u8>)
    requires
        valid_utf8(b),
        b.len() > 0,
    ensures
        length_of_first_scalar(b + y) == length_of_first_scalar(b),
        length_of_first_scalar(b) <= b.len(),
{
    assert(valid_first_scalar(b));
    let c = b + y;
    assert(c[0] == b[0]);
}

/// Smallest character boundary at or after `i` (clamped to the sequence end).
pub open spec fn next_bnd(s: Seq<u8>, i: int) -> int
    decreases s.len() - i,
{
    if i >= s.len() {
        s.len() as int
    } else if is_char_boundary(s, i) {
        i
    } else {
        next_bnd(s, i + 1)
    }
}

/// Largest character boundary at or before `i` (clamped to 0).
pub open spec fn prev_bnd(s: Seq<u8>, i: int) -> int
    decreases i,
{
    if i <= 0 {
        0
    } else if is_char_boundary(s, i) {
        i
    } else {
        prev_bnd(s, i - 1)
    }
}

/// If every position in `[t, b)` is a non-boundary and `b` is a boundary,
/// the next boundary from `t` is `b`.
pub proof fn lemma_next_bnd_reaches(s: Seq<u8>, t: int, b: int)
    requires
        0 <= t <= b <= s.len(),
        b == s.len() || is_char_boundary(s, b),
        forall|j: int| t <= j < b ==> !is_char_boundary(s, j),
    ensures
        next_bnd(s, t) == b,
    decreases b - t,
{
    if t == b {
        if b == s.len() {
        } else {
            assert(next_bnd(s, t) == b);
        }
    } else {
        lemma_next_bnd_reaches(s, t + 1, b);
    }
}

/// If every position in `(b, t]` is a non-boundary and `b` is a boundary,
/// the previous boundary from `t` is `b`.
pub proof fn lemma_prev_bnd_reaches(s: Seq<u8>, t: int, b: int)
    requires
        0 <= b <= t,
        b == 0 || is_char_boundary(s, b),
        forall|j: int| b < j <= t ==> !is_char_boundary(s, j),
    ensures
        prev_bnd(s, t) == b,
    decreases t - b,
{
    if t == b {
    } else {
        lemma_prev_bnd_reaches(s, t - 1, b);
    }
}

/// `prev_bnd` stays between 0 and its argument.
pub proof fn lemma_prev_bnd_bounds(s: Seq<u8>, i: int)
    requires
        0 <= i,
    ensures
        0 <= prev_bnd(s, i) <= i,
    decreases i,
{
    if i <= 0 {
    } else if is_char_boundary(s, i) {
    } else {
        lemma_prev_bnd_bounds(s, i - 1);
    }
}

/// `next_bnd` of a boundary position is itself.
pub proof fn lemma_next_bnd_at_boundary(s: Seq<u8>, b: int)
    requires
        0 <= b <= s.len(),
        b == s.len() || is_char_boundary(s, b),
    ensures
        next_bnd(s, b) == b,
{
}

/// A byte below 0x80 in a valid UTF-8 sequence always sits on a character
/// boundary, and the position after it is a boundary as well.
pub proof fn lemma_ascii_byte_boundary(s: Seq<u8>, i: int)
    requires
        valid_utf8(s),
        0 <= i < s.len(),
        s[i] < 0x80,
    ensures
        is_char_boundary(s, i),
        is_char_boundary(s, i + 1),
{
    broadcast use group_utf8_lib;

    assert(!is_continuation_byte(s[i]));
    assert(is_char_boundary(s, i));
    lemma_step_forward(s, i);
    assert(is_leading_byte_width_1(s[i]));
    let suf = s.subrange(i, s.len() as int);
    assert(suf[0] == s[i]);
    assert(length_of_first_scalar(suf) == 1);
}

} // verus!
