//! The gap buffer: text stored as one byte vector with a movable empty gap
//! at the cursor. The logical content is the bytes before the gap followed
//! by the bytes after it; it is always valid UTF-8 and the gap always sits
//! on a character boundary.
use vstd::prelude::*;

verus! {

use vstd::utf8::*;
use vstd::slice::{slice_subrange, slice_to_vec};
use vstd::pervasive::VecAdditionalExecFns;
use crate::codec::{
    cont_byte,
    width_of_leading,
    encode_char_vec,
    lemma_encode_utf8_singleton,
    lemma_valid_first_byte_not_cont,
    lemma_step_forward,
    lemma_last_scalar,
    lemma_next_bnd_reaches,
    lemma_prev_bnd_reaches,
    lemma_next_bnd_at_boundary,
    lemma_prev_bnd_bounds,
    next_bnd,
    prev_bnd,
};

broadcast use vstd::utf8::group_utf8_lib;

pub const DEFAULT_GAP_LEN: usize = 1024;

pub struct Buffer {
    /// Insertion pointer: the logical cursor offset, and the index of the
    /// first slot of the gap.
    pub iptr: usize,
    /// Number of free slots in the gap, starting at `iptr`.
    pub gap_len: usize,
    /// Backing storage; `[iptr, iptr + gap_len)` is the gap.
    pub bytes: Vec<u8>,
}

impl Buffer {
    /// The logical document: bytes before the gap followed by bytes after it.
    pub open spec fn content(&self) -> Seq<u8> {
        self.bytes@.subrange(0, self.iptr as int) + self.bytes@.subrange(
            self.iptr + self.gap_len,
            self.bytes@.len() as int,
        )
    }

    /// The document as a character sequence.
    pub open spec fn text(&self) -> Seq<char> {
        decode_utf8(self.content())
    }

    /// Well-formedness: the gap fits in storage, the logical content is
    /// valid UTF-8, and the cursor sits on a character boundary.
    pub open spec fn wf(&self) -> bool {
        &&& self.iptr + self.gap_len <= self.bytes@.len()
        &&& self.bytes@.len() >= DEFAULT_GAP_LEN
        &&& valid_utf8(self.content())
        &&& is_char_boundary(self.content(), self.iptr as int)
    }

    /// Creates a buffer holding `s`, with the gap placed at offset 0.
    pub fn init(s: String) -> (r: Buffer)
        ensures
            r.wf(),
            r.content() == encode_utf8(s@),
            r.iptr == 0,
            r.gap_len == DEFAULT_GAP_LEN,
            r.bytes@.len() == DEFAULT_GAP_LEN + s@.len() as int + (encode_utf8(s@).len()
                - s@.len()),
    {
        let mut buffer: Vec<u8> = vec![0u8; DEFAULT_GAP_LEN];
        let mut tail = s.as_str().as_bytes_vec();
        buffer.append(&mut tail);
        let r = Buffer { iptr: 0, gap_len: DEFAULT_GAP_LEN, bytes: buffer };
        proof {
            assert(r.content() =~= encode_utf8(s@));
        }
        r
    }

    /// The bytes before the gap.
    pub fn before_insertion_point(&self) -> (r: &[u8])
        requires
            self.iptr + self.gap_len <= self.bytes@.len(),
        ensures
            r@ == self.content().subrange(0, self.iptr as int),
    {
        let r = slice_subrange(self.bytes.as_slice(), 0, self.iptr);
        proof {
            assert(r@ =~= self.content().subrange(0, self.iptr as int));
        }
        r
    }

    /// The bytes after the gap.
    pub fn after_insertion_point(&self) -> (r: &[u8])
        requires
            self.iptr + self.gap_len <= self.bytes@.len(),
        ensures
            r@ == self.content().subrange(self.iptr as int, self.content().len() as int),
    {
        let n = self.bytes.len();
        let r = slice_subrange(self.bytes.as_slice(), self.iptr + self.gap_len, n);
        proof {
            assert(r@ =~= self.content().subrange(self.iptr as int, self.content().len() as int));
        }
        r
    }

    /// The logical content, copied out as one vector.
    pub fn content_vec(&self) -> (r: Vec<u8>)
        requires
            self.iptr + self.gap_len <= self.bytes@.len(),
        ensures
            r@ == self.content(),
    {
        let mut v = slice_to_vec(self.before_insertion_point());
        let mut tail = slice_to_vec(self.after_insertion_point());
        v.append(&mut tail);
        proof {
            assert(v@ =~= self.content());
        }
        v
    }

    /// The document as a `String`.
    pub fn to_string(&self) -> (r: String)
        requires
            self.wf(),
        ensures
            r@ == self.text(),
    {
        let v = self.content_vec();
        string_from_valid_utf8(v)
    }

    /// Width of the last character before the cursor.
    fn last_len(&self) -> (l: usize)
        requires
            self.wf(),
            self.iptr > 0,
        ensures
            l == length_of_last_scalar(self.content().subrange(0, self.iptr as int)),
            1 <= l <= self.iptr,
    {
        let ghost s = self.content();
        let ghost p = s.subrange(0, self.iptr as int);
        proof {
            assert(valid_utf8(p));
            lemma_last_scalar(p);
            assert(forall|k: int| 0 <= k < self.iptr ==> p[k] == self.bytes@[k]);
        }
        if !cont_byte(self.bytes[self.iptr - 1]) {
            1
        } else if !cont_byte(self.bytes[self.iptr - 2]) {
            2
        } else if !cont_byte(self.bytes[self.iptr - 3]) {
            3
        } else {
            4
        }
    }

    /// Moves exactly one codepoint from just after the gap to just before it.
    /// No-op at the end of the document.
    pub fn move_ptr_forward(&mut self)
        requires
            old(self).wf(),
        ensures
            final(self).wf(),
            final(self).content() == old(self).content(),
            final(self).gap_len == old(self).gap_len,
            final(self).bytes@.len() == old(self).bytes@.len(),
            final(self).iptr as int == fwd_dest(old(self).content(), old(self).iptr as int),
    {
        let n = self.bytes.len();
        let i = self.iptr + self.gap_len;
        if i == n {
            return ;
        }
        let ghost s = self.content();
        let ghost b0 = self.bytes@;
        let ghost p0 = self.iptr as int;
        proof {
            assert(s.len() == n - self.gap_len);
            assert(p0 < s.len());
            lemma_step_forward(s, p0);
            assert(s[p0] == self.bytes@[i as int]);
        }
        let b = self.bytes[i];
        proof {
            valid_utf8_split(s, p0);
            let suf = s.subrange(p0, s.len() as int);
            assert(valid_utf8(suf));
            assert(valid_first_scalar(suf));
            assert(suf[0] == b);
            assert(!is_continuation_byte(b));
        }
        let l = width_of_leading(b);
        proof {
            let suf = s.subrange(p0, s.len() as int);
            assert(valid_first_scalar(suf));
            assert(suf[0] == b);
            assert(l == length_of_first_scalar(suf));
            assert(p0 + l <= s.len());
            assert(s.len() == self.bytes@.len() - self.gap_len);
        }
        let mut j: usize = 0;
        while j < l
            invariant
                0 <= j <= l,
                self.iptr == old(self).iptr,
                self.gap_len == old(self).gap_len,
                i == self.iptr + self.gap_len,
                self.bytes@.len() == b0.len(),
                b0.len() == n,
                i + l <= n,
                1 <= l <= 4,
                forall|k: int|
                    (0 <= k < self.iptr || self.iptr + j <= k < self.bytes@.len())
                        ==> #[trigger] self.bytes@[k] == b0[k],
                forall|k: int|
                    self.iptr <= k < self.iptr + j ==> #[trigger] self.bytes@[k] == b0[k
                        + self.gap_len],
            decreases l - j,
        {
            let v = self.bytes[i + j];
            self.bytes.set(self.iptr + j, v);
            j += 1;
        }
        self.iptr = self.iptr + l;
        proof {
            assert(forall|k: int| p0 <= k < p0 + l ==> #[trigger] s[k] == b0[k + self.gap_len]);
            assert(self.content() =~= s);
            assert(self.iptr as int == fwd_dest(s, p0));
        }
    }

    /// Moves exactly one codepoint from just before the gap to just after it.
    /// No-op at the start of the document.
    pub fn move_ptr_backward(&mut self)
        requires
            old(self).wf(),
        ensures
            final(self).wf(),
            final(self).content() == old(self).content(),
            final(self).gap_len == old(self).gap_len,
            final(self).bytes@.len() == old(self).bytes@.len(),
            final(self).iptr as int == back_dest(old(self).content(), old(self).iptr as int),
    {
        if self.iptr == 0 {
            return ;
        }
        let n = self.bytes.len();
        let ghost s = self.content();
        let ghost b0 = self.bytes@;
        let ghost p0 = self.iptr as int;
        let ghost pre = s.subrange(0, p0);
        let l = self.last_len();
        proof {
            lemma_last_scalar(pre);
            assert(forall|k: int| 0 <= k < p0 ==> s[k] == b0[k]);
        }
        let mut j: usize = 0;
        while j < l
            invariant
                0 <= j <= l,
                1 <= l <= self.iptr,
                self.iptr == old(self).iptr,
                self.gap_len == old(self).gap_len,
                self.iptr + self.gap_len <= self.bytes@.len(),
                self.bytes@.len() == b0.len(),
                b0.len() == n,
                forall|k: int|
                    (0 <= k < self.iptr + self.gap_len - j || self.iptr + self.gap_len <= k
                        < self.bytes@.len()) ==> #[trigger] self.bytes@[k] == b0[k],
                forall|k: int|
                    self.iptr + self.gap_len - j <= k < self.iptr + self.gap_len
                        ==> #[trigger] self.bytes@[k] == b0[k - self.gap_len],
            decreases l - j,
        {
            let v = self.bytes[self.iptr - 1 - j];
            self.bytes.set(self.iptr + self.gap_len - 1 - j, v);
            j += 1;
        }
        self.iptr = self.iptr - l;
        proof {
            assert(forall|t: int|
                0 <= t < l ==> #[trigger] s[p0 - l + t] == self.bytes@[p0 + self.gap_len - l + t]);
            assert(self.content() =~= s);
            assert(self.iptr as int == back_dest(s, p0));
        }
    }
}

impl Buffer {
    /// Walks the gap to offset `n`, one codepoint at a time, stopping at the
    /// first character boundary at or past the target in the direction of
    /// travel. When `n` is a character boundary of the document, the cursor
    /// lands exactly on `n`.
    pub fn jump(&mut self, n: usize)
        requires
            old(self).wf(),
        ensures
            final(self).wf(),
            final(self).content() == old(self).content(),
            final(self).gap_len == old(self).gap_len,
            final(self).bytes@.len() == old(self).bytes@.len(),
            final(self).iptr as int == jump_dest(
                old(self).content(),
                old(self).iptr as int,
                n as int,
            ),
            is_char_boundary(old(self).content(), n as int) && n <= old(self).content().len()
                ==> final(self).iptr == n,
    {
        let ghost s = old(self).content();
        let ghost cur0 = old(self).iptr as int;
        if n < self.iptr {
            proof {
                lemma_prev_bnd_bounds(s, n as int);
            }
            while self.iptr > n
                invariant
                    self.wf(),
                    self.content() == s,
                    self.gap_len == old(self).gap_len,
                    self.bytes@.len() == old(self).bytes@.len(),
                    n < cur0,
                    self.iptr as int >= prev_bnd(s, n as int),
                    self.iptr <= n ==> self.iptr as int == prev_bnd(s, n as int),
                decreases self.iptr,
            {
                let ghost b = self.iptr as int;
                let ghost p = s.subrange(0, b);
                proof {
                    lemma_last_scalar(p);
                }
                self.move_ptr_backward();
                proof {
                    let l = length_of_last_scalar(p);
                    assert(self.iptr as int == b - l);
                    assert forall|k: int| b - l < k < b implies !is_char_boundary(s, k) by {
                        assert(is_continuation_byte(p[k]));
                        assert(s[k] == p[k]);
                    }
                    lemma_prev_bnd_bounds(s, n as int);
                    if self.iptr <= n {
                        lemma_prev_bnd_reaches(s, n as int, b - l);
                    }
                }
            }
            proof {
                if self.iptr as int == n as int {
                    assert(prev_bnd(s, n as int) == n as int);
                }
                assert(self.iptr as int == jump_dest(s, cur0, n as int));
            }
        } else {
            let ghost t: int = if n <= s.len() {
                n as int
            } else {
                s.len() as int
            };
            let nb = self.bytes.len();
            while self.iptr < n && self.iptr + self.gap_len < nb
                invariant
                    self.wf(),
                    self.content() == s,
                    self.gap_len == old(self).gap_len,
                    self.bytes@.len() == old(self).bytes@.len(),
                    nb == self.bytes@.len(),
                    self.iptr + self.gap_len <= nb,
                    n >= cur0,
                    cur0 <= self.iptr,
                    t == if n <= s.len() {
                        n as int
                    } else {
                        s.len() as int
                    },
                    self.iptr as int > t ==> self.iptr as int == next_bnd(s, t),
                decreases self.bytes@.len() - self.iptr,
            {
                let ghost b = self.iptr as int;
                proof {
                    assert(s.len() == self.bytes@.len() - self.gap_len);
                    assert(b < s.len());
                    lemma_step_forward(s, b);
                }
                self.move_ptr_forward();
                proof {
                    let l = length_of_first_scalar(s.subrange(b, s.len() as int));
                    assert(self.iptr as int == b + l);
                    if self.iptr as int > t {
                        assert(b < t);
                        lemma_next_bnd_reaches(s, t, b + l);
                    }
                }
            }
            proof {
                assert(self.iptr as int >= t);
                if self.iptr as int == t {
                    lemma_next_bnd_at_boundary(s, t);
                }
                if cur0 == n as int {
                    assert(self.iptr as int == cur0);
                }
                assert(self.iptr as int == jump_dest(s, cur0, n as int));
            }
        }
    }

    /// Removes the codepoint just before the cursor and returns its bytes in
    /// document order; no-op returning `None` at the start of the document.
    pub fn delete_before_ptr(&mut self) -> (r: Option<Vec<u8>>)
        requires
            old(self).wf(),
        ensures
            final(self).wf(),
            old(self).iptr == 0 ==> r is None && final(self).iptr == old(self).iptr
                && final(self).gap_len == old(self).gap_len && final(self).bytes@ == old(
                self,
            ).bytes@,
            old(self).iptr > 0 ==> ({
                let s = old(self).content();
                let p0 = old(self).iptr as int;
                let l = length_of_last_scalar(s.subrange(0, p0));
                &&& r matches Some(v) && v@ == s.subrange(p0 - l, p0)
                &&& final(self).content() == s.subrange(0, p0 - l) + s.subrange(
                    p0,
                    s.len() as int,
                )
                &&& final(self).iptr as int == p0 - l
                &&& final(self).gap_len == old(self).gap_len + l
                &&& final(self).bytes@.len() == old(self).bytes@.len()
            }),
    {
        if self.iptr == 0 {
            return None;
        }
        let nb = self.bytes.len();
        let ghost s = self.content();
        let ghost p0 = self.iptr as int;
        let ghost pre = s.subrange(0, p0);
        let l = self.last_len();
        proof {
            lemma_last_scalar(pre);
            assert(forall|k: int| 0 <= k < p0 ==> pre[k] == self.bytes@[k]);
        }
        let mut res: Vec<u8> = Vec::new();
        let mut j: usize = 0;
        while j < l
            invariant
                0 <= j <= l,
                1 <= l <= self.iptr,
                self.iptr == old(self).iptr,
                self.gap_len == old(self).gap_len,
                self.bytes@ == old(self).bytes@,
                self.iptr + self.gap_len <= nb,
                nb == self.bytes@.len(),
                s == old(self).content(),
                p0 == old(self).iptr as int,
                p0 <= s.len(),
                res@ =~= s.subrange(p0 - l, p0 - l + j),
                forall|k: int| 0 <= k < p0 ==> #[trigger] s[k] == self.bytes@[k],
            decreases l - j,
        {
            let ghost jj = j as int;
            res.push(self.bytes[self.iptr - l + j]);
            proof {
                assert(res@ =~= s.subrange(p0 - l, p0 - l + jj + 1));
            }
            j += 1;
        }
        self.gap_len = self.gap_len + l;
        self.iptr = self.iptr - l;
        proof {
            assert(self.content() =~= s.subrange(0, p0 - l) + s.subrange(p0, s.len() as int));
            lemma_delete_span_wf(s, p0 - l, p0);
        }
        Some(res)
    }

    /// Removes the codepoint just after the cursor and returns its bytes in
    /// document order; no-op returning `None` at the end of the document.
    pub fn delete_after_ptr(&mut self) -> (r: Option<Vec<u8>>)
        requires
            old(self).wf(),
        ensures
            final(self).wf(),
            old(self).iptr as int == old(self).content().len() ==> r is None && final(self).iptr
                == old(self).iptr && final(self).gap_len == old(self).gap_len && final(self).bytes@
                == old(self).bytes@,
            (old(self).iptr as int) < old(self).content().len() ==> ({
                let s = old(self).content();
                let p0 = old(self).iptr as int;
                let l = length_of_first_scalar(s.subrange(p0, s.len() as int));
                &&& r matches Some(v) && v@ == s.subrange(p0, p0 + l)
                &&& final(self).content() == s.subrange(0, p0) + s.subrange(p0 + l, s.len() as int)
                &&& final(self).iptr == old(self).iptr
                &&& final(self).gap_len == old(self).gap_len + l
                &&& final(self).bytes@.len() == old(self).bytes@.len()
            }),
    {
        let nb = self.bytes.len();
        let i = self.iptr + self.gap_len;
        let ghost s = self.content();
        let ghost p0 = self.iptr as int;
        proof {
            assert(s.len() == nb - self.gap_len);
        }
        if i == nb {
            return None;
        }
        proof {
            lemma_step_forward(s, p0);
            assert(s[p0] == self.bytes@[i as int]);
        }
        let b = self.bytes[i];
        proof {
            valid_utf8_split(s, p0);
            let suf = s.subrange(p0, s.len() as int);
            assert(valid_utf8(suf));
            assert(valid_first_scalar(suf));
            assert(suf[0] == b);
            assert(!is_continuation_byte(b));
        }
        let l = width_of_leading(b);
        proof {
            let suf = s.subrange(p0, s.len() as int);
            assert(valid_first_scalar(suf));
            assert(suf[0] == b);
            assert(l == length_of_first_scalar(suf));
            assert(p0 + l <= s.len());
        }
        let mut res: Vec<u8> = Vec::new();
        let mut j: usize = 0;
        while j < l
            invariant
                0 <= j <= l,
                1 <= l <= 4,
                i == self.iptr + self.gap_len,
                self.iptr == old(self).iptr,
                self.gap_len == old(self).gap_len,
                self.bytes@ == old(self).bytes@,
                i + l <= nb,
                nb == self.bytes@.len(),
                s == old(self).content(),
                p0 == old(self).iptr as int,
                p0 + l <= s.len(),
                s.len() == nb - self.gap_len,
                res@ =~= s.subrange(p0, p0 + j),
                forall|k: int|
                    p0 <= k < s.len() ==> #[trigger] s[k] == self.bytes@[k + self.gap_len],
            decreases l - j,
        {
            let ghost jj = j as int;
            res.push(self.bytes[i + j]);
            proof {
                assert(res@ =~= s.subrange(p0, p0 + jj + 1));
            }
            j += 1;
        }
        self.gap_len = self.gap_len + l;
        proof {
            assert(self.content() =~= s.subrange(0, p0) + s.subrange(p0 + l, s.len() as int));
            lemma_delete_span_wf(s, p0, p0 + l);
        }
        Some(res)
    }
}

/// Removing the byte span `[a, b)` between two character boundaries of a
/// valid document leaves a valid document with a boundary at `a`.
pub proof fn lemma_delete_span_wf(s: Seq<u8>, a: int, b: int)
    requires
        valid_utf8(s),
        0 <= a <= b <= s.len(),
        is_char_boundary(s, a),
        is_char_boundary(s, b),
    ensures
        valid_utf8(s.subrange(0, a) + s.subrange(b, s.len() as int)),
        is_char_boundary(s.subrange(0, a) + s.subrange(b, s.len() as int), a),
{
    broadcast use vstd::utf8::group_utf8_lib;

    let pre = s.subrange(0, a);
    let suf = s.subrange(b, s.len() as int);
    assert(valid_utf8(pre));
    assert(valid_utf8(suf));
    let c = pre + suf;
    assert(valid_utf8(c));
    if suf.len() == 0 {
        assert(c.len() == a);
        assert(is_char_boundary(c, a));
    } else {
        assert(suf[0] == s[b]);
        assert(b < s.len());
        assert(!is_continuation_byte(s[b]));
        assert(c[a] == suf[0]);
        assert(is_char_boundary(c, a));
    }
}

/// Inserting a valid UTF-8 span at a character boundary of a valid document
/// leaves a valid document, with boundaries at both ends of the span.
pub proof fn lemma_insert_span_wf(s: Seq<u8>, a: int, mid: Seq<u8>)
    requires
        valid_utf8(s),
        0 <= a <= s.len(),
        is_char_boundary(s, a),
        valid_utf8(mid),
    ensures
        valid_utf8(s.subrange(0, a) + mid + s.subrange(a, s.len() as int)),
        is_char_boundary(s.subrange(0, a) + mid + s.subrange(a, s.len() as int), a + mid.len()),
        is_char_boundary(s.subrange(0, a) + mid + s.subrange(a, s.len() as int), a),
{
    broadcast use vstd::utf8::group_utf8_lib;

    let pre = s.subrange(0, a);
    let suf = s.subrange(a, s.len() as int);
    assert(valid_utf8(pre));
    assert(valid_utf8(suf));
    assert(valid_utf8(pre + mid));
    let c = pre + mid + suf;
    assert((pre + mid) + suf =~= pre + (mid + suf));
    assert(valid_utf8(mid + suf));
    assert(valid_utf8(c));
    if suf.len() == 0 {
        assert(c.len() == a + mid.len());
        assert(is_char_boundary(c, a + mid.len()));
    } else {
        assert(suf[0] == s[a]);
        assert(!is_continuation_byte(s[a]));
        assert(c[a + mid.len()] == suf[0]);
        assert(is_char_boundary(c, a + mid.len()));
    }
    if mid.len() == 0 {
        assert(is_char_boundary(c, a));
    } else {
        lemma_valid_first_byte_not_cont(mid);
        assert(c[a] == mid[0]);
        assert(is_char_boundary(c, a));
    }
}

impl Buffer {
    /// Doubles the backing storage, relocating the post-gap tail to the new
    /// end and folding the vacated region into the gap.
    fn grow(&mut self)
        requires
            old(self).wf(),
            old(self).bytes@.len() <= usize::MAX / 2,
        ensures
            final(self).wf(),
            final(self).content() == old(self).content(),
            final(self).iptr == old(self).iptr,
            final(self).gap_len == old(self).gap_len + old(self).bytes@.len(),
            final(self).bytes@.len() == 2 * old(self).bytes@.len(),
    {
        let old_len = self.bytes.len();
        let ghost s = self.content();
        let ghost b0 = self.bytes@;
        let mut extra: Vec<u8> = vec![0u8; old_len];
        self.bytes.append(&mut extra);
        let start = self.iptr + self.gap_len;
        let mut src = start;
        while src < old_len
            invariant
                self.iptr == old(self).iptr,
                self.gap_len == old(self).gap_len,
                start == self.iptr + self.gap_len,
                start <= src <= old_len || (src == start && start >= old_len),
                old_len == b0.len(),
                old_len <= usize::MAX / 2,
                self.bytes@.len() == 2 * old_len,
                forall|k: int| 0 <= k < start ==> #[trigger] self.bytes@[k] == b0[k],
                forall|k: int| src <= k < old_len ==> #[trigger] self.bytes@[k] == b0[k],
                forall|k: int|
                    start + old_len <= k < src + old_len ==> #[trigger] self.bytes@[k] == b0[k
                        - old_len],
            decreases old_len - src,
        {
            let v = self.bytes[src];
            self.bytes.set(src + old_len, v);
            self.bytes.set(src, 0u8);
            src += 1;
        }
        self.gap_len = self.gap_len + old_len;
        proof {
            assert(self.content() =~= s);
        }
    }

    /// Writes the UTF-8 encoding of `c` into the gap head and advances the
    /// cursor past it. When the gap has shrunk below a quarter of the
    /// storage, the storage is doubled first.
    pub fn insert(&mut self, c: char)
        requires
            old(self).wf(),
            old(self).gap_len >= 4 || old(self).bytes@.len() <= usize::MAX / 2,
        ensures
            final(self).wf(),
            final(self).content() == old(self).content().subrange(0, old(self).iptr as int)
                + encode_scalar(c as u32) + old(self).content().subrange(
                old(self).iptr as int,
                old(self).content().len() as int,
            ),
            final(self).iptr as int == old(self).iptr + encode_scalar(c as u32).len(),
            final(self).bytes@.len() >= old(self).bytes@.len(),
            old(self).bytes@.len() <= usize::MAX / 2 ==> final(self).gap_len >= 4,
            final(self).gap_len >= 4 || final(self).bytes@.len() > usize::MAX / 2,
            final(self).bytes@.len() == old(self).bytes@.len() || (old(self).bytes@.len()
                <= usize::MAX / 2 && final(self).bytes@.len() == 2 * old(self).bytes@.len()
                && final(self).gap_len == old(self).gap_len + old(self).bytes@.len()
                    - encode_scalar(c as u32).len()),
            final(self).bytes@.len() == old(self).bytes@.len() ==> final(self).gap_len == old(
                self,
            ).gap_len - encode_scalar(c as u32).len(),
            final(self).bytes@.len() != old(self).bytes@.len() ==> old(self).gap_len < old(
                self,
            ).bytes@.len() / 4,
    {
        let nb0 = self.bytes.len();
        if self.gap_len < nb0 / 4 && nb0 <= usize::MAX / 2 {
            self.grow();
        }
        let ghost s = self.content();
        let ghost p0 = self.iptr as int;
        proof {
            assert(self.gap_len >= 4);
        }
        let enc = encode_char_vec(c);
        let l = enc.len();
        let ghost b1 = self.bytes@;
        let ghost g1 = self.gap_len;
        let nb = self.bytes.len();
        let mut j: usize = 0;
        while j < l
            invariant
                0 <= j <= l,
                1 <= l <= 4,
                l == enc@.len(),
                l <= self.gap_len,
                self.iptr == old(self).iptr,
                self.gap_len == g1,
                self.iptr + self.gap_len <= nb,
                nb == self.bytes@.len(),
                self.bytes@.len() == b1.len(),
                forall|k: int|
                    (0 <= k < self.iptr || self.iptr + j <= k < self.bytes@.len())
                        ==> #[trigger] self.bytes@[k] == b1[k],
                forall|k: int|
                    self.iptr <= k < self.iptr + j ==> #[trigger] self.bytes@[k] == enc@[k
                        - self.iptr],
            decreases l - j,
        {
            let v = enc[j];
            self.bytes.set(self.iptr + j, v);
            j += 1;
        }
        self.iptr = self.iptr + l;
        self.gap_len = self.gap_len - l;
        proof {
            assert(self.content() =~= s.subrange(0, p0) + enc@ + s.subrange(p0, s.len() as int));
            lemma_encode_utf8_singleton(c);
            vstd::utf8::encode_utf8_valid_utf8(seq![c]);
            assert(valid_utf8(enc@));
            lemma_insert_span_wf(s, p0, enc@);
        }
    }

    /// Undoes an insert of `n` bytes made at `prev_iptr`: repositions the
    /// gap there and widens it over the inserted span.
    pub fn revert_insert(&mut self, prev_iptr: usize, n: usize)
        requires
            old(self).wf(),
            prev_iptr + n <= old(self).content().len(),
            is_char_boundary(old(self).content(), prev_iptr as int),
            is_char_boundary(old(self).content(), prev_iptr + n),
        ensures
            final(self).wf(),
            final(self).content() == old(self).content().subrange(0, prev_iptr as int) + old(
                self,
            ).content().subrange(prev_iptr + n, old(self).content().len() as int),
            final(self).iptr == prev_iptr,
            final(self).gap_len == old(self).gap_len + n,
            final(self).bytes@.len() == old(self).bytes@.len(),
    {
        let ghost s = old(self).content();
        self.jump(prev_iptr);
        let nb = self.bytes.len();
        proof {
            assert(s.len() == nb - self.gap_len);
            assert(self.gap_len + n <= nb);
        }
        let g = self.gap_len + n;
        self.gap_len = if g < nb {
            g
        } else {
            nb
        };
        proof {
            assert(self.gap_len == g);
            assert(self.content() =~= s.subrange(0, prev_iptr as int) + s.subrange(
                prev_iptr + n,
                s.len() as int,
            ));
            lemma_delete_span_wf(s, prev_iptr as int, prev_iptr + n);
        }
    }

    /// Undoes a backward delete: repositions the gap to `prev_iptr`, writes
    /// the removed bytes back before the cursor, and advances the cursor
    /// past them.
    pub fn revert_delete_before_ptr(&mut self, prev_iptr: usize, deleted: &Vec<u8>)
        requires
            old(self).wf(),
            prev_iptr <= old(self).content().len(),
            is_char_boundary(old(self).content(), prev_iptr as int),
            valid_utf8(deleted@),
        ensures
            final(self).wf(),
            final(self).content() == old(self).content().subrange(0, prev_iptr as int) + deleted@
                + old(self).content().subrange(prev_iptr as int, old(self).content().len() as int),
            final(self).iptr as int == prev_iptr + deleted@.len(),
    {
        let ghost s = old(self).content();
        self.jump(prev_iptr);
        let dlen = deleted.len();
        let ghost b1 = self.bytes@;
        let ghost g1 = self.gap_len;
        if dlen <= self.gap_len {
            self.gap_len = self.gap_len - dlen;
            let nb = self.bytes.len();
            let mut j: usize = 0;
            while j < dlen
                invariant
                    0 <= j <= dlen,
                    dlen == deleted@.len(),
                    self.iptr == prev_iptr,
                    self.gap_len == g1 - dlen,
                    dlen <= g1,
                    self.iptr + g1 <= nb,
                    nb == self.bytes@.len(),
                    self.bytes@.len() == b1.len(),
                    forall|k: int|
                        (0 <= k < self.iptr || self.iptr + j <= k < self.bytes@.len())
                            ==> #[trigger] self.bytes@[k] == b1[k],
                    forall|k: int|
                        self.iptr <= k < self.iptr + j ==> #[trigger] self.bytes@[k] == deleted@[k
                            - self.iptr],
                decreases dlen - j,
            {
                let v = deleted[j];
                self.bytes.set(self.iptr + j, v);
                j += 1;
            }
            self.iptr = self.iptr + dlen;
            proof {
                assert(self.content() =~= s.subrange(0, prev_iptr as int) + deleted@ + s.subrange(
                    prev_iptr as int,
                    s.len() as int,
                ));
                lemma_insert_span_wf(s, prev_iptr as int, deleted@);
            }
        } else {
            let mut j: usize = 0;
            while j < dlen
                invariant
                    0 <= j <= dlen,
                    dlen == deleted@.len(),
                    self.iptr == prev_iptr,
                    self.gap_len == g1,
                    self.iptr + self.gap_len <= self.bytes@.len(),
                    self.iptr <= b1.len(),
                    self.bytes@.len() == b1.len() + j,
                    forall|k: int| 0 <= k < self.iptr ==> #[trigger] self.bytes@[k] == b1[k],
                    forall|k: int|
                        self.iptr <= k < self.iptr + j ==> #[trigger] self.bytes@[k] == deleted@[k
                            - self.iptr],
                    forall|k: int|
                        self.iptr + j <= k < self.bytes@.len() ==> #[trigger] self.bytes@[k]
                            == b1[k - j],
                decreases dlen - j,
            {
                let v = deleted[j];
                let nbj = self.bytes.len();
                proof {
                    assert(self.iptr + j <= nbj);
                }
                let at = self.iptr + j;
                let ghost bpre = self.bytes@;
                self.bytes.insert(at, v);
                proof {
                    assert(self.bytes@ =~= bpre.insert(at as int, v));
                }
                j += 1;
            }
            let nb2 = self.bytes.len();
            proof {
                assert(self.iptr + dlen <= nb2);
            }
            self.iptr = self.iptr + dlen;
            proof {
                assert(self.content() =~= s.subrange(0, prev_iptr as int) + deleted@ + s.subrange(
                    prev_iptr as int,
                    s.len() as int,
                ));
                lemma_insert_span_wf(s, prev_iptr as int, deleted@);
            }
        }
    }

    /// Undoes a forward delete: repositions the gap to `prev_iptr` and
    /// writes the removed bytes back just after the gap, leaving the cursor
    /// where it was.
    pub fn revert_delete_after_ptr(&mut self, prev_iptr: usize, deleted: &Vec<u8>)
        requires
            old(self).wf(),
            prev_iptr <= old(self).content().len(),
            is_char_boundary(old(self).content(), prev_iptr as int),
            valid_utf8(deleted@),
        ensures
            final(self).wf(),
            final(self).content() == old(self).content().subrange(0, prev_iptr as int) + deleted@
                + old(self).content().subrange(prev_iptr as int, old(self).content().len() as int),
            final(self).iptr == prev_iptr,
    {
        let ghost s = old(self).content();
        self.jump(prev_iptr);
        let dlen = deleted.len();
        let ghost b1 = self.bytes@;
        let ghost g1 = self.gap_len;
        if dlen <= self.gap_len {
            self.gap_len = self.gap_len - dlen;
            let nb = self.bytes.len();
            let gend = self.iptr + self.gap_len;
            let mut j: usize = 0;
            while j < dlen
                invariant
                    0 <= j <= dlen,
                    dlen == deleted@.len(),
                    self.iptr == prev_iptr,
                    self.gap_len == g1 - dlen,
                    dlen <= g1,
                    gend == self.iptr + self.gap_len,
                    gend + dlen <= nb,
                    nb == self.bytes@.len(),
                    self.bytes@.len() == b1.len(),
                    forall|k: int|
                        (0 <= k < gend || gend + j <= k < self.bytes@.len())
                            ==> #[trigger] self.bytes@[k] == b1[k],
                    forall|k: int|
                        gend <= k < gend + j ==> #[trigger] self.bytes@[k] == deleted@[k - gend],
                decreases dlen - j,
            {
                let v = deleted[j];
                self.bytes.set(gend + j, v);
                j += 1;
            }
            proof {
                assert(self.content() =~= s.subrange(0, prev_iptr as int) + deleted@ + s.subrange(
                    prev_iptr as int,
                    s.len() as int,
                ));
                lemma_insert_span_wf(s, prev_iptr as int, deleted@);
            }
        } else {
            let nb0 = self.bytes.len();
            let gend = self.iptr + self.gap_len;
            let mut j: usize = 0;
            while j < dlen
                invariant
                    0 <= j <= dlen,
                    dlen == deleted@.len(),
                    self.iptr == prev_iptr,
                    self.gap_len == g1,
                    gend == self.iptr + self.gap_len,
                    gend <= b1.len(),
                    self.bytes@.len() == b1.len() + j,
                    forall|k: int| 0 <= k < gend ==> #[trigger] self.bytes@[k] == b1[k],
                    forall|k: int|
                        gend <= k < gend + j ==> #[trigger] self.bytes@[k] == deleted@[k - gend],
                    forall|k: int|
                        gend + j <= k < self.bytes@.len() ==> #[trigger] self.bytes@[k] == b1[k
                            - j],
                decreases dlen - j,
            {
                let v = deleted[j];
                let nbj = self.bytes.len();
                proof {
                    assert(gend + j <= nbj);
                }
                let at = gend + j;
                let ghost bpre = self.bytes@;
                self.bytes.insert(at, v);
                proof {
                    assert(self.bytes@ =~= bpre.insert(at as int, v));
                }
                j += 1;
            }
            proof {
                assert(self.content() =~= s.subrange(0, prev_iptr as int) + deleted@ + s.subrange(
                    prev_iptr as int,
                    s.len() as int,
                ));
                lemma_insert_span_wf(s, prev_iptr as int, deleted@);
            }
        }
    }

    /// A restartable reader over the logical content, starting at offset 0.
    pub fn iter(&self) -> (r: BufferIter<'_>)
        requires
            self.wf(),
        ensures
            r.buf == self,
            r.wf(),
            r.pos() == 0,
    {
        BufferIter { buf: self, current: 0 }
    }
}

/// A read-only cursor over a buffer's logical bytes; it skips the gap.
pub struct BufferIter<'a> {
    pub buf: &'a Buffer,
    pub current: usize,
}

impl<'a> BufferIter<'a> {
    /// The logical offset this reader stands at.
    pub open spec fn pos(&self) -> int {
        if self.current <= self.buf.iptr {
            self.current as int
        } else {
            self.current - self.buf.gap_len
        }
    }

    /// The reader points into the buffer's storage and never into the
    /// interior of the gap.
    pub open spec fn wf(&self) -> bool {
        &&& self.buf.wf()
        &&& self.current <= self.buf.bytes@.len()
        &&& (self.current <= self.buf.iptr || self.buf.iptr + self.buf.gap_len <= self.current)
    }

    /// Yields the next logical byte, or `None` at the end of the document.
    pub fn next(&mut self) -> (r: Option<u8>)
        requires
            old(self).wf(),
        ensures
            final(self).wf(),
            final(self).buf == old(self).buf,
            old(self).pos() < old(self).buf.content().len() ==> r == Some(
                old(self).buf.content()[old(self).pos()],
            ) && final(self).pos() == old(self).pos() + 1,
            old(self).pos() >= old(self).buf.content().len() ==> r is None && final(self).pos()
                == old(self).pos(),
    {
        let ghost s = self.buf.content();
        let nb = self.buf.bytes.len();
        proof {
            assert(s.len() == nb - self.buf.gap_len);
        }
        if self.current == nb {
            return None;
        }
        if self.current == self.buf.iptr {
            self.current = self.current + self.buf.gap_len;
            if self.current >= nb {
                return None;
            }
        }
        let res = self.buf.bytes[self.current];
        proof {
            if self.current < self.buf.iptr {
                assert(s[self.pos()] == self.buf.bytes@[self.current as int]);
            } else {
                assert(s[self.pos()] == self.buf.bytes@[self.current as int]);
            }
        }
        self.current = self.current + 1;
        Some(res)
    }

    /// Restarts the reader and advances it to logical offset `i` (clamped
    /// to the end of the document).
    pub fn seek(&mut self, i: usize)
        requires
            old(self).wf(),
        ensures
            final(self).wf(),
            final(self).buf == old(self).buf,
            final(self).pos() == if i <= old(self).buf.content().len() {
                i as int
            } else {
                old(self).buf.content().len() as int
            },
    {
        let ghost s = self.buf.content();
        self.current = 0;
        let mut k: usize = 0;
        while k < i
            invariant
                self.wf(),
                self.buf == old(self).buf,
                k <= i,
                self.pos() == if k <= s.len() {
                    k as int
                } else {
                    s.len() as int
                },
                s == self.buf.content(),
            decreases i - k,
        {
            self.next();
            k += 1;
        }
    }
}

/// Cursor offset reached by `jump(n)` from cursor `cur`.
pub open spec fn jump_dest(s: Seq<u8>, cur: int, n: int) -> int {
    if n < cur {
        prev_bnd(s, n)
    } else if n > cur {
        next_bnd(
            s,
            if n <= s.len() {
                n
            } else {
                s.len() as int
            },
        )
    } else {
        cur
    }
}

/// Cursor offset after one forward codepoint move from boundary `i`.
pub open spec fn fwd_dest(s: Seq<u8>, i: int) -> int {
    if i >= s.len() {
        i
    } else {
        i + length_of_first_scalar(s.subrange(i, s.len() as int))
    }
}

/// Cursor offset after one backward codepoint move from boundary `i`.
pub open spec fn back_dest(s: Seq<u8>, i: int) -> int {
    if i <= 0 {
        0
    } else {
        i - length_of_last_scalar(s.subrange(0, i))
    }
}

/// Relies on `String::from_utf8`: builds the string whose characters decode
/// the given bytes; it succeeds on every valid UTF-8 input.
#[verifier::external_body]
pub fn string_from_valid_utf8(v: Vec<u8>) -> (r: String)
    requires
        valid_utf8(v@),
    ensures
        r@ == decode_utf8(v@),
{
    String::from_utf8(v).unwrap()
}

} // verus!
