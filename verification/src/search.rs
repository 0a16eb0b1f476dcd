//! Incremental substring search over the buffer's live content: a mutable
//! term, the ascending list of match start offsets, and a cyclic cursor
//! into that list.
use vstd::prelude::*;

verus! {

use vstd::utf8::*;
use crate::buffer::Buffer;
use crate::codec::lemma_encode_utf8_len_ge;

broadcast use vstd::utf8::group_utf8_lib;

/// Offsets of all leftmost, non-overlapping occurrences of `t` in `s`,
/// scanning from offset `i`.
pub open spec fn match_offsets_from(s: Seq<u8>, t: Seq<u8>, i: int) -> Seq<int>
    recommends
        t.len() > 0,
        0 <= i,
    decreases s.len() - i,
    when t.len() > 0 && 0 <= i
{
    if i + t.len() > s.len() {
        Seq::empty()
    } else if s.subrange(i, i + t.len()) == t {
        seq![i] + match_offsets_from(s, t, i + t.len())
    } else {
        match_offsets_from(s, t, i + 1)
    }
}

/// Offsets of all leftmost, non-overlapping occurrences of `t` in `s`.
pub open spec fn match_offsets(s: Seq<u8>, t: Seq<u8>) -> Seq<int> {
    match_offsets_from(s, t, 0)
}

/// Every reported offset starts a true occurrence of `t`, lies in range,
/// and successive offsets are at least `t.len()` apart.
pub proof fn lemma_match_offsets_props(s: Seq<u8>, t: Seq<u8>, i: int)
    requires
        t.len() > 0,
        0 <= i,
    ensures
        forall|j: int|
            0 <= j < match_offsets_from(s, t, i).len() ==> {
                let o = #[trigger] match_offsets_from(s, t, i)[j];
                &&& i <= o
                &&& o + t.len() <= s.len()
                &&& s.subrange(o, o + t.len()) == t
            },
        forall|j1: int, j2: int|
            0 <= j1 < j2 < match_offsets_from(s, t, i).len()
                ==> #[trigger] match_offsets_from(s, t, i)[j1] + t.len()
                <= #[trigger] match_offsets_from(s, t, i)[j2],
    decreases s.len() - i,
{
    if i + t.len() > s.len() {
    } else if s.subrange(i, i + t.len()) == t {
        lemma_match_offsets_props(s, t, i + t.len());
        let ms = match_offsets_from(s, t, i);
        let rest = match_offsets_from(s, t, i + t.len());
        assert(ms == seq![i] + rest);
        assert(ms[0] == i);
        assert forall|j: int| 1 <= j < ms.len() implies #[trigger] ms[j] == rest[j - 1] by {
            assert(ms[j] == (seq![i] + rest)[j]);
        }
        assert forall|j: int|
            0 <= j < ms.len() implies {
            let o = #[trigger] ms[j];
            &&& i <= o
            &&& o + t.len() <= s.len()
            &&& s.subrange(o, o + t.len()) == t
        } by {
            if j >= 1 {
                assert(ms[j] == rest[j - 1]);
            }
        }
        assert forall|j1: int, j2: int|
            0 <= j1 < j2 < ms.len() implies #[trigger] ms[j1] + t.len() <= #[trigger] ms[j2] by {
            if j1 == 0 {
                assert(ms[j2] == rest[j2 - 1]);
                assert(rest[j2 - 1] >= i + t.len());
            } else {
                assert(ms[j1] == rest[j1 - 1]);
                assert(ms[j2] == rest[j2 - 1]);
            }
        }
    } else {
        lemma_match_offsets_props(s, t, i + 1);
        assert(match_offsets_from(s, t, i) == match_offsets_from(s, t, i + 1));
    }
}

/// Relies on `String::push`: appends one character to the string.
#[verifier::external_body]
pub fn string_push_char(s: &mut String, c: char)
    ensures
        final(s)@ == old(s)@.push(c),
{
    s.push(c)
}

/// Relies on `String::pop`: removes and returns the last character, or
/// returns `None` on an empty string.
#[verifier::external_body]
pub fn string_pop_char(s: &mut String) -> (r: Option<char>)
    ensures
        old(s)@.len() == 0 ==> r is None && final(s)@ == old(s)@,
        old(s)@.len() > 0 ==> r == Some(old(s)@.last()) && final(s)@ == old(s)@.drop_last(),
{
    s.pop()
}

/// Byte-wise comparison of `hay[i .. i + |needle|]` with `needle`.
fn window_eq(hay: &Vec<u8>, i: usize, needle: &Vec<u8>) -> (r: bool)
    requires
        i + needle@.len() <= hay@.len(),
    ensures
        r == (hay@.subrange(i as int, i + needle@.len()) == needle@),
{
    let m = needle.len();
    let hl = hay.len();
    let mut j: usize = 0;
    while j < m
        invariant
            0 <= j <= m,
            m == needle@.len(),
            hl == hay@.len(),
            i + m <= hl,
            forall|k: int| 0 <= k < j ==> hay@[i + k] == #[trigger] needle@[k],
        decreases m - j,
    {
        if hay[i + j] != needle[j] {
            proof {
                assert(hay@.subrange(i as int, i + needle@.len())[j as int] == hay@[i + j]);
            }
            return false;
        }
        j += 1;
    }
    proof {
        assert(hay@.subrange(i as int, i + needle@.len()) =~= needle@);
    }
    true
}

/// Left-to-right scan for all non-overlapping occurrences of `needle`.
fn find_matches(hay: &Vec<u8>, needle: &Vec<u8>) -> (r: Vec<usize>)
    requires
        needle@.len() > 0,
    ensures
        r@.map_values(|x: usize| x as int) == match_offsets(hay@, needle@),
{
    let mut res: Vec<usize> = Vec::new();
    let n = hay.len();
    let m = needle.len();
    if m > n {
        proof {
            assert(res@.map_values(|x: usize| x as int) =~= match_offsets(hay@, needle@));
        }
        return res;
    }
    let mut i: usize = 0;
    while i <= n - m
        invariant
            1 <= m <= n,
            m == needle@.len(),
            n == hay@.len(),
            0 <= i <= n,
            match_offsets(hay@, needle@) == res@.map_values(|x: usize| x as int)
                + match_offsets_from(hay@, needle@, i as int),
        decreases n - i,
    {
        let ghost pre = res@.map_values(|x: usize| x as int);
        if window_eq(hay, i, needle) {
            res.push(i);
            proof {
                assert(res@.map_values(|x: usize| x as int) =~= pre + seq![i as int]);
                assert(match_offsets_from(hay@, needle@, i as int) == seq![i as int]
                    + match_offsets_from(hay@, needle@, i + m));
                assert(pre + (seq![i as int] + match_offsets_from(hay@, needle@, i + m)) =~= (pre
                    + seq![i as int]) + match_offsets_from(hay@, needle@, i + m));
            }
            i += m;
        } else {
            proof {
                assert(match_offsets_from(hay@, needle@, i as int) == match_offsets_from(
                    hay@,
                    needle@,
                    i + 1,
                ));
            }
            i += 1;
        }
    }
    proof {
        assert(match_offsets_from(hay@, needle@, i as int) =~= Seq::<int>::empty());
        assert(res@.map_values(|x: usize| x as int) + Seq::<int>::empty() =~= res@.map_values(
            |x: usize| x as int,
        ));
    }
    res
}

/// The incremental-search state machine. An empty term means inactive;
/// while active, `ids` holds the ascending match offsets for the current
/// content and `current` indexes the selected match.
pub struct ISearch {
    pub term: String,
    pub ids: Vec<usize>,
    pub current: usize,
}

impl ISearch {
    /// The match offsets as mathematical integers.
    pub open spec fn ids_int(&self) -> Seq<int> {
        self.ids@.map_values(|x: usize| x as int)
    }

    /// Internal consistency of the search state against content `s`:
    /// an empty term holds no matches; otherwise `ids` is exactly the match
    /// list for the encoded term, and `current` stays in range.
    pub open spec fn ids_ok(&self, s: Seq<u8>) -> bool {
        &&& (self.term@.len() == 0 ==> self.ids@.len() == 0)
        &&& (self.term@.len() > 0 ==> self.ids_int() == match_offsets(
            s,
            encode_utf8(self.term@),
        ))
        &&& (self.current < self.ids@.len() || self.current == 0)
    }

    /// Creates an inactive search state.
    pub fn new() -> (r: ISearch)
        ensures
            r.term@ == Seq::<char>::empty(),
            r.ids@ == Seq::<usize>::empty(),
            r.current == 0,
    {
        let r = ISearch { term: String::new(), ids: Vec::with_capacity(32), current: 0 };
        proof {
            assert(r.ids@ =~= Seq::<usize>::empty());
        }
        r
    }

    /// Clears the term, the match list, and the cursor.
    pub fn clear(&mut self)
        ensures
            final(self).term@ == Seq::<char>::empty(),
            final(self).ids@ == Seq::<usize>::empty(),
            final(self).current == 0,
    {
        self.term = String::new();
        self.ids = Vec::new();
        self.current = 0;
        proof {
            assert(self.ids@ =~= Seq::<usize>::empty());
        }
    }

    /// Appends (`Some(c)`) or removes (`None`) one term character, rescans
    /// the whole content, and reports the first match offset, if any. An
    /// emptied term deactivates the search.
    pub fn run(&mut self, buf: &Buffer, d: Option<char>) -> (r: Option<usize>)
        requires
            buf.wf(),
        ensures
            ({
                let t1 = match d {
                    Some(c) => old(self).term@.push(c),
                    None => if old(self).term@.len() > 0 {
                        old(self).term@.drop_last()
                    } else {
                        old(self).term@
                    },
                };
                &&& final(self).term@ == t1
                &&& t1.len() == 0 ==> final(self).ids@.len() == 0 && final(self).current == 0
                    && r is None
                &&& t1.len() > 0 ==> {
                    let ms = match_offsets(buf.content(), encode_utf8(t1));
                    &&& final(self).ids_int() == ms
                    &&& final(self).current == 0
                    &&& (ms.len() == 0 ==> r is None)
                    &&& (ms.len() > 0 ==> (r matches Some(v) && v as int == ms[0]))
                }
            }),
            final(self).ids_ok(buf.content()),
    {
        match d {
            Some(c) => string_push_char(&mut self.term, c),
            None => {
                let _ = string_pop_char(&mut self.term);
            },
        }
        if self.term.as_str().is_empty() {
            self.ids = Vec::new();
            self.current = 0;
            proof {
                assert(self.ids@ =~= Seq::<usize>::empty());
                assert(self.ids_int() =~= Seq::<int>::empty());
            }
            None
        } else {
            let hay = buf.content_vec();
            let needle = self.term.as_str().as_bytes_vec();
            proof {
                lemma_encode_utf8_len_ge(self.term@);
                assert(needle@.len() > 0);
            }
            let found = find_matches(&hay, &needle);
            self.ids = found;
            self.current = 0;
            if self.ids.len() == 0 {
                None
            } else {
                let first = self.ids[0];
                proof {
                    assert(self.ids_int()[0] == first as int);
                }
                Some(first)
            }
        }
    }

    /// Advances the match cursor cyclically and reports the offset there;
    /// no-op reporting `None` when there are no matches.
    pub fn fetch_next(&mut self) -> (r: Option<usize>)
        requires
            old(self).current < old(self).ids@.len() || old(self).ids@.len() == 0,
        ensures
            final(self).term@ == old(self).term@,
            final(self).ids@ == old(self).ids@,
            old(self).ids@.len() == 0 ==> r is None && final(self).current == old(self).current,
            old(self).ids@.len() > 0 ==> ({
                &&& final(self).current == (old(self).current + 1) % (old(self).ids@.len() as int)
                &&& (r matches Some(v) && v == old(self).ids@[final(self).current as int])
            }),
    {
        if self.ids.len() == 0 {
            None
        } else {
            self.current = (self.current + 1) % self.ids.len();
            Some(self.ids[self.current])
        }
    }
}

} // verus!
