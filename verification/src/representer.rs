//! Display segments handed to a rendering collaborator: each element is a
//! run of logical bytes tagged as plain text or as an incremental-search
//! match (and whether it is the currently selected match).
use vstd::prelude::*;

verus! {

use vstd::utf8::{valid_utf8, decode_utf8};
use crate::buffer::string_from_valid_utf8;

/// How a run of bytes should be displayed.
pub enum ElementType {
    Normal,
    /// `true` when this is the currently selected match.
    IncrementalSearch(bool),
}

/// One run of logical bytes with its display tag.
pub struct Element {
    pub val: Vec<u8>,
    pub t: ElementType,
}

impl Element {
    /// An empty run of plain text.
    pub fn default() -> (r: Element)
        ensures
            r.val@ == Seq::<u8>::empty(),
            r.t is Normal,
    {
        let r = Element { val: Vec::new(), t: ElementType::Normal };
        proof {
            assert(r.val@ =~= Seq::<u8>::empty());
        }
        r
    }

    /// An empty run tagged as a search match.
    pub fn isearch_type(is_current: bool) -> (r: Element)
        ensures
            r.val@ == Seq::<u8>::empty(),
            r.t == ElementType::IncrementalSearch(is_current),
    {
        let r = Element { val: Vec::new(), t: ElementType::IncrementalSearch(is_current) };
        proof {
            assert(r.val@ =~= Seq::<u8>::empty());
        }
        r
    }

    /// Appends one byte to the run.
    pub fn push(&mut self, v: u8)
        ensures
            final(self).val@ == old(self).val@.push(v),
            final(self).t == old(self).t,
    {
        self.val.push(v);
    }

    /// True when the run holds no bytes.
    pub fn is_empty(&self) -> (r: bool)
        ensures
            r == (self.val@.len() == 0),
    {
        self.val.is_empty()
    }
}

/// The ordered list of display segments for one viewport.
pub struct Representer {
    pub elements: Vec<Element>,
}

/// All bytes of the segments, in order.
pub open spec fn segments_bytes(els: Seq<Element>) -> Seq<u8>
    decreases els.len(),
{
    if els.len() == 0 {
        Seq::empty()
    } else {
        segments_bytes(els.drop_last()) + els.last().val@
    }
}

impl Representer {
    /// The concatenation of all segment bytes.
    pub open spec fn bytes(&self) -> Seq<u8> {
        segments_bytes(self.elements@)
    }

    /// Creates an empty segment list.
    pub fn new() -> (r: Representer)
        ensures
            r.elements@.len() == 0,
            r.bytes() == Seq::<u8>::empty(),
    {
        let r = Representer { elements: Vec::with_capacity(100) };
        proof {
            assert(r.elements@ =~= Seq::<Element>::empty());
        }
        r
    }

    /// Appends one segment.
    pub fn push(&mut self, element: Element)
        ensures
            final(self).elements@ == old(self).elements@.push(element),
            final(self).bytes() == old(self).bytes() + element.val@,
    {
        self.elements.push(element);
        proof {
            assert(self.elements@.drop_last() =~= old(self).elements@);
        }
    }

    /// The visible text as one string: all segment bytes, without a single
    /// trailing line break if one is present.
    pub fn to_string(&self) -> (r: String)
        requires
            valid_utf8(self.bytes()),
        ensures
            self.bytes().len() > 0 && self.bytes().last() == 10 ==> r@ == decode_utf8(
                self.bytes().drop_last(),
            ),
            !(self.bytes().len() > 0 && self.bytes().last() == 10) ==> r@ == decode_utf8(
                self.bytes(),
            ),
    {
        let mut all: Vec<u8> = Vec::new();
        let n = self.elements.len();
        let mut i: usize = 0;
        while i < n
            invariant
                0 <= i <= n,
                n == self.elements@.len(),
                all@ == segments_bytes(self.elements@.subrange(0, i as int)),
                valid_utf8(self.bytes()),
            decreases n - i,
        {
            let ghost pre = all@;
            let e = &self.elements[i];
            let m = e.val.len();
            let mut j: usize = 0;
            while j < m
                invariant
                    0 <= j <= m,
                    m == e.val@.len(),
                    e == &self.elements@[i as int],
                    i < self.elements@.len(),
                    all@ == pre + e.val@.subrange(0, j as int),
                decreases m - j,
            {
                all.push(e.val[j]);
                proof {
                    assert(all@ =~= pre + e.val@.subrange(0, j + 1));
                }
                j += 1;
            }
            proof {
                assert(e.val@.subrange(0, m as int) =~= e.val@);
                let sub1 = self.elements@.subrange(0, i + 1);
                assert(sub1.drop_last() =~= self.elements@.subrange(0, i as int));
                assert(sub1.last() == self.elements@[i as int]);
                assert(all@ =~= segments_bytes(sub1));
            }
            i += 1;
        }
        proof {
            assert(self.elements@.subrange(0, n as int) =~= self.elements@);
            assert(all@ == self.bytes());
        }
        let la = all.len();
        if la > 0 && all[la - 1] == 10u8 {
            let ghost before = all@;
            let _ = all.pop();
            proof {
                assert(all@ =~= before.drop_last());
                assert(vstd::utf8::is_char_boundary(before, before.len() - 1)) by {
                    vstd::utf8::is_char_boundary_iff_not_is_continuation_byte(
                        before,
                        before.len() - 1,
                    );
                }
                vstd::utf8::valid_utf8_split(before, before.len() - 1);
                assert(all@ =~= before.subrange(0, before.len() - 1));
                assert(valid_utf8(all@));
            }
            string_from_valid_utf8(all)
        } else {
            string_from_valid_utf8(all)
        }
    }
}

} // verus!
