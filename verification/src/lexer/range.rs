use vstd::prelude::*;
use vstd::string::StringSliceAdditionalSpecFns;

use crate::lexer::iterators::{
    bytes_len, char_width, char_width_of, lemma_bytes_len_is_encode_len, lemma_bytes_len_take_le,
    lemma_encode_utf8_concat, lemma_prefix_bytes_len_injective, lemma_prefix_is_char_boundary,
};

verus! {

/// A half-open byte range `[lbound, ubound)` into a text buffer, used to
/// locate one token's source text while the lexer accumulates it.
#[derive(Copy, Clone)]
pub struct MyRange {
    lbound: usize,
    ubound: usize,
}

impl MyRange {
    /// Lower byte offset of the range.
    pub closed spec fn lo(&self) -> int {
        self.lbound as int
    }

    /// Upper byte offset of the range, one past the last byte.
    pub closed spec fn hi(&self) -> int {
        self.ubound as int
    }

    pub open spec fn wf(&self) -> bool {
        0 <= self.lo() <= self.hi()
    }

    pub fn new() -> (r: Self)
        ensures
            r.lo() == 0,
            r.hi() == 0,
    {
        Self { lbound: 0, ubound: 0 }
    }

    /// An empty range that starts and ends at the given offset.
    pub fn start_at(lbound: usize) -> (r: Self)
        ensures
            r.lo() == lbound,
            r.hi() == lbound,
    {
        Self { lbound, ubound: lbound }
    }

    /// A range that starts at the given offset and covers one character.
    pub fn start_at_and_include(lbound: usize, c: char) -> (r: Self)
        requires
            lbound + char_width(c) <= usize::MAX,
        ensures
            r.lo() == lbound,
            r.hi() == lbound + char_width(c),
    {
        let w = char_width_of(c);
        Self { lbound, ubound: lbound + w }
    }

    /// Grows the upper bound to cover the character that starts at `glyph_idx`;
    /// the lower bound and any larger upper bound stay as they are.
    pub fn expand(&mut self, glyph_idx: usize, glyph: char)
        requires
            glyph_idx + char_width(glyph) <= usize::MAX,
        ensures
            final(self).lo() == old(self).lo(),
            final(self).hi() == if old(self).hi() >= glyph_idx + char_width(glyph) {
                old(self).hi()
            } else {
                glyph_idx + char_width(glyph)
            },
    {
        let cand = glyph_idx + char_width_of(glyph);
        if cand > self.ubound {
            self.ubound = cand;
        }
    }

    pub fn len(&self) -> (r: usize)
        requires
            self.wf(),
        ensures
            r == self.hi() - self.lo(),
    {
        self.ubound - self.lbound
    }

    /// Shrinks the range to be empty at its lower bound.
    pub fn clear_left(&mut self)
        ensures
            final(self).lo() == old(self).lo(),
            final(self).hi() == old(self).lo(),
    {
        self.ubound = self.lbound;
    }

    /// Shrinks the range to be empty at its upper bound, where the next
    /// token's range will start.
    pub fn clear_right(&mut self)
        ensures
            final(self).lo() == old(self).hi(),
            final(self).hi() == old(self).hi(),
    {
        self.lbound = self.ubound;
    }

    pub fn is_empty(&self) -> (r: bool)
        requires
            self.wf(),
        ensures
            r == (self.lo() == self.hi()),
    {
        self.len() == 0
    }

    /// The text the range locates, sliced out of `raw_text` by reference:
    /// when both bounds are the encoded byte lengths of character prefixes of
    /// the text, the slice is exactly the characters between those prefixes.
    pub fn as_text<'a>(&self, raw_text: &'a str) -> (r: &'a str)
        requires
            exists|i: int, j: int|
                0 <= i <= j <= raw_text@.len() && self.lo() == bytes_len(
                    #[trigger] raw_text@.take(i),
                ) && self.hi() == bytes_len(#[trigger] raw_text@.take(j)),
        ensures
            forall|i: int, j: int|
                (0 <= i <= j <= raw_text@.len() && self.lo() == bytes_len(
                    #[trigger] raw_text@.take(i),
                ) && self.hi() == bytes_len(#[trigger] raw_text@.take(j))) ==> r@
                    == raw_text@.subrange(i, j),
    {
        proof {
            broadcast use vstd::utf8::encode_utf8_valid_utf8;
            broadcast use vstd::utf8::encode_utf8_decode_utf8;

        }
        let ghost s = raw_text@;
        let ghost (i, j) = choose|i: int, j: int|
            0 <= i <= j <= s.len() && self.lo() == bytes_len(#[trigger] s.take(i)) && self.hi()
                == bytes_len(#[trigger] s.take(j));
        proof {
            lemma_bytes_len_is_encode_len(s);
            lemma_bytes_len_take_le(s, j);
            lemma_prefix_is_char_boundary(s, j);
        }
        let (head, _) = raw_text.split_at(self.ubound);
        proof {
            let bytes = vstd::utf8::encode_utf8(s);
            assert(s =~= s.take(j) + s.skip(j));
            lemma_encode_utf8_concat(s.take(j), s.skip(j));
            lemma_bytes_len_is_encode_len(s.take(j));
            assert(head.spec_bytes() =~= vstd::utf8::encode_utf8(s.take(j)));
            assert(vstd::utf8::decode_utf8(head.spec_bytes()) == head@);
            assert(head@ == s.take(j));
            assert(head@.take(i) =~= s.take(i));
            lemma_prefix_is_char_boundary(head@, i);
        }
        let (_, tail) = head.split_at(self.lbound);
        proof {
            assert(head@ =~= head@.take(i) + head@.subrange(i, j));
            lemma_encode_utf8_concat(head@.take(i), head@.subrange(i, j));
            lemma_bytes_len_is_encode_len(head@.take(i));
            assert(tail.spec_bytes() =~= vstd::utf8::encode_utf8(head@.subrange(i, j)));
            assert(vstd::utf8::decode_utf8(tail.spec_bytes()) == tail@);
            assert(tail@ == head@.subrange(i, j));
            assert(tail@ == s.subrange(i, j));
            assert forall|i2: int, j2: int|
                (0 <= i2 <= j2 <= s.len() && self.lo() == bytes_len(#[trigger] s.take(i2))
                    && self.hi() == bytes_len(#[trigger] s.take(j2))) implies tail@ == s.subrange(
                i2,
                j2,
            ) by {
                lemma_prefix_bytes_len_injective(s, i, i2);
                lemma_prefix_bytes_len_injective(s, j, j2);
            }
        }
        tail
    }
}

impl Default for MyRange {
    fn default() -> (r: Self)
        ensures
            r.lo() == 0,
            r.hi() == 0,
    {
        Self::new()
    }
}

} // verus!
