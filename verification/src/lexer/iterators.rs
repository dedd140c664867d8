use vstd::prelude::*;

use crate::collections::{hist_push, History};

verus! {

/// Number of bytes in the UTF-8 encoding of one character.
pub open spec fn char_width(c: char) -> nat {
    if (c as u32) < 0x80 {
        1
    } else if (c as u32) < 0x800 {
        2
    } else if (c as u32) < 0x10000 {
        3
    } else {
        4
    }
}

/// Number of bytes in the UTF-8 encoding of a character sequence.
pub open spec fn bytes_len(s: Seq<char>) -> nat
    decreases s.len(),
{
    if s.len() == 0 {
        0
    } else {
        char_width(s[0]) + bytes_len(s.drop_first())
    }
}

pub proof fn lemma_bytes_len_concat(a: Seq<char>, b: Seq<char>)
    ensures
        bytes_len(a + b) == bytes_len(a) + bytes_len(b),
    decreases a.len(),
{
    if a.len() == 0 {
        assert(a + b =~= b);
    } else {
        assert((a + b).drop_first() =~= a.drop_first() + b);
        lemma_bytes_len_concat(a.drop_first(), b);
    }
}

pub proof fn lemma_bytes_len_take_succ(s: Seq<char>, i: int)
    requires
        0 <= i < s.len(),
    ensures
        bytes_len(s.take(i + 1)) == bytes_len(s.take(i)) + char_width(s[i]),
{
    assert(s.take(i + 1) =~= s.take(i) + seq![s[i]]);
    lemma_bytes_len_concat(s.take(i), seq![s[i]]);
    assert(seq![s[i]].drop_first() =~= Seq::<char>::empty());
    assert(bytes_len(seq![s[i]]) == char_width(s[i]) + bytes_len(seq![s[i]].drop_first()));
}

pub proof fn lemma_bytes_len_ge_len(s: Seq<char>)
    ensures
        bytes_len(s) >= s.len(),
    decreases s.len(),
{
    if s.len() > 0 {
        lemma_bytes_len_ge_len(s.drop_first());
    }
}

/// A longer character prefix covers strictly more bytes: every character is
/// at least one byte wide.
pub proof fn lemma_bytes_len_take_lt(s: Seq<char>, i: int, j: int)
    requires
        0 <= i < j <= s.len(),
    ensures
        bytes_len(s.take(i)) < bytes_len(s.take(j)),
{
    assert(s.take(j) =~= s.take(i) + s.subrange(i, j));
    lemma_bytes_len_concat(s.take(i), s.subrange(i, j));
    lemma_bytes_len_ge_len(s.subrange(i, j));
}

/// A byte offset reaches at most one character prefix.
pub proof fn lemma_prefix_bytes_len_injective(s: Seq<char>, i: int, j: int)
    requires
        0 <= i <= s.len(),
        0 <= j <= s.len(),
        bytes_len(s.take(i)) == bytes_len(s.take(j)),
    ensures
        i == j,
{
    if i < j {
        lemma_bytes_len_take_lt(s, i, j);
    } else if j < i {
        lemma_bytes_len_take_lt(s, j, i);
    }
}

/// `char_width` measures exactly the UTF-8 encoding of the character.
pub proof fn lemma_char_width_is_encode_len(c: char)
    ensures
        char_width(c) == vstd::utf8::encode_scalar(c as u32).len(),
{
    vstd::utf8::char_is_scalar(c);
}

/// `bytes_len` measures exactly the UTF-8 encoding of the text.
pub proof fn lemma_bytes_len_is_encode_len(s: Seq<char>)
    ensures
        bytes_len(s) == vstd::utf8::encode_utf8(s).len(),
    decreases s.len(),
{
    if s.len() > 0 {
        lemma_char_width_is_encode_len(s[0]);
        lemma_bytes_len_is_encode_len(s.drop_first());
    }
}

/// UTF-8 encoding distributes over concatenation of texts.
pub proof fn lemma_encode_utf8_concat(a: Seq<char>, b: Seq<char>)
    ensures
        vstd::utf8::encode_utf8(a + b) == vstd::utf8::encode_utf8(a) + vstd::utf8::encode_utf8(b),
    decreases a.len(),
{
    if a.len() == 0 {
        assert(a + b =~= b);
        assert(vstd::utf8::encode_utf8(a) + vstd::utf8::encode_utf8(b) =~= vstd::utf8::encode_utf8(
            b,
        ));
    } else {
        assert((a + b)[0] == a[0]);
        assert((a + b).drop_first() =~= a.drop_first() + b);
        lemma_encode_utf8_concat(a.drop_first(), b);
        assert(vstd::utf8::encode_utf8(a + b) =~= vstd::utf8::encode_utf8(a)
            + vstd::utf8::encode_utf8(b));
    }
}

/// The byte length of a character prefix is a character boundary of the
/// encoded text.
pub proof fn lemma_prefix_is_char_boundary(s: Seq<char>, i: int)
    requires
        0 <= i <= s.len(),
    ensures
        vstd::utf8::is_char_boundary(vstd::utf8::encode_utf8(s), bytes_len(s.take(i)) as int),
    decreases i,
{
    broadcast use vstd::utf8::encode_utf8_valid_utf8;

    let bytes = vstd::utf8::encode_utf8(s);
    if i == 0 {
        assert(s.take(0) =~= Seq::<char>::empty());
    } else {
        vstd::utf8::encode_utf8_first_scalar(s);
        assert(vstd::utf8::pop_first_scalar(bytes) =~= vstd::utf8::encode_utf8(s.drop_first()));
        lemma_prefix_is_char_boundary(s.drop_first(), i - 1);
        assert(s.take(i)[0] == s[0]);
        assert(s.take(i).drop_first() =~= s.drop_first().take(i - 1));
        lemma_char_width_is_encode_len(s[0]);
        lemma_bytes_len_is_encode_len(s);
        lemma_bytes_len_take_le(s, i);
    }
}

pub proof fn lemma_bytes_len_take_le(s: Seq<char>, i: int)
    requires
        0 <= i <= s.len(),
    ensures
        bytes_len(s.take(i)) <= bytes_len(s),
{
    assert(s =~= s.take(i) + s.skip(i));
    lemma_bytes_len_concat(s.take(i), s.skip(i));
}

/// The byte width of one character, computed from its scalar value.
pub fn char_width_of(c: char) -> (w: usize)
    ensures
        w == char_width(c),
{
    let u = c as u32;
    if u < 0x80 {
        1
    } else if u < 0x800 {
        2
    } else if u < 0x10000 {
        3
    } else {
        4
    }
}

/// A by-value snapshot of a tracker's two history rings, taken at the moment
/// a character was yielded. Carrying the rings by value keeps the snapshot
/// meaningful however long it outlives the tracker.
pub struct HistoryState {
    position_lbound: History,
    position_ubound: History,
}

impl HistoryState {
    pub closed spec fn wf(&self) -> bool {
        &&& self.position_lbound.wf()
        &&& self.position_ubound.wf()
    }

    /// Recent cumulative byte offsets, each taken just past a yielded character.
    pub closed spec fn lbounds(&self) -> Seq<usize> {
        self.position_lbound@
    }

    /// Recent character byte widths.
    pub closed spec fn ubounds(&self) -> Seq<usize> {
        self.position_ubound@
    }

    pub fn position_ubound(&self) -> (r: &History)
        ensures
            r@ == self.ubounds(),
            self.wf() ==> r.wf(),
    {
        &self.position_ubound
    }

    pub fn position_lbound(&self) -> (r: &History)
        ensures
            r@ == self.lbounds(),
            self.wf() ==> r.wf(),
    {
        &self.position_lbound
    }
}

/// One decoded character together with the byte offset at which its encoding
/// starts in the original text, and a snapshot of the recent-offset history.
pub struct CharInfo {
    pub glyph: char,
    pub pos: usize,
    pub aux: HistoryState,
}

/// Walks a character sequence while tracking the cumulative byte offset:
/// a multi-byte character advances the offset by its encoded width, not by one.
/// Each step also records the new offset and the character's width in two
/// bounded history rings for lookback.
pub struct ByteTracker {
    chars: Vec<char>,
    next_idx: usize,
    glyph_pos: usize,
    position_lbound: History,
    position_ubound: History,
}

impl ByteTracker {
    /// The characters the tracker walks.
    pub closed spec fn text(&self) -> Seq<char> {
        self.chars@
    }

    /// How many characters have been yielded so far.
    pub closed spec fn idx(&self) -> int {
        self.next_idx as int
    }

    /// Recent cumulative byte offsets, newest first.
    pub closed spec fn lbounds(&self) -> Seq<usize> {
        self.position_lbound@
    }

    /// Recent character byte widths, newest first.
    pub closed spec fn ubounds(&self) -> Seq<usize> {
        self.position_ubound@
    }

    pub closed spec fn wf(&self) -> bool {
        &&& self.next_idx <= self.chars@.len()
        &&& self.glyph_pos == bytes_len(self.chars@.take(self.next_idx as int))
        &&& bytes_len(self.chars@) <= usize::MAX
        &&& self.position_lbound.wf()
        &&& self.position_ubound.wf()
    }

    pub fn new(chars: Vec<char>) -> (r: Self)
        requires
            bytes_len(chars@) <= usize::MAX,
        ensures
            r.wf(),
            r.text() == chars@,
            r.idx() == 0,
            r.lbounds() == Seq::<usize>::empty(),
            r.ubounds() == Seq::<usize>::empty(),
    {
        let r = Self {
            chars,
            next_idx: 0,
            glyph_pos: 0,
            position_lbound: History::new(),
            position_ubound: History::new(),
        };
        proof {
            assert(r.chars@.take(0) =~= Seq::<char>::empty());
        }
        r
    }

    /// Yields the next character with its byte offset, or signals exhaustion.
    /// On a yield, the offset just past the character goes into one history
    /// ring and the character's byte width into the other, and the returned
    /// record carries a snapshot of both.
    pub fn next(&mut self) -> (r: Option<CharInfo>)
        requires
            old(self).wf(),
        ensures
            final(self).wf(),
            final(self).text() == old(self).text(),
            old(self).idx() < old(self).text().len() ==> {
                &&& r matches Some(ci)
                &&& ci.glyph == old(self).text()[old(self).idx()]
                &&& ci.pos == bytes_len(old(self).text().take(old(self).idx()))
                &&& ci.pos + char_width(ci.glyph) <= usize::MAX
                &&& final(self).idx() == old(self).idx() + 1
                &&& final(self).lbounds() == hist_push(
                    old(self).lbounds(),
                    (ci.pos + char_width(ci.glyph)) as usize,
                )
                &&& final(self).ubounds() == hist_push(
                    old(self).ubounds(),
                    char_width(ci.glyph) as usize,
                )
                &&& ci.aux.wf()
                &&& ci.aux.lbounds() == final(self).lbounds()
                &&& ci.aux.ubounds() == final(self).ubounds()
            },
            old(self).idx() >= old(self).text().len() ==> {
                &&& r is None
                &&& final(self).idx() == old(self).idx()
                &&& final(self).lbounds() == old(self).lbounds()
                &&& final(self).ubounds() == old(self).ubounds()
            },
    {
        if self.next_idx < self.chars.len() {
            let glyph = self.chars[self.next_idx];
            let glyph_len = char_width_of(glyph);
            let glyph_pos = self.glyph_pos;
            proof {
                lemma_bytes_len_take_succ(self.chars@, self.next_idx as int);
                lemma_bytes_len_take_le(self.chars@, self.next_idx as int + 1);
            }
            self.position_lbound.push(glyph_pos + glyph_len);
            self.position_ubound.push(glyph_len);
            self.glyph_pos = glyph_pos + glyph_len;
            self.next_idx = self.next_idx + 1;
            Some(
                CharInfo {
                    glyph,
                    pos: glyph_pos,
                    aux: HistoryState {
                        position_lbound: self.position_lbound.clone(),
                        position_ubound: self.position_ubound.clone(),
                    },
                },
            )
        } else {
            None
        }
    }
}

} // verus!
