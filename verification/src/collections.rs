use vstd::prelude::*;

verus! {

/// Capacity of a [`History`] ring: it remembers this many recent values.
pub const HISTORY_CAPACITY: usize = 16;

/// The sequence a [`History`] remembers after one more value is recorded:
/// the new value in front, the oldest value dropped once the ring is full.
pub open spec fn hist_push(s: Seq<usize>, val: usize) -> Seq<usize> {
    (seq![val] + s).take(if s.len() < HISTORY_CAPACITY as int {
        s.len() as int + 1
    } else {
        HISTORY_CAPACITY as int
    })
}

/// A fixed-capacity ring buffer of recent values: pushing never fails, it
/// overwrites the oldest slot once the ring is full.
///
/// Its view is the remembered values, most recent first.
pub struct History {
    values: Vec<usize>,
    value_cursor: usize,
    len: usize,
}

impl History {
    /// Slot that holds the value recorded `j` pushes before the cursor stood at `cursor`.
    spec fn ring_slot(cursor: int, j: int) -> int {
        if cursor - 1 - j >= 0 {
            cursor - 1 - j
        } else {
            cursor - 1 - j + HISTORY_CAPACITY as int
        }
    }

    pub closed spec fn wf(&self) -> bool {
        &&& self.values@.len() == HISTORY_CAPACITY as int
        &&& self.value_cursor < HISTORY_CAPACITY
        &&& self.len <= HISTORY_CAPACITY
    }

    pub closed spec fn view(&self) -> Seq<usize> {
        Seq::new(
            self.len as nat,
            |j: int| self.values@[Self::ring_slot(self.value_cursor as int, j)],
        )
    }

    pub fn new() -> (r: Self)
        ensures
            r.wf(),
            r@ == Seq::<usize>::empty(),
    {
        let mut values: Vec<usize> = Vec::new();
        let mut k: usize = 0;
        while k < HISTORY_CAPACITY
            invariant
                values@.len() == k as int,
                k <= HISTORY_CAPACITY,
            decreases HISTORY_CAPACITY - k,
        {
            values.push(0);
            k += 1;
        }
        let r = Self { values, value_cursor: 0, len: 0 };
        proof {
            assert(r@ =~= Seq::<usize>::empty());
        }
        r
    }

    /// The value recorded `offset` pushes ago, for `offset` between 1 and the
    /// capacity. Before the ring has seen that many pushes the slot still holds
    /// stale or initial content, and the result means nothing.
    pub fn prev(&self, offset: usize) -> (r: usize)
        requires
            self.wf(),
            1 <= offset <= HISTORY_CAPACITY,
        ensures
            offset <= self@.len() ==> r == self@[offset - 1],
    {
        let x = self.value_cursor + HISTORY_CAPACITY - offset;
        let slot = if x >= HISTORY_CAPACITY {
            x - HISTORY_CAPACITY
        } else {
            x
        };
        self.values[slot]
    }

    /// Forgets every remembered value.
    pub fn clear(&mut self)
        requires
            old(self).wf(),
        ensures
            final(self).wf(),
            final(self)@ == Seq::<usize>::empty(),
    {
        self.len = 0;
        proof {
            assert(self@ =~= Seq::<usize>::empty());
        }
    }

    /// Records a value, overwriting the oldest slot once the ring is full.
    pub fn push(&mut self, val: usize)
        requires
            old(self).wf(),
        ensures
            final(self).wf(),
            final(self)@ == hist_push(old(self)@, val),
    {
        self.values[self.value_cursor] = val;
        self.value_cursor = if self.value_cursor + 1 == HISTORY_CAPACITY {
            0
        } else {
            self.value_cursor + 1
        };
        self.len = if self.len < HISTORY_CAPACITY {
            self.len + 1
        } else {
            self.len
        };
        proof {
            assert(self@ =~= hist_push(old(self)@, val));
        }
    }

    /// How many remembered values the ring holds, at most its capacity.
    pub fn len(&self) -> (r: usize)
        ensures
            r == self@.len(),
    {
        self.len
    }

    pub fn is_empty(&self) -> (r: bool)
        ensures
            r == (self@.len() == 0),
    {
        self.len() == 0
    }
}

impl Clone for History {
    fn clone(&self) -> (r: Self)
        ensures
            r.wf() == self.wf(),
            r@ == self@,
    {
        let mut values: Vec<usize> = Vec::new();
        let mut k: usize = 0;
        while k < self.values.len()
            invariant
                values@ == self.values@.take(k as int),
                k <= self.values@.len(),
            decreases self.values@.len() - k,
        {
            values.push(self.values[k]);
            proof {
                assert(values@ =~= self.values@.take(k + 1));
            }
            k += 1;
        }
        proof {
            assert(values@ =~= self.values@);
        }
        let r = Self { values, value_cursor: self.value_cursor, len: self.len };
        proof {
            assert(r@ =~= self@);
        }
        r
    }
}

impl Default for History {
    fn default() -> (r: Self)
        ensures
            r.wf(),
            r@ == Seq::<usize>::empty(),
    {
        Self::new()
    }
}

} // verus!
